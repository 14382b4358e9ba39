use vstd::prelude::*;

verus! {

/// The parts of a Polygon `problem.xml` that the conductor reads.
pub struct Problem {
    pub judging: Judging,
    pub assets: Assets,
    pub tags: Tags,
}

pub struct Judging {
    /// Empty where the manifest names none.
    pub input_file: String,
    /// Empty where the manifest names none.
    pub output_file: String,
    pub run_count: Option<u64>,
    pub testset: Vec<TestSet>,
}

pub struct TestSet {
    pub name: String,
    /// In milliseconds.
    pub time_limit: u64,
    /// In bytes.
    pub memory_limit: u64,
    pub test_count: usize,
    /// A printf-style pattern with one `%d`.
    pub input_path_pattern: Option<String>,
    /// A printf-style pattern with one `%d`.
    pub answer_path_pattern: Option<String>,
    pub path_pattern: Vec<PathPattern>,
    pub tests: Vec<Test>,
    pub groups: Vec<Group>,
}

pub struct PathPattern {
    pub name: String,
    /// A printf-style pattern with one `%d`.
    pub value: String,
}

/// A test; its points, a float, are not read by the conductor.
pub struct Test {
    pub method: String,
    /// Empty where the test belongs to no group.
    pub group: String,
    pub cmd: String,
    pub description: String,
    pub sample: bool,
}

/// A group of tests; its points, a float, are not read by the conductor.
pub struct Group {
    pub feedback_policy: String,
    pub name: String,
    pub points_policy: String,
    pub dependencies: Option<Dependencies>,
}

pub struct Dependencies {
    pub dependency: Vec<Dependency>,
}

pub struct Dependency {
    pub group: String,
}

pub struct Assets {
    pub checker: Checker,
    pub interactor: Option<Interactor>,
    pub strategy: Option<Strategy>,
}

pub struct Checker {
    pub name: Option<String>,
    pub type_: String,
    pub source: Source,
    pub binary: Binary,
}

pub struct Interactor {
    pub source: Source,
    pub binary: Binary,
    pub runs: Option<Runs>,
}

pub struct Runs {
    pub run: Vec<Run>,
}

pub struct Run {
    pub value: u64,
}

pub struct Strategy {
    pub source: Source,
}

pub struct Source {
    pub path: String,
    pub type_: String,
}

pub struct Binary {
    pub path: String,
    pub type_: String,
}

pub struct Tags {
    pub tag: Vec<Tag>,
}

pub struct Tag {
    pub value: String,
}

} // verus!
