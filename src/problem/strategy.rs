use vstd::prelude::*;
use crate::problem::program::CachedProgram;

verus! {

/// How a test is run: declared files, the blocks in execution order, helper programs.
pub struct StrategyFactory {
    /// Logical file names, each declared once, with their kind.
    pub files: Vec<(String, FileType)>,
    pub blocks: Vec<Block>,
    /// Helper programs by role ("checker", "interactor").
    pub programs: Vec<(String, CachedProgram)>,
    /// A scratch directory private to the runner.
    pub root: String,
}

/// One process invocation inside a strategy.
pub struct Block {
    pub name: String,
    pub tactic: Tactic,
    /// Sandbox locations, each bound once, with what is mounted there.
    pub bindings: Vec<(String, Binding)>,
    pub command: String,
    pub argv: Vec<Pattern>,
    pub stdin: Option<Pattern>,
    pub stdout: Option<Pattern>,
    pub stderr: Option<Pattern>,
}

/// Who runs a block: the contestant's program or a trusted helper.
#[derive(Clone, Copy, Debug, PartialEq, Eq, Structural)]
pub enum Tactic {
    User,
    Testlib,
}

/// A regular file in the sandbox, or a pipe between blocks.
#[derive(Clone, Copy, Debug, PartialEq, Eq, Structural)]
pub enum FileType {
    Regular,
    Pipe,
}

pub struct Binding {
    pub readable: bool,
    pub writable: bool,
    pub source: Pattern,
}

/// A declared file, or text in which each variable reference is its name between NULs.
#[derive(Clone)]
pub enum Pattern {
    File(String),
    VariableText(String),
}

pub enum PatternModel {
    File(Seq<char>),
    VariableText(Seq<char>),
}

pub struct BindingModel {
    pub readable: bool,
    pub writable: bool,
    pub source: PatternModel,
}

pub struct BlockModel {
    pub name: Seq<char>,
    pub tactic: Tactic,
    pub bindings: Seq<(Seq<char>, BindingModel)>,
    pub command: Seq<char>,
    pub argv: Seq<PatternModel>,
    pub stdin: Option<PatternModel>,
    pub stdout: Option<PatternModel>,
    pub stderr: Option<PatternModel>,
}

impl View for Pattern {
    type V = PatternModel;

    open spec fn view(&self) -> PatternModel {
        match self {
            Pattern::File(s) => PatternModel::File(s@),
            Pattern::VariableText(s) => PatternModel::VariableText(s@),
        }
    }
}

impl View for Binding {
    type V = BindingModel;

    open spec fn view(&self) -> BindingModel {
        BindingModel { readable: self.readable, writable: self.writable, source: self.source@ }
    }
}

pub open spec fn pattern_opt_view(p: Option<Pattern>) -> Option<PatternModel> {
    match p {
        Some(x) => Some(x@),
        None => None,
    }
}

pub open spec fn binding_views(v: Seq<(String, Binding)>) -> Seq<(Seq<char>, BindingModel)> {
    v.map_values(|e: (String, Binding)| (e.0@, e.1@))
}

pub open spec fn pattern_views(v: Seq<Pattern>) -> Seq<PatternModel> {
    v.map_values(|p: Pattern| p@)
}

impl View for Block {
    type V = BlockModel;

    open spec fn view(&self) -> BlockModel {
        BlockModel {
            name: self.name@,
            tactic: self.tactic,
            bindings: binding_views(self.bindings@),
            command: self.command@,
            argv: pattern_views(self.argv@),
            stdin: pattern_opt_view(self.stdin),
            stdout: pattern_opt_view(self.stdout),
            stderr: pattern_opt_view(self.stderr),
        }
    }
}

pub open spec fn file_views(v: Seq<(String, FileType)>) -> Seq<(Seq<char>, FileType)> {
    v.map_values(|e: (String, FileType)| (e.0@, e.1))
}

pub open spec fn block_views(v: Seq<Block>) -> Seq<BlockModel> {
    v.map_values(|b: Block| b@)
}

/// `name` is declared in `files`.
pub open spec fn declares(files: Seq<(Seq<char>, FileType)>, name: Seq<char>) -> bool {
    exists|i: int| 0 <= i < files.len() && (#[trigger] files[i]).0 == name
}

/// A pattern that names a file names a declared one.
pub open spec fn pattern_known(files: Seq<(Seq<char>, FileType)>, p: PatternModel) -> bool {
    match p {
        PatternModel::File(n) => declares(files, n),
        PatternModel::VariableText(_) => true,
    }
}

pub open spec fn opt_known(files: Seq<(Seq<char>, FileType)>, p: Option<PatternModel>) -> bool {
    match p {
        Some(x) => pattern_known(files, x),
        None => true,
    }
}

/// Every file that a block mentions (argv, redirections, bindings) is declared.
pub open spec fn block_files_known(files: Seq<(Seq<char>, FileType)>, b: BlockModel) -> bool {
    &&& forall|i: int| 0 <= i < b.argv.len() ==> pattern_known(files, #[trigger] b.argv[i])
    &&& forall|i: int|
        0 <= i < b.bindings.len() ==> pattern_known(files, (#[trigger] b.bindings[i]).1.source)
    &&& opt_known(files, b.stdin)
    &&& opt_known(files, b.stdout)
    &&& opt_known(files, b.stderr)
}

/// A redirection is absent, a declared file, or text other than `/dev/null`.
pub open spec fn stream_ok(files: Seq<(Seq<char>, FileType)>, p: Option<PatternModel>) -> bool {
    match p {
        None => true,
        Some(PatternModel::File(n)) => declares(files, n),
        Some(PatternModel::VariableText(t)) => t != "/dev/null"@,
    }
}

impl Pattern {
    /// A copy of the pattern.
    pub fn duplicate(&self) -> (r: Pattern)
        ensures
            r@ == self@,
    {
        match self {
            Pattern::File(s) => Pattern::File(s.clone()),
            Pattern::VariableText(s) => Pattern::VariableText(s.clone()),
        }
    }
}

} // verus!
