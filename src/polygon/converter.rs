use vstd::prelude::*;
use vstd::utf8::{decode_utf8, valid_utf8};
use crate::archive_store::{Archive, ArchiveStore};
use crate::errors::{Error, configuration_failure};
use crate::polygon::parser::{Binary, Judging, Problem, Runs, Source};
use crate::polygon::tests::{
    add_tests_to_archive, generate_dependency_graph, read_entry, reader_failed, reads, judging_model, matches_at, row_of,
    all_edges, test_files_of, total_tests, judging_valid, u64_views, offset, testset_model,
    lemma_offset_mono,
};
use crate::problem::config::{DependencyGraph, ProblemRevision};
use crate::problem::program::CachedProgram;
use crate::problem::strategy::StrategyFactory;
use crate::problem::strategy_format::{ParsedStrategy, encode_string, encoded, parse_sunwalker_strategy, strategy_of};
use crate::problem::token::{chars_of, string_of, text_is, utf8_text};

verus! {

pub const INPUT_OUTPUT: &'static str = "
file %output %stderr %checker_stderr
block invocation
    tactic user
    ro $input as {input}
    rw %output as {output}
    user <{input} >{output} 2>%stderr
block check
    tactic testlib
    checker $input %output $answer 2>%checker_stderr
";

pub const INTERACTIVE: &'static str = "
file %interactor_output %interactor_stderr
pipe %interactor_to_user %user_to_interactor
block invocation
    tactic user
    user <%interactor_to_user >%user_to_interactor
block interaction
    tactic testlib
    rw %interactor_output as output.txt
    interactor $input output.txt $answer <%user_to_interactor >%interactor_to_user 2>%interactor_stderr
block check
    tactic testlib
    checker $input %inteactor_output $answer 2>%checker_stderr
";

pub const RUN_TWICE_NON_INTERACTIVE: &'static str = "
file %run1_output %run1_stderr %run1_checker_stderr %run2_input %run2_output %run2_stderr %run2_checker_stderr
block firstrun
    tactic user
    ro $input as input.txt
    rw %run1_output as output.txt
    user <input.txt >output.txt 2>%run1_stderr
block firstcheck
    tactic testlib
    checker $input %run1_output $answer >%run2_input 2>%run1_checker_stderr
block secondrun
    tactic user
    ro %run2_input as input.txt
    rw %run2_output as output.txt
    user <input.txt >output.txt 2>%run2_stderr
block secondcheck
    tactic testlib
    checker %run2_input %run2_output $answer 2>%run2_checker_stderr
";

pub const RUN_TWICE_ONLY_FIRST_RUN_INTERACTIVE: &'static str = "
file %run1_stderr %run1_interactor_stderr %run2_input %run2_output %run2_stderr %run2_checker_stderr
pipe %run1_interactor_to_user %run1_user_to_interactor
block firstrun
    tactic user
    user <%run1_interactor_to_user >%run1_user_to_interactor 2>%run1_stderr
block firstinteraction
    tactic testlib
    rw %run2_input as output.txt
    interactor $input output.txt $answer <%run1_user_to_interactor >%run1_interactor_to_user 2>%run1_interactor_stderr
block secondrun
    tactic user
    ro %run2_input as input.txt
    rw %run2_output as output.txt
    user <input.txt >output.txt 2>%run2_stderr
block secondcheck
    tactic testlib
    checker %run2_input %run2_output $answer 2>%run2_checker_stderr
";

pub const RUN_TWICE_ALL_RUNS_INTERACTIVE: &'static str = "
file %run1_stderr %run1_interactor_stderr %run2_input %run2_stderr %run2_interactor_output %checker_stderr
pipe %run1_interactor_to_user %run1_user_to_interactor %run2_interactor_to_user %run2_user_to_interactor
block firstrun
    tactic user
    user <%run1_interactor_to_user >%run1_user_to_interactor 2>%run1_stderr
block firstinteraction
    tactic testlib
    rw %run2_input as output.txt
    interactor $input output.txt $answer <%run1_user_to_interactor >%run1_interactor_to_user 2>%run1_interactor_stderr
block secondrun
    tactic user
    user <%run2_interactor_to_user >%run2_user_to_interactor 2>%run2_stderr
block secondinteraction
    tactic testlib
    rw %run2_interactor_output as output.txt
    interactor %run2_input output.txt $answer <%run2_user_to_interactor >%run2_interactor_to_user 2>%run2_interactor_stderr
block check
    tactic testlib
    checker $input %run2_interactor_output $answer 2>%checker_stderr
";

/// The five built-in strategies, used where a problem brings none.
#[derive(Clone, Copy, Debug, PartialEq, Eq, Structural)]
pub enum DefaultStrategy {
    InputOutput,
    Interactive,
    RunTwiceNonInteractive,
    RunTwiceOnlyFirstRunInteractive,
    RunTwiceAllRunsInteractive,
}

pub open spec fn template_of(t: DefaultStrategy) -> &'static str {
    match t {
        DefaultStrategy::InputOutput => INPUT_OUTPUT,
        DefaultStrategy::Interactive => INTERACTIVE,
        DefaultStrategy::RunTwiceNonInteractive => RUN_TWICE_NON_INTERACTIVE,
        DefaultStrategy::RunTwiceOnlyFirstRunInteractive => RUN_TWICE_ONLY_FIRST_RUN_INTERACTIVE,
        DefaultStrategy::RunTwiceAllRunsInteractive => RUN_TWICE_ALL_RUNS_INTERACTIVE,
    }
}

impl DefaultStrategy {
    /// The text of the strategy, with `{input}` and `{output}` placeholders.
    pub fn text(self) -> (r: &'static str)
        ensures
            r == template_of(self),
    {
        match self {
            DefaultStrategy::InputOutput => INPUT_OUTPUT,
            DefaultStrategy::Interactive => INTERACTIVE,
            DefaultStrategy::RunTwiceNonInteractive => RUN_TWICE_NON_INTERACTIVE,
            DefaultStrategy::RunTwiceOnlyFirstRunInteractive => RUN_TWICE_ONLY_FIRST_RUN_INTERACTIVE,
            DefaultStrategy::RunTwiceAllRunsInteractive => RUN_TWICE_ALL_RUNS_INTERACTIVE,
        }
    }
}

pub open spec fn has_run_twice_tag(p: Problem) -> bool {
    exists|i: int| 0 <= i < p.tags.tag@.len() && (#[trigger] p.tags.tag@[i]).value@ == "run-twice"@
}

/// Whether the problem is run twice: from `run-count` where given, else from its tags.
pub open spec fn run_twice(p: Problem) -> Option<bool> {
    match p.judging.run_count {
        None => Some(has_run_twice_tag(p)),
        Some(n) => if n == 1 {
            Some(false)
        } else if n == 2 {
            Some(true)
        } else {
            None
        },
    }
}

pub open spec fn runs_view(r: Runs) -> Seq<u64> {
    r.run@.map_values(|x: crate::polygon::parser::Run| x.value)
}

/// The built-in strategy that fits the problem; `None` for an unsupported run count or runs.
pub open spec fn template_choice(p: Problem) -> Option<DefaultStrategy> {
    match run_twice(p) {
        None => None,
        Some(false) => match p.assets.interactor {
            None => Some(DefaultStrategy::InputOutput),
            Some(_) => Some(DefaultStrategy::Interactive),
        },
        Some(true) => match p.assets.interactor {
            None => Some(DefaultStrategy::RunTwiceNonInteractive),
            Some(i) => match i.runs {
                None => Some(DefaultStrategy::RunTwiceOnlyFirstRunInteractive),
                Some(r) => if runs_view(r) == seq![1u64] {
                    Some(DefaultStrategy::RunTwiceOnlyFirstRunInteractive)
                } else if runs_view(r) == seq![1u64, 2u64] {
                    Some(DefaultStrategy::RunTwiceAllRunsInteractive)
                } else {
                    None
                },
            },
        },
    }
}

/// Picks the built-in strategy for a problem that brings none.
pub fn choose_default_strategy(p: &Problem) -> (r: Result<DefaultStrategy, Error>)
    ensures
        r is Ok <==> template_choice(*p) is Some,
        r matches Ok(t) ==> template_choice(*p) == Some(t),
        r matches Err(e) ==> e is ConfigurationFailure,
{
    let twice = match p.judging.run_count {
        None => {
            let mut found = false;
            let mut i: usize = 0;
            while i < p.tags.tag.len()
                invariant
                    i <= p.tags.tag@.len(),
                    found == exists|k: int| 0 <= k < i && (#[trigger] p.tags.tag@[k]).value@ == "run-twice"@,
                decreases p.tags.tag@.len() - i,
            {
                if text_is(&p.tags.tag[i].value, "run-twice") {
                    found = true;
                }
                i += 1;
            }
            found
        },
        Some(n) => if n == 1 {
            false
        } else if n == 2 {
            true
        } else {
            return Err(configuration_failure("only one or two runs are supported"));
        },
    };
    if !twice {
        return Ok(
            match p.assets.interactor {
                None => DefaultStrategy::InputOutput,
                Some(_) => DefaultStrategy::Interactive,
            },
        );
    }
    match &p.assets.interactor {
        None => Ok(DefaultStrategy::RunTwiceNonInteractive),
        Some(i) => match &i.runs {
            None => Ok(DefaultStrategy::RunTwiceOnlyFirstRunInteractive),
            Some(r) => {
                let ghost rv = runs_view(*r);
                if r.run.len() == 1 && r.run[0].value == 1 {
                    assert(rv =~= seq![1u64]);
                    Ok(DefaultStrategy::RunTwiceOnlyFirstRunInteractive)
                } else if r.run.len() == 2 && r.run[0].value == 1 && r.run[1].value == 2 {
                    assert(rv =~= seq![1u64, 2u64]);
                    Ok(DefaultStrategy::RunTwiceAllRunsInteractive)
                } else {
                    proof {
                        assert(rv.len() == r.run@.len());
                        if r.run@.len() > 0 {
                            assert(rv[0] == r.run@[0].value);
                        }
                        if r.run@.len() > 1 {
                            assert(rv[1] == r.run@[1].value);
                        }
                        if rv == seq![1u64] {
                            assert(seq![1u64][0] == 1u64);
                            assert(seq![1u64].len() == 1);
                        }
                        if rv == seq![1u64, 2u64] {
                            assert(seq![1u64, 2u64][0] == 1u64);
                            assert(seq![1u64, 2u64][1] == 2u64);
                            assert(seq![1u64, 2u64].len() == 2);
                        }
                    }
                    Err(configuration_failure("<runs> must be [1] or [1, 2]"))
                }
            },
        },
    }
}

/// `s` from position `i` on, with each occurrence of `pat` replaced by `rep`, left to right.
pub open spec fn replaced(s: Seq<char>, pat: Seq<char>, rep: Seq<char>, i: int) -> Seq<char>
    decreases s.len() - i,
{
    if i < 0 || i >= s.len() {
        seq![]
    } else if pat.len() > 0 && i + pat.len() <= s.len() && s.subrange(i, i + pat.len()) == pat {
        rep + replaced(s, pat, rep, i + pat.len())
    } else {
        seq![s[i]] + replaced(s, pat, rep, i + 1)
    }
}

/// Replaces each occurrence of `pat` in `s` by `rep`.
pub fn replace_all(s: &str, pat: &str, rep: &str) -> (r: String)
    ensures
        r@ == replaced(s@, pat@, rep@, 0),
{
    let sc = chars_of(s);
    let pc = chars_of(pat);
    let rc = chars_of(rep);
    let n = sc.len();
    let mut out: Vec<char> = Vec::new();
    let mut i: usize = 0;
    assert(out@ + replaced(sc@, pc@, rc@, 0) =~= replaced(sc@, pc@, rc@, 0));
    while i < n
        invariant
            n == sc@.len(),
            i <= n,
            sc@ == s@,
            pc@ == pat@,
            rc@ == rep@,
            replaced(sc@, pc@, rc@, 0) == out@ + replaced(sc@, pc@, rc@, i as int),
        decreases n - i,
    {
        let ghost before = out@;
        if pc.len() > 0 && pc.len() <= n - i && matches_at(&sc, &pc, i) {
            let mut r2 = rc.clone();
            proof {
                assert(r2@ == rc@) by {
                    assert(r2@ =~= rc@);
                }
            }
            out.append(&mut r2);
            assert(before + replaced(sc@, pc@, rc@, i as int) =~= out@ + replaced(
                sc@,
                pc@,
                rc@,
                i + pc@.len(),
            ));
            i = i + pc.len();
        } else {
            out.push(sc[i]);
            assert(before + replaced(sc@, pc@, rc@, i as int) =~= out@ + replaced(
                sc@,
                pc@,
                rc@,
                i + 1,
            ));
            i = i + 1;
        }
    }
    assert(out@ + replaced(sc@, pc@, rc@, n as int) =~= out@);
    string_of(&out)
}

pub open spec fn name_or(s: Seq<char>, fallback: Seq<char>) -> Seq<char> {
    if s.len() == 0 {
        fallback
    } else {
        s
    }
}

/// The text of built-in strategy `t` for problem `p`: `{input}` and `{output}` become the
/// quoted names of the problem's input and output files (`input.txt`, `output.txt` where
/// it names none).
pub open spec fn default_strategy_text(p: Problem, t: DefaultStrategy) -> Seq<char> {
    replaced(
        replaced(
            template_of(t)@,
            "{input}"@,
            encoded(name_or(p.judging.input_file@, "input.txt"@)),
            0,
        ),
        "{output}"@,
        encoded(name_or(p.judging.output_file@, "output.txt"@)),
        0,
    )
}

fn name_or_exec(s: &String, fallback: &str) -> (r: String)
    ensures
        r@ == name_or(s@, fallback@),
{
    if s.as_str().is_empty() {
        fallback.to_string()
    } else {
        s.clone()
    }
}

/// The built-in strategy of a problem that brings none, parsed.
pub fn default_strategy(p: &Problem) -> (r: Result<ParsedStrategy, Error>)
    ensures
        template_choice(*p) is None ==> r is Err,
        template_choice(*p) matches Some(t) ==> (r is Ok <==> strategy_of(
            default_strategy_text(*p, t),
        ) is Some),
        template_choice(*p) matches Some(t) ==> (r matches Ok(s) ==> strategy_of(
            default_strategy_text(*p, t),
        ) == Some(s.model())),
        r matches Err(e) ==> e is ConfigurationFailure,
{
    let t = match choose_default_strategy(p) {
        Ok(t) => t,
        Err(e) => {
            return Err(e);
        },
    };
    let input = encode_string(name_or_exec(&p.judging.input_file, "input.txt").as_str());
    let output = encode_string(name_or_exec(&p.judging.output_file, "output.txt").as_str());
    let first = replace_all(t.text(), "{input}", input.as_str());
    let text = replace_all(first.as_str(), "{output}", output.as_str());
    parse_sunwalker_strategy(text.as_str())
}

/// The text after the last `/` among the first `k` characters of `p`, or all of `p`.
pub open spec fn after_last_slash(p: Seq<char>, k: int) -> Seq<char>
    decreases k,
{
    if k <= 0 || k > p.len() {
        p
    } else if p[k - 1] == '/' {
        p.subrange(k, p.len() as int)
    } else {
        after_last_slash(p, k - 1)
    }
}

/// The last component of a slash-separated path.
pub open spec fn base_name(p: Seq<char>) -> Seq<char> {
    after_last_slash(p, p.len() as int)
}

pub open spec fn strings_view(v: Seq<String>) -> Seq<Seq<char>> {
    v.map_values(|s: String| s@)
}

/// Role, package, prerequisites and argv of a registered program.
pub open spec fn program_entry_view(e: (String, CachedProgram)) -> (
    Seq<char>,
    Seq<char>,
    Seq<Seq<char>>,
    Seq<Seq<char>>,
) {
    (e.0@, e.1.package@, strings_view(e.1.prerequisites@), strings_view(e.1.argv@))
}

pub open spec fn programs_view(v: Seq<(String, CachedProgram)>) -> Seq<
    (Seq<char>, Seq<char>, Seq<Seq<char>>, Seq<Seq<char>>),
> {
    v.map_values(|e: (String, CachedProgram)| program_entry_view(e))
}

pub open spec fn program_entry(name: Seq<char>, binary: Binary) -> (
    Seq<char>,
    Seq<char>,
    Seq<Seq<char>>,
    Seq<Seq<char>>,
) {
    (name, name, seq![], seq![base_name(binary.path@)])
}

/// The first position of role `name`, where there is one.
pub open spec fn role_position(
    v: Seq<(Seq<char>, Seq<char>, Seq<Seq<char>>, Seq<Seq<char>>)>,
    name: Seq<char>,
) -> int {
    choose|j: int|
        0 <= j < v.len() && (#[trigger] v[j]).0 == name && forall|k: int|
            0 <= k < j ==> v[k].0 != name
}

pub open spec fn has_role(
    v: Seq<(Seq<char>, Seq<char>, Seq<Seq<char>>, Seq<Seq<char>>)>,
    name: Seq<char>,
) -> bool {
    exists|j: int| 0 <= j < v.len() && (#[trigger] v[j]).0 == name
}

/// Registers a helper program under its role, replacing a program already registered for
/// it: its package is named after the role, it has no prerequisites, and it is started by
/// the base name of its binary.
pub fn add_program(
    archive: &mut Archive,
    programs: &mut Vec<(String, CachedProgram)>,
    name: String,
    source: &Source,
    binary: &Binary,
) -> (r: Result<(), Error>)
    ensures
        r is Ok,
        *final(archive) == *old(archive),
        has_role(programs_view(old(programs)@), name@) ==> programs_view(final(programs)@)
            == programs_view(old(programs)@).update(
            role_position(programs_view(old(programs)@), name@),
            program_entry(name@, *binary),
        ),
        !has_role(programs_view(old(programs)@), name@) ==> programs_view(final(programs)@)
            == programs_view(old(programs)@).push(program_entry(name@, *binary)),
{
    let p = chars_of(binary.path.as_str());
    let mut k = p.len();
    while k > 0 && p[k - 1] != '/'
        invariant
            k <= p@.len(),
            p@ == binary.path@,
            after_last_slash(p@, k as int) == base_name(p@),
        decreases k,
    {
        k -= 1;
    }
    let bin = if k == 0 {
        binary.path.clone()
    } else {
        string_of(&crate::problem::token::slice_exec(&p, k, p.len()))
    };
    let mut argv: Vec<String> = Vec::new();
    argv.push(bin);
    assert(strings_view(argv@) =~= seq![base_name(binary.path@)]);
    let prerequisites: Vec<String> = Vec::new();
    assert(strings_view(prerequisites@) =~= seq![]);
    let ghost before = programs_view(programs@);
    let package = name.clone();
    let ghost nv = name@;
    let mut i: usize = 0;
    while i < programs.len()
        invariant
            i <= programs@.len(),
            before == programs_view(programs@),
            before == programs_view(old(programs)@),
            nv == name@,
            package@ == nv,
            strings_view(argv@) == seq![base_name(binary.path@)],
            strings_view(prerequisites@) == Seq::<Seq<char>>::empty(),
            forall|k: int| 0 <= k < i ==> before[k].0 != nv,
        decreases programs@.len() - i,
    {
        assert(before[i as int].0 == programs@[i as int].0@);
        if programs[i].0 == name {
            let entry = (name, CachedProgram { package, prerequisites, argv });
            let ghost ev = program_entry_view(entry);
            proof {
                let j = role_position(before, nv);
                assert(has_role(before, nv));
                assert(0 <= j < before.len() && before[j].0 == nv);
                if j < i {
                    assert(before[j].0 != nv);
                } else if j > i {
                    assert(before[i as int].0 != nv);
                }
                assert(j == i as int);
                assert(ev == program_entry(nv, *binary));
            }
            programs.set(i, entry);
            assert(programs_view(programs@) =~= before.update(i as int, ev));
            return Ok(());
        }
        i += 1;
    }
    let entry = (name, CachedProgram { package, prerequisites, argv });
    let ghost ev = program_entry_view(entry);
    programs.push(entry);
    assert(programs_view(programs@) =~= before.push(ev));
    Ok(())
}

/// The total number of tests, where it is below `usize::MAX`.
fn count_tests(j: &Judging) -> (r: Option<usize>)
    ensures
        r is Some <==> total_tests(judging_model(*j)) < usize::MAX,
        r matches Some(n) ==> n as int == total_tests(judging_model(*j)),
{
    let ghost jm = judging_model(*j);
    let mut total: usize = 0;
    let mut i: usize = 0;
    while i < j.testset.len()
        invariant
            i <= j.testset@.len(),
            jm == judging_model(*j),
            total as int == offset(jm, i as int),
            total < usize::MAX,
        decreases j.testset@.len() - i,
    {
        assert(jm[i as int] == testset_model(j.testset@[i as int]));
        let n = j.testset[i].tests.len();
        if n >= usize::MAX - total {
            proof {
                lemma_offset_mono(jm, i + 1, jm.len() as int);
            }
            return None;
        }
        total = total + n;
        i += 1;
    }
    Some(total)
}

/// The dependency graph that a manifest describes, as `generate_dependency_graph` states it.
pub open spec fn graph_matches(g: DependencyGraph, j: Judging) -> bool {
    let m = judging_model(j);
    &&& g.dependents_of@.len() == total_tests(m)
    &&& forall|u: int|
        0 <= u < total_tests(m) ==> u64_views(#[trigger] g.dependents_of@[u]@) == row_of(
            all_edges(m, m.len() as int),
            u,
        )
}

/// The programs that a problem registers: its checker, then its interactor if it has one.
pub open spec fn programs_of(p: Problem) -> Seq<(Seq<char>, Seq<char>, Seq<Seq<char>>, Seq<Seq<char>>)> {
    let checker = program_entry("checker"@, p.assets.checker.binary);
    match p.assets.interactor {
        None => seq![checker],
        Some(i) => seq![
            checker,
            program_entry("interactor"@, i.binary),
        ],
    }
}

/// The run count, where given, is 1 or 2.
pub open spec fn run_count_ok(p: Problem) -> bool {
    match p.judging.run_count {
        None => true,
        Some(n) => n == 1 || n == 2,
    }
}

/// The manifest is one that the conductor accepts: a testlib checker, a run count of 1 or 2
/// where one is given, fewer than `usize::MAX` tests, and a valid dependency structure.
pub open spec fn revision_ok(p: Problem) -> bool {
    &&& p.assets.checker.type_@ == "testlib"@
    &&& run_count_ok(p)
    &&& total_tests(judging_model(p.judging)) < usize::MAX
    &&& judging_valid(judging_model(p.judging))
}

/// Builds the problem revision from the manifest and its parsed strategy.
pub fn build_revision(problem: &Problem, strategy: ParsedStrategy) -> (r: Result<
    ProblemRevision,
    Error,
>)
    ensures
        r is Ok <==> revision_ok(*problem),
        r matches Ok(rev) ==> graph_matches(rev.dependency_graph, problem.judging),
        r matches Ok(rev) ==> (ParsedStrategy {
            files: rev.strategy_factory.files,
            blocks: rev.strategy_factory.blocks,
        }).model() == strategy.model(),
        r matches Ok(rev) ==> programs_view(rev.strategy_factory.programs@) == programs_of(
            *problem,
        ),
        r matches Err(e) ==> e is ConfigurationFailure,
{
    if !text_is(&problem.assets.checker.type_, "testlib") {
        return Err(configuration_failure("only testlib checkers are supported"));
    }
    match problem.judging.run_count {
        Some(n) => if n != 1 && n != 2 {
            return Err(configuration_failure("only one or two runs are supported"));
        },
        None => {},
    }
    if count_tests(&problem.judging).is_none() {
        return Err(configuration_failure("the problem has too many tests"));
    }
    let dependency_graph = match generate_dependency_graph(&problem.judging) {
        Ok(g) => g,
        Err(e) => {
            return Err(e);
        },
    };
    let mut archive = Archive::new();
    let mut programs: Vec<(String, CachedProgram)> = Vec::new();
    assert(programs_view(programs@) =~= seq![]);
    let _ = add_program(
        &mut archive,
        &mut programs,
        "checker".to_string(),
        &problem.assets.checker.source,
        &problem.assets.checker.binary,
    );
    if let Some(interactor) = &problem.assets.interactor {
        let _ = add_program(
            &mut archive,
            &mut programs,
            "interactor".to_string(),
            &interactor.source,
            &interactor.binary,
        );
    }
    proof {
        reveal_strlit("checker");
        reveal_strlit("interactor");
        assert("checker"@ != "interactor"@) by {
            assert("checker"@[0] != "interactor"@[0]);
        }
        assert(programs_view(programs@) =~= programs_of(*problem));
    }
    let ParsedStrategy { files, blocks } = strategy;
    Ok(
        ProblemRevision {
            dependency_graph,
            strategy_factory: StrategyFactory {
                files,
                blocks,
                programs,
                root: String::new(),
            },
        },
    )
}

/// The built-in strategy fits the problem and its text parses.
pub open spec fn default_parses(p: Problem) -> bool {
    match template_choice(p) {
        Some(t) => strategy_of(default_strategy_text(p, t)) is Some,
        None => false,
    }
}

/// Converts a Polygon package into a problem revision and the archive of its tests. Files of
/// the package (a custom strategy, the tests) are read through `polygon_file_reader`.
pub fn create_archive_from_polygon<F: Fn(&str) -> Result<Vec<u8>, Error>>(
    polygon_file_reader: &F,
    archive_store: &mut ArchiveStore,
    problem_xml: &Problem,
) -> (r: Result<(ProblemRevision, Archive), Error>)
    requires
        forall|p: &str| polygon_file_reader.requires((p,)),
        old(archive_store).wf(),
    ensures
        final(archive_store).wf(),
        !revision_ok(*problem_xml) ==> r is Err,
        problem_xml.assets.strategy matches Some(s) && s.source.type_@
            != "sunwalker.strategy.v1"@ ==> r is Err,
        problem_xml.assets.strategy is None && template_choice(*problem_xml) is None ==> r is Err,
        problem_xml.assets.strategy is None && template_choice(*problem_xml) is Some
            && !default_parses(*problem_xml) ==> r is Err,
        test_files_of(*problem_xml) is None ==> r is Err,
        r matches Err(e) ==> e is ConfigurationFailure || reader_failed(*polygon_file_reader, e),
        problem_xml.assets.strategy is None && revision_ok(*problem_xml) && default_parses(
            *problem_xml,
        ) && test_files_of(*problem_xml) == Some(Seq::<(Seq<char>, Seq<char>)>::empty())
            ==> r is Ok,
        r matches Ok((rev, a)) ==> {
            &&& a.wf()
            &&& graph_matches(rev.dependency_graph, problem_xml.judging)
            &&& programs_view(rev.strategy_factory.programs@) == programs_of(*problem_xml)
            &&& forall|k: int|
                0 <= k < test_files_of(*problem_xml).unwrap().len() ==> a.has_path(
                    #[trigger] test_files_of(*problem_xml).unwrap()[k].0,
                )
            &&& forall|i: int|
                0 <= i < a.entries().len() ==> read_entry(
                    *polygon_file_reader,
                    test_files_of(*problem_xml).unwrap(),
                    final(archive_store).contents(),
                    #[trigger] a.entries()[i],
                )
        },
        r matches Ok((rev, a)) ==> (problem_xml.assets.strategy is None ==> strategy_of(
            default_strategy_text(*problem_xml, template_choice(*problem_xml).unwrap()),
        ) == Some(
            (ParsedStrategy {
                files: rev.strategy_factory.files,
                blocks: rev.strategy_factory.blocks,
            }).model(),
        )),
        r matches Ok((rev, a)) ==> (problem_xml.assets.strategy matches Some(st) ==> exists|
            b: Seq<u8>,
        |
            reads(*polygon_file_reader, st.source.path@, b) && valid_utf8(b) && strategy_of(
                decode_utf8(b),
            ) == Some(
                (ParsedStrategy {
                    files: rev.strategy_factory.files,
                    blocks: rev.strategy_factory.blocks,
                }).model(),
            )),
{
    if !text_is(&problem_xml.assets.checker.type_, "testlib") {
        return Err(configuration_failure("only testlib checkers are supported"));
    }
    let parsed = match &problem_xml.assets.strategy {
        Some(s) => {
            if !text_is(&s.source.type_, "sunwalker.strategy.v1") {
                return Err(configuration_failure("unknown strategy type in problem.xml"));
            }
            let path = s.source.path.as_str();
            let res = polygon_file_reader(path);
            let bytes = match res {
                Ok(b) => b,
                Err(e) => {
                    assert(reader_failed(*polygon_file_reader, e));
                    return Err(e);
                },
            };
            let ghost raw = bytes;
            assert(reads(*polygon_file_reader, s.source.path@, raw@));
            let text = match utf8_text(bytes) {
                Some(t) => t,
                None => {
                    return Err(configuration_failure("the strategy file is not valid UTF-8"));
                },
            };
            match parse_sunwalker_strategy(text.as_str()) {
                Ok(p) => {
                    assert(strategy_of(decode_utf8(raw@)) == Some(p.model()));
                    p
                },
                Err(e) => {
                    return Err(e);
                },
            }
        },
        None => match default_strategy(problem_xml) {
            Ok(p) => p,
            Err(e) => {
                return Err(e);
            },
        },
    };
    let ghost pm = parsed.model();
    let rev = match build_revision(problem_xml, parsed) {
        Ok(r) => r,
        Err(e) => {
            return Err(e);
        },
    };
    let mut archive = Archive::new();
    match add_tests_to_archive(polygon_file_reader, archive_store, problem_xml, &mut archive) {
        Ok(()) => {},
        Err(e) => {
            return Err(e);
        },
    }
    Ok((rev, archive))
}

} // verus!
