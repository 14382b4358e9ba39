use vstd::prelude::*;
use crate::errors::{Error, configuration_failure};
use crate::problem::strategy::{
    Binding, BindingModel, Block, BlockModel, FileType, Pattern, PatternModel, Tactic,
    binding_views, block_views, file_views, pattern_opt_view, pattern_views,
};
use crate::problem::token::{
    StandardStream, Token, TokenModel, chunk_at, escape_at, is_blank, is_blank_char, lex,
    quoted_from, run_end, slice_exec, split_chars, string_of, text_is, token_at, token_views, tokens_of,
    unit_at, utf8_of, word_from, lemma_utf8_of,
};
use vstd::utf8::{encode_scalar, encode_utf8};
use crate::problem::strategy::{block_files_known, declares, opt_known, pattern_known};

verus! {

/// A parsed strategy file: its declared files and its blocks.
pub struct ParsedStrategy {
    pub files: Vec<(String, FileType)>,
    pub blocks: Vec<Block>,
}

/// The state of a command line as its tokens are read.
pub struct CmdState {
    pub argv: Seq<PatternModel>,
    pub stdin: Option<PatternModel>,
    pub stdout: Option<PatternModel>,
    pub stderr: Option<PatternModel>,
}

pub open spec fn get_stream(st: CmdState, s: StandardStream) -> Option<PatternModel> {
    match s {
        StandardStream::Stdin => st.stdin,
        StandardStream::Stdout => st.stdout,
        StandardStream::Stderr => st.stderr,
    }
}

pub open spec fn set_stream(st: CmdState, s: StandardStream, p: Option<PatternModel>) -> CmdState {
    match s {
        StandardStream::Stdin => CmdState { stdin: p, ..st },
        StandardStream::Stdout => CmdState { stdout: p, ..st },
        StandardStream::Stderr => CmdState { stderr: p, ..st },
    }
}

/// What a word token stands for as a pattern: text, or a declared file.
pub open spec fn pattern_of(t: TokenModel) -> Option<PatternModel> {
    match t {
        TokenModel::Text(s) => Some(PatternModel::VariableText(s)),
        TokenModel::File(f) => Some(PatternModel::File(f)),
        _ => None,
    }
}

/// A redirection to `/dev/null` is no redirection.
pub open spec fn redirect_target(p: PatternModel) -> Option<PatternModel> {
    if p == PatternModel::VariableText("/dev/null"@) {
        None
    } else {
        Some(p)
    }
}

/// Reads the command-line tokens from `i` on.
pub open spec fn command_from(toks: Seq<TokenModel>, i: int, st: CmdState) -> Option<CmdState>
    decreases toks.len() - i,
{
    if i < 0 || i >= toks.len() {
        Some(st)
    } else {
        match toks[i] {
            TokenModel::Redirect(s) => if i + 1 < toks.len() {
                match pattern_of(toks[i + 1]) {
                    None => None,
                    Some(p) => command_from(toks, i + 2, set_stream(st, s, redirect_target(p))),
                }
            } else {
                None
            },
            TokenModel::RedirectTo(a, b) => command_from(
                toks,
                i + 1,
                set_stream(st, a, get_stream(st, b)),
            ),
            TokenModel::Text(s) => command_from(
                toks,
                i + 1,
                CmdState { argv: st.argv.push(PatternModel::VariableText(s)), ..st },
            ),
            TokenModel::File(s) => command_from(
                toks,
                i + 1,
                CmdState { argv: st.argv.push(PatternModel::File(s)), ..st },
            ),
        }
    }
}

pub open spec fn empty_command() -> CmdState {
    CmdState { argv: seq![], stdin: None, stdout: None, stderr: None }
}

/// What the directive lines of a block have set so far.
pub struct Directives {
    pub tactic: Option<Tactic>,
    pub bindings: Seq<(Seq<char>, BindingModel)>,
}

pub open spec fn has_key(b: Seq<(Seq<char>, BindingModel)>, k: Seq<char>) -> bool {
    exists|i: int| 0 <= i < b.len() && (#[trigger] b[i]).0 == k
}

pub open spec fn tactic_named(s: Seq<char>) -> Option<Tactic> {
    if s == "user"@ {
        Some(Tactic::User)
    } else if s == "testlib"@ {
        Some(Tactic::Testlib)
    } else {
        None
    }
}

/// Applies one directive line (`tactic NAME`, `ro SOURCE as LOCATION`, `rw ...`).
pub open spec fn directive(d: Directives, toks: Seq<TokenModel>) -> Option<Directives> {
    if toks.len() == 0 {
        None
    } else {
        match toks[0] {
            TokenModel::Text(c) => if c == "tactic"@ {
                if toks.len() == 2 && d.tactic is None {
                    match toks[1] {
                        TokenModel::Text(t) => match tactic_named(t) {
                            Some(tac) => Some(Directives { tactic: Some(tac), ..d }),
                            None => None,
                        },
                        _ => None,
                    }
                } else {
                    None
                }
            } else if c == "ro"@ || c == "rw"@ {
                if toks.len() >= 4 && toks[2] == TokenModel::Text("as"@) {
                    match (pattern_of(toks[1]), toks[3]) {
                        (Some(src), TokenModel::Text(loc)) => if loc.len() > 0 && !has_key(
                            d.bindings,
                            loc,
                        ) {
                            Some(
                                Directives {
                                    bindings: d.bindings.push(
                                        (
                                            loc,
                                            BindingModel {
                                                readable: true,
                                                writable: c == "rw"@,
                                                source: src,
                                            },
                                        ),
                                    ),
                                    ..d
                                },
                            )
                        } else {
                            None
                        },
                        _ => None,
                    }
                } else {
                    None
                }
            } else {
                None
            },
            _ => None,
        }
    }
}

/// The directives set by the first `n` lines.
pub open spec fn directives_of(lines: Seq<Seq<char>>, n: int) -> Option<Directives>
    decreases n,
{
    if n <= 0 {
        Some(Directives { tactic: None, bindings: seq![] })
    } else {
        match directives_of(lines, n - 1) {
            None => None,
            Some(d) => match tokens_of(lines[n - 1]) {
                None => None,
                Some(t) => directive(d, t),
            },
        }
    }
}

/// The block named `name` whose body lines (leading blanks removed) are `lines`: directives,
/// then the command line.
pub open spec fn block_of(name: Seq<char>, lines: Seq<Seq<char>>) -> Option<BlockModel> {
    if lines.len() == 0 {
        None
    } else {
        match directives_of(lines, lines.len() - 1) {
            Some(Directives { tactic: Some(tac), bindings }) => match tokens_of(lines.last()) {
                None => None,
                Some(toks) => match command_from(toks, 0, empty_command()) {
                    None => None,
                    Some(st) => if st.argv.len() > 0 {
                        match st.argv[0] {
                            PatternModel::VariableText(cmd) => if cmd.contains('\0') {
                                None
                            } else {
                                Some(
                                    BlockModel {
                                        name,
                                        tactic: tac,
                                        bindings,
                                        command: cmd,
                                        argv: st.argv.drop_first(),
                                        stdin: st.stdin,
                                        stdout: st.stdout,
                                        stderr: st.stderr,
                                    },
                                )
                            },
                            PatternModel::File(_) => None,
                        }
                    } else {
                        None
                    },
                },
            },
            _ => None,
        }
    }
}

proof fn lemma_directives_none(lines: Seq<Seq<char>>, a: int, b: int)
    requires
        0 <= a <= b,
        directives_of(lines, a) is None,
    ensures
        directives_of(lines, b) is None,
    decreases b - a,
{
    if a < b {
        lemma_directives_none(lines, a, b - 1);
    }
}

pub open spec fn line_views(v: Seq<Vec<char>>) -> Seq<Seq<char>> {
    v.map_values(|l: Vec<char>| l@)
}

fn pattern_of_exec(t: &Token) -> (r: Option<Pattern>)
    ensures
        pattern_opt_view(r) == pattern_of(t@),
{
    match t {
        Token::Text(s) => Some(Pattern::VariableText(s.clone())),
        Token::File(s) => Some(Pattern::File(s.clone())),
        _ => None,
    }
}

fn has_key_exec(b: &Vec<(String, Binding)>, k: &String) -> (r: bool)
    ensures
        r == has_key(binding_views(b@), k@),
{
    let mut i: usize = 0;
    while i < b.len()
        invariant
            i <= b@.len(),
            forall|j: int| 0 <= j < i ==> (#[trigger] b@[j]).0@ != k@,
        decreases b@.len() - i,
    {
        if b[i].0 == *k {
            assert(binding_views(b@)[i as int].0 == k@);
            return true;
        }
        i += 1;
    }
    proof {
        if has_key(binding_views(b@), k@) {
            let j = choose|j: int| 0 <= j < b@.len() && (#[trigger] binding_views(b@)[j]).0 == k@;
            assert(b@[j].0@ == k@);
        }
    }
    false
}

fn apply_directive(
    tactic: Option<Tactic>,
    bindings: Vec<(String, Binding)>,
    toks: &Vec<Token>,
) -> (r: Result<(Option<Tactic>, Vec<(String, Binding)>), Error>)
    ensures
        r is Ok <==> directive(
            Directives { tactic, bindings: binding_views(bindings@) },
            token_views(toks@),
        ) is Some,
        r matches Ok((t, b)) ==> directive(
            Directives { tactic, bindings: binding_views(bindings@) },
            token_views(toks@),
        ) == Some(Directives { tactic: t, bindings: binding_views(b@) }),
        r matches Err(e) ==> e is ConfigurationFailure,
{
    let ghost tv = token_views(toks@);
    if toks.len() == 0 {
        return Err(configuration_failure("a block line must start with a directive"));
    }
    let c = match &toks[0] {
        Token::Text(c) => c,
        _ => {
            return Err(
                configuration_failure(
                    "a block line must start with a directive, not a redirect or a file name",
                ),
            );
        },
    };
    assert(tv[0] == TokenModel::Text(c@));
    if text_is(c, "tactic") {
        if toks.len() != 2 {
            return Err(configuration_failure("directive 'tactic' takes exactly one tactic name"));
        }
        if tactic.is_some() {
            return Err(configuration_failure("directive 'tactic' can only appear once per block"));
        }
        let name = match &toks[1] {
            Token::Text(t) => t,
            _ => {
                return Err(configuration_failure("unknown tactic: use 'user' or 'testlib'"));
            },
        };
        assert(tv[1] == TokenModel::Text(name@));
        if text_is(name, "user") {
            return Ok((Some(Tactic::User), bindings));
        } else if text_is(name, "testlib") {
            return Ok((Some(Tactic::Testlib), bindings));
        } else {
            return Err(configuration_failure("unknown tactic: use 'user' or 'testlib'"));
        }
    }
    let is_ro = text_is(c, "ro");
    let is_rw = text_is(c, "rw");
    if !is_ro && !is_rw {
        return Err(
            configuration_failure(
                "unknown directive at block level: use 'tactic', 'ro' or 'rw'",
            ),
        );
    }
    if toks.len() < 4 {
        return Err(configuration_failure("a binding reads 'ro SOURCE as LOCATION'"));
    }
    let as_ok = match &toks[2] {
        Token::Text(a) => text_is(a, "as"),
        _ => false,
    };
    if !as_ok {
        return Err(configuration_failure("a binding reads 'ro SOURCE as LOCATION'"));
    }
    let src = match pattern_of_exec(&toks[1]) {
        Some(p) => p,
        None => {
            return Err(configuration_failure("the source of a binding is a file or text"));
        },
    };
    let loc = match &toks[3] {
        Token::Text(l) => l.clone(),
        _ => {
            return Err(configuration_failure("the location of a binding is plain text"));
        },
    };
    assert(tv[3] == TokenModel::Text(loc@));
    if loc.as_str().is_empty() {
        return Err(configuration_failure("the location of a binding cannot be empty"));
    }
    if has_key_exec(&bindings, &loc) {
        return Err(configuration_failure("a location is bound twice in one block"));
    }
    let ghost old_views = binding_views(bindings@);
    let ghost lv = loc@;
    let binding = Binding { readable: true, writable: is_rw, source: src };
    let mut bindings = bindings;
    bindings.push((loc, binding));
    assert(binding_views(bindings@) =~= old_views.push(
        (lv, BindingModel { readable: true, writable: is_rw, source: binding@.source }),
    ));
    Ok((tactic, bindings))
}

pub open spec fn cmd_view(
    argv: Seq<Pattern>,
    stdin: Option<Pattern>,
    stdout: Option<Pattern>,
    stderr: Option<Pattern>,
) -> CmdState {
    CmdState {
        argv: pattern_views(argv),
        stdin: pattern_opt_view(stdin),
        stdout: pattern_opt_view(stdout),
        stderr: pattern_opt_view(stderr),
    }
}

fn opt_duplicate(p: &Option<Pattern>) -> (r: Option<Pattern>)
    ensures
        pattern_opt_view(r) == pattern_opt_view(*p),
{
    match p {
        Some(x) => Some(x.duplicate()),
        None => None,
    }
}

fn is_dev_null(p: &Pattern) -> (r: bool)
    ensures
        r == (p@ == PatternModel::VariableText("/dev/null"@)),
{
    match p {
        Pattern::VariableText(s) => text_is(s, "/dev/null"),
        Pattern::File(_) => false,
    }
}

/// Whether a string holds a NUL, that is, a variable reference.
fn has_nul(s: &String) -> (r: bool)
    ensures
        r == s@.contains('\0'),
{
    let cs = crate::problem::token::chars_of(s.as_str());
    let mut i: usize = 0;
    while i < cs.len()
        invariant
            i <= cs@.len(),
            cs@ == s@,
            forall|j: int| 0 <= j < i ==> cs@[j] != '\0',
        decreases cs@.len() - i,
    {
        if cs[i] == '\0' {
            return true;
        }
        i += 1;
    }
    false
}

/// Reads a block's command line: redirections, and the words that become argv.
fn parse_command(toks: &Vec<Token>) -> (r: Result<
    (Vec<Pattern>, Option<Pattern>, Option<Pattern>, Option<Pattern>),
    Error,
>)
    ensures
        r is Ok <==> command_from(token_views(toks@), 0, empty_command()) is Some,
        r matches Ok((a, i, o, e)) ==> command_from(token_views(toks@), 0, empty_command())
            == Some(cmd_view(a@, i, o, e)),
        r matches Err(e) ==> e is ConfigurationFailure,
{
    let ghost tv = token_views(toks@);
    let mut argv: Vec<Pattern> = Vec::new();
    let mut stdin: Option<Pattern> = None;
    let mut stdout: Option<Pattern> = None;
    let mut stderr: Option<Pattern> = None;
    let mut i: usize = 0;
    assert(pattern_views(argv@) =~= seq![]);
    while i < toks.len()
        invariant
            i <= toks@.len(),
            tv == token_views(toks@),
            command_from(tv, 0, empty_command()) == command_from(
                tv,
                i as int,
                cmd_view(argv@, stdin, stdout, stderr),
            ),
        decreases toks@.len() - i,
    {
        let ghost before = cmd_view(argv@, stdin, stdout, stderr);
        match &toks[i] {
            Token::Redirect(s) => {
                if i + 1 >= toks.len() {
                    return Err(configuration_failure("a redirect must be followed by a file path"));
                }
                let p = match pattern_of_exec(&toks[i + 1]) {
                    Some(p) => p,
                    None => {
                        return Err(
                            configuration_failure(
                                "a redirect must be followed by a file path, not another redirect",
                            ),
                        );
                    },
                };
                let target = if is_dev_null(&p) {
                    None
                } else {
                    Some(p)
                };
                match s {
                    StandardStream::Stdin => stdin = target,
                    StandardStream::Stdout => stdout = target,
                    StandardStream::Stderr => stderr = target,
                }
                i += 2;
            },
            Token::RedirectTo(a, b) => {
                let src = match b {
                    StandardStream::Stdin => opt_duplicate(&stdin),
                    StandardStream::Stdout => opt_duplicate(&stdout),
                    StandardStream::Stderr => opt_duplicate(&stderr),
                };
                match a {
                    StandardStream::Stdin => stdin = src,
                    StandardStream::Stdout => stdout = src,
                    StandardStream::Stderr => stderr = src,
                }
                i += 1;
            },
            Token::Text(s) => {
                argv.push(Pattern::VariableText(s.clone()));
                assert(pattern_views(argv@) =~= before.argv.push(
                    PatternModel::VariableText(s@),
                ));
                i += 1;
            },
            Token::File(s) => {
                argv.push(Pattern::File(s.clone()));
                assert(pattern_views(argv@) =~= before.argv.push(PatternModel::File(s@)));
                i += 1;
            },
        }
    }
    Ok((argv, stdin, stdout, stderr))
}

/// Parses the body of the block named `name`: its directive lines, then its command line.
fn parse_block(name: String, lines: &Vec<Vec<char>>) -> (r: Result<Block, Error>)
    ensures
        r is Ok <==> block_of(name@, line_views(lines@)) is Some,
        r matches Ok(b) ==> block_of(name@, line_views(lines@)) == Some(b@),
        r matches Err(e) ==> e is ConfigurationFailure,
{
    let ghost lv = line_views(lines@);
    let n = lines.len();
    if n == 0 {
        return Err(configuration_failure("a block needs at least a command line"));
    }
    let mut tactic: Option<Tactic> = None;
    let mut bindings: Vec<(String, Binding)> = Vec::new();
    let mut i: usize = 0;
    assert(binding_views(bindings@) =~= seq![]);
    while i < n - 1
        invariant
            n == lines@.len(),
            n > 0,
            i <= n - 1,
            lv == line_views(lines@),
            directives_of(lv, i as int) == Some(
                Directives { tactic, bindings: binding_views(bindings@) },
            ),
        decreases n - 1 - i,
    {
        assert(lv[i as int] == lines@[i as int]@);
        let toks = match crate::problem::token::split_chars(&lines[i]) {
            Some(t) => t,
            None => {
                proof {
                    lemma_directives_none(lv, i + 1, n - 1);
                }
                return Err(configuration_failure("malformed token in a block line"));
            },
        };
        match apply_directive(tactic, bindings, &toks) {
            Ok((t, b)) => {
                tactic = t;
                bindings = b;
            },
            Err(e) => {
                proof {
                    lemma_directives_none(lv, i + 1, n - 1);
                }
                return Err(e);
            },
        }
        i += 1;
    }
    let tac = match tactic {
        Some(t) => t,
        None => {
            return Err(configuration_failure("directive 'tactic' is missing"));
        },
    };
    let toks = match crate::problem::token::split_chars(&lines[n - 1]) {
        Some(t) => t,
        None => {
            return Err(configuration_failure("malformed token in the command line"));
        },
    };
    assert(lv.last() == lines@[n - 1]@);
    let (argv, stdin, stdout, stderr) = match parse_command(&toks) {
        Ok(c) => c,
        Err(e) => {
            return Err(e);
        },
    };
    if argv.len() == 0 {
        return Err(configuration_failure("the command is missing"));
    }
    let ghost av = pattern_views(argv@);
    let mut argv = argv;
    let first = argv.remove(0);
    assert(pattern_views(argv@) =~= av.drop_first());
    let command = match first {
        Pattern::VariableText(s) => s,
        Pattern::File(_) => {
            return Err(configuration_failure("the command must be a plain name, not a file"));
        },
    };
    if has_nul(&command) {
        return Err(
            configuration_failure("the command must be a plain name, not a variable reference"),
        );
    }
    Ok(Block { name, tactic: tac, bindings, command, argv, stdin, stdout, stderr })
}

/// The position of the first newline at or after `k`, or the end.
pub open spec fn line_end(s: Seq<char>, k: int) -> int
    decreases s.len() - k,
{
    if k < 0 || k >= s.len() || s[k] == '\n' {
        k
    } else {
        line_end(s, k + 1)
    }
}

/// A line without its carriage return, if it ends with one.
pub open spec fn strip_cr(l: Seq<char>) -> Seq<char> {
    if l.len() > 0 && l.last() == '\r' {
        l.drop_last()
    } else {
        l
    }
}

/// The lines of `s` from `k` on, split at newlines; a final newline ends the last line.
pub open spec fn lines_from(s: Seq<char>, k: int) -> Seq<Seq<char>>
    decreases s.len() - k,
{
    if k < 0 || k >= s.len() {
        seq![]
    } else {
        let e = line_end(s, k);
        if k <= e < s.len() {
            seq![strip_cr(s.subrange(k, e))] + lines_from(s, e + 1)
        } else {
            seq![strip_cr(s.subrange(k, s.len() as int))]
        }
    }
}

/// The number of leading blanks of a line.
pub open spec fn blank_prefix(l: Seq<char>, k: int) -> int
    decreases l.len() - k,
{
    if 0 <= k < l.len() && is_blank(l[k]) {
        blank_prefix(l, k + 1)
    } else {
        k
    }
}

pub open spec fn trim_start(l: Seq<char>) -> Seq<char> {
    l.subrange(blank_prefix(l, 0), l.len() as int)
}

/// A strategy file being read: declared files, finished blocks, the open block.
pub struct ReadState {
    pub files: Seq<(Seq<char>, FileType)>,
    pub blocks: Seq<BlockModel>,
    pub current: Option<(Seq<char>, Seq<Seq<char>>)>,
}

/// Declares the file names of `toks` from `i` on, each a `%name` not yet declared.
pub open spec fn add_files(
    files: Seq<(Seq<char>, FileType)>,
    toks: Seq<TokenModel>,
    i: int,
    kind: FileType,
) -> Option<Seq<(Seq<char>, FileType)>>
    decreases toks.len() - i,
{
    if i < 0 || i >= toks.len() {
        Some(files)
    } else {
        match toks[i] {
            TokenModel::File(f) => if declares(files, f) {
                None
            } else {
                add_files(files.push((f, kind)), toks, i + 1, kind)
            },
            _ => None,
        }
    }
}

/// Closes the open block, if any.
pub open spec fn commit(st: ReadState) -> Option<ReadState> {
    match st.current {
        None => Some(st),
        Some((n, ls)) => match block_of(n, ls) {
            None => None,
            Some(b) => Some(ReadState { blocks: st.blocks.push(b), current: None, ..st }),
        },
    }
}

/// Applies a directive of the outer level: `file`, `pipe` or `block`.
pub open spec fn outer_directive(st: ReadState, toks: Seq<TokenModel>) -> Option<ReadState> {
    if toks.len() == 0 {
        None
    } else {
        match toks[0] {
            TokenModel::Text(c) => if c == "file"@ || c == "pipe"@ {
                if st.current is Some || st.blocks.len() > 0 {
                    None
                } else {
                    let kind = if c == "file"@ {
                        FileType::Regular
                    } else {
                        FileType::Pipe
                    };
                    match add_files(st.files, toks, 1, kind) {
                        None => None,
                        Some(f) => Some(ReadState { files: f, ..st }),
                    }
                }
            } else if c == "block"@ {
                match commit(st) {
                    None => None,
                    Some(st2) => if toks.len() == 2 {
                        match toks[1] {
                            TokenModel::Text(name) => if name.len() > 0 {
                                Some(ReadState { current: Some((name, seq![])), ..st2 })
                            } else {
                                None
                            },
                            _ => None,
                        }
                    } else {
                        None
                    },
                }
            } else {
                None
            },
            _ => None,
        }
    }
}

/// Reads one line.
pub open spec fn read_line(st: ReadState, line: Seq<char>) -> Option<ReadState> {
    if line.len() == 0 {
        Some(st)
    } else if is_blank(line[0]) {
        match st.current {
            None => None,
            Some((n, ls)) => Some(ReadState { current: Some((n, ls.push(trim_start(line)))), ..st }),
        }
    } else {
        match tokens_of(line) {
            None => None,
            Some(toks) => outer_directive(st, toks),
        }
    }
}

/// The state after the first `n` lines.
pub open spec fn read_lines(lines: Seq<Seq<char>>, n: int) -> Option<ReadState>
    decreases n,
{
    if n <= 0 {
        Some(ReadState { files: seq![], blocks: seq![], current: None })
    } else {
        match read_lines(lines, n - 1) {
            None => None,
            Some(st) => read_line(st, lines[n - 1]),
        }
    }
}

/// The declared files and the blocks of a strategy file; `None` where it is malformed.
pub open spec fn strategy_of(text: Seq<char>) -> Option<
    (Seq<(Seq<char>, FileType)>, Seq<BlockModel>),
> {
    let lines = lines_from(text, 0);
    match read_lines(lines, lines.len() as int) {
        None => None,
        Some(st) => match commit(st) {
            None => None,
            Some(fin) => Some((fin.files, fin.blocks)),
        },
    }
}

/// A redirection is never the text `/dev/null`: such a redirection is no redirection.
pub open spec fn not_dev_null(p: Option<PatternModel>) -> bool {
    p != Some(PatternModel::VariableText("/dev/null"@))
}

pub open spec fn streams_normalized(stdin: Option<PatternModel>, stdout: Option<PatternModel>, stderr: Option<PatternModel>) -> bool {
    not_dev_null(stdin) && not_dev_null(stdout) && not_dev_null(stderr)
}

pub open spec fn blocks_normalized(bs: Seq<BlockModel>) -> bool {
    forall|i: int| 0 <= i < bs.len() ==> streams_normalized(
        (#[trigger] bs[i]).stdin,
        bs[i].stdout,
        bs[i].stderr,
    )
}

proof fn lemma_command_normalized(toks: Seq<TokenModel>, i: int, st: CmdState)
    requires
        streams_normalized(st.stdin, st.stdout, st.stderr),
        command_from(toks, i, st) is Some,
    ensures
        streams_normalized(
            command_from(toks, i, st).unwrap().stdin,
            command_from(toks, i, st).unwrap().stdout,
            command_from(toks, i, st).unwrap().stderr,
        ),
    decreases toks.len() - i,
{
    if 0 <= i < toks.len() {
        match toks[i] {
            TokenModel::Redirect(s) => {
                let p = pattern_of(toks[i + 1]).unwrap();
                lemma_command_normalized(toks, i + 2, set_stream(st, s, redirect_target(p)));
            },
            TokenModel::RedirectTo(a, b) => {
                lemma_command_normalized(toks, i + 1, set_stream(st, a, get_stream(st, b)));
            },
            TokenModel::Text(x) => {
                lemma_command_normalized(
                    toks,
                    i + 1,
                    CmdState { argv: st.argv.push(PatternModel::VariableText(x)), ..st },
                );
            },
            TokenModel::File(x) => {
                lemma_command_normalized(
                    toks,
                    i + 1,
                    CmdState { argv: st.argv.push(PatternModel::File(x)), ..st },
                );
            },
        }
    }
}

proof fn lemma_commit_normalized(st: ReadState)
    requires
        blocks_normalized(st.blocks),
        commit(st) is Some,
    ensures
        blocks_normalized(commit(st).unwrap().blocks),
{
    if let Some((n, ls)) = st.current {
        let b = block_of(n, ls).unwrap();
        let toks = tokens_of(ls.last()).unwrap();
        lemma_command_normalized(toks, 0, empty_command());
        let bs = st.blocks.push(b);
        assert forall|i: int| 0 <= i < bs.len() implies streams_normalized(
            (#[trigger] bs[i]).stdin,
            bs[i].stdout,
            bs[i].stderr,
        ) by {
            if i < st.blocks.len() {
                assert(bs[i] == st.blocks[i]);
            }
        }
    }
}

proof fn lemma_read_normalized(lines: Seq<Seq<char>>, n: int)
    requires
        read_lines(lines, n) is Some,
    ensures
        blocks_normalized(read_lines(lines, n).unwrap().blocks),
    decreases n,
{
    if n > 0 {
        lemma_read_normalized(lines, n - 1);
        let st = read_lines(lines, n - 1).unwrap();
        let line = lines[n - 1];
        if line.len() > 0 && !is_blank(line[0]) {
            let toks = tokens_of(line).unwrap();
            if toks[0] == TokenModel::Text("block"@) {
                lemma_commit_normalized(st);
            }
        }
    }
}

/// In every strategy that parses, no block's stdin, stdout or stderr is the text
/// `/dev/null`: each is absent, a file, or other text.
pub proof fn lemma_no_dev_null_redirects(text: Seq<char>)
    requires
        strategy_of(text) is Some,
    ensures
        blocks_normalized(strategy_of(text).unwrap().1),
{
    let lines = lines_from(text, 0);
    lemma_read_normalized(lines, lines.len() as int);
    lemma_commit_normalized(read_lines(lines, lines.len() as int).unwrap());
}

impl ParsedStrategy {
    pub open spec fn model(&self) -> (Seq<(Seq<char>, FileType)>, Seq<BlockModel>) {
        (file_views(self.files@), block_views(self.blocks@))
    }
}

impl ParsedStrategy {
    /// Whether every file that a block mentions (argv, redirections, bindings) is declared.
    pub fn files_known(&self) -> (r: bool)
        ensures
            r == forall|i: int|
                0 <= i < self.blocks@.len() ==> block_files_known(
                    file_views(self.files@),
                    #[trigger] self.blocks@[i]@,
                ),
    {
        let ghost fv = file_views(self.files@);
        let mut i: usize = 0;
        while i < self.blocks.len()
            invariant
                i <= self.blocks@.len(),
                fv == file_views(self.files@),
                forall|k: int| 0 <= k < i ==> block_files_known(fv, #[trigger] self.blocks@[k]@),
            decreases self.blocks@.len() - i,
        {
            if !block_known_exec(&self.files, &self.blocks[i]) {
                return false;
            }
            i += 1;
        }
        true
    }
}

fn pattern_known_exec(files: &Vec<(String, FileType)>, p: &Pattern) -> (r: bool)
    ensures
        r == pattern_known(file_views(files@), p@),
{
    match p {
        Pattern::File(n) => declares_exec(files, n),
        Pattern::VariableText(_) => true,
    }
}

fn opt_known_exec(files: &Vec<(String, FileType)>, p: &Option<Pattern>) -> (r: bool)
    ensures
        r == opt_known(file_views(files@), pattern_opt_view(*p)),
{
    match p {
        Some(x) => pattern_known_exec(files, x),
        None => true,
    }
}

fn block_known_exec(files: &Vec<(String, FileType)>, b: &Block) -> (r: bool)
    ensures
        r == block_files_known(file_views(files@), b@),
{
    let ghost fv = file_views(files@);
    let ghost bv = b@;
    let mut i: usize = 0;
    while i < b.argv.len()
        invariant
            i <= b.argv@.len(),
            fv == file_views(files@),
            bv == b@,
            forall|k: int| 0 <= k < i ==> pattern_known(fv, #[trigger] bv.argv[k]),
        decreases b.argv@.len() - i,
    {
        assert(bv.argv[i as int] == b.argv@[i as int]@);
        if !pattern_known_exec(files, &b.argv[i]) {
            return false;
        }
        i += 1;
    }
    let mut j: usize = 0;
    while j < b.bindings.len()
        invariant
            j <= b.bindings@.len(),
            fv == file_views(files@),
            bv == b@,
            forall|k: int| 0 <= k < bv.argv.len() ==> pattern_known(fv, #[trigger] bv.argv[k]),
            forall|k: int| 0 <= k < j ==> pattern_known(fv, (#[trigger] bv.bindings[k]).1.source),
        decreases b.bindings@.len() - j,
    {
        assert(bv.bindings[j as int].1.source == b.bindings@[j as int].1.source@);
        if !pattern_known_exec(files, &b.bindings[j].1.source) {
            return false;
        }
        j += 1;
    }
    opt_known_exec(files, &b.stdin) && opt_known_exec(files, &b.stdout) && opt_known_exec(
        files,
        &b.stderr,
    )
}

fn split_lines(s: &Vec<char>) -> (r: Vec<Vec<char>>)
    ensures
        line_views(r@) == lines_from(s@, 0),
{
    let mut r: Vec<Vec<char>> = Vec::new();
    let mut k: usize = 0;
    let n = s.len();
    assert(line_views(r@) =~= seq![]);
    while k < n
        invariant
            n == s@.len(),
            k <= n,
            lines_from(s@, 0) == line_views(r@) + lines_from(s@, k as int),
        decreases n - k,
    {
        let mut e = k;
        while e < n && s[e] != '\n'
            invariant
                k <= e <= n,
                n == s@.len(),
                line_end(s@, e as int) == line_end(s@, k as int),
            decreases n - e,
        {
            e += 1;
        }
        let mut line = slice_exec(s, k, e);
        let ghost raw = line@;
        if line.len() > 0 && line[line.len() - 1] == '\r' {
            line.pop();
            assert(line@ =~= raw.drop_last());
        }
        let ghost rv = line_views(r@);
        r.push(line);
        assert(line_views(r@) =~= rv.push(strip_cr(s@.subrange(k as int, e as int))));
        if e == n {
            assert(rv + lines_from(s@, k as int) =~= line_views(r@) + lines_from(s@, n as int));
            k = n;
        } else {
            assert(lines_from(s@, k as int) == seq![strip_cr(s@.subrange(k as int, e as int))]
                + lines_from(s@, e + 1));
            assert(rv + lines_from(s@, k as int) =~= line_views(r@) + lines_from(s@, e + 1));
            k = e + 1;
        }
    }
    assert(line_views(r@) + lines_from(s@, k as int) =~= line_views(r@));
    r
}

fn trim_start_exec(l: &Vec<char>) -> (r: Vec<char>)
    ensures
        r@ == trim_start(l@),
{
    let mut k: usize = 0;
    while k < l.len() && is_blank_char(l[k])
        invariant
            k <= l@.len(),
            blank_prefix(l@, k as int) == blank_prefix(l@, 0),
        decreases l@.len() - k,
    {
        k += 1;
    }
    slice_exec(l, k, l.len())
}

fn declares_exec(files: &Vec<(String, FileType)>, name: &String) -> (r: bool)
    ensures
        r == declares(file_views(files@), name@),
{
    let mut i: usize = 0;
    while i < files.len()
        invariant
            i <= files@.len(),
            forall|j: int| 0 <= j < i ==> (#[trigger] files@[j]).0@ != name@,
        decreases files@.len() - i,
    {
        if files[i].0 == *name {
            assert(file_views(files@)[i as int].0 == name@);
            return true;
        }
        i += 1;
    }
    proof {
        if declares(file_views(files@), name@) {
            let j = choose|j: int|
                0 <= j < files@.len() && (#[trigger] file_views(files@)[j]).0 == name@;
            assert(files@[j].0@ == name@);
        }
    }
    false
}

fn add_files_exec(declared: Vec<(String, FileType)>, toks: &Vec<Token>, kind: FileType) -> (r: Result<
    Vec<(String, FileType)>,
    Error,
>)
    ensures
        r is Ok <==> add_files(file_views(declared@), token_views(toks@), 1, kind) is Some,
        r matches Ok(f) ==> add_files(file_views(declared@), token_views(toks@), 1, kind) == Some(
            file_views(f@),
        ),
        r matches Err(e) ==> e is ConfigurationFailure,
{
    let ghost tv = token_views(toks@);
    let ghost f0 = file_views(declared@);
    let mut files = declared;
    let mut i: usize = 1;
    while i < toks.len()
        invariant
            1 <= i,
            tv == token_views(toks@),
            f0 == file_views(declared@),
            add_files(f0, tv, 1, kind) == add_files(file_views(files@), tv, i as int, kind),
        decreases toks@.len() - i,
    {
        assert(tv[i as int] == toks@[i as int]@);
        let name = match &toks[i] {
            Token::File(f) => f,
            _ => {
                return Err(configuration_failure("a file declaration lists names that start with %"));
            },
        };
        assert(tv[i as int] == TokenModel::File(name@));
        if declares_exec(&files, name) {
            return Err(configuration_failure("a file name is declared twice"));
        }
        let ghost fv = file_views(files@);
        files.push((name.clone(), kind));
        assert(file_views(files@) =~= fv.push((name@, kind)));
        i += 1;
    }
    Ok(files)
}

pub open spec fn current_view(c: Option<(String, Vec<Vec<char>>)>) -> Option<
    (Seq<char>, Seq<Seq<char>>),
> {
    match c {
        Some((n, ls)) => Some((n@, line_views(ls@))),
        None => None,
    }
}

pub open spec fn state_view(
    files: Seq<(String, FileType)>,
    blocks: Seq<Block>,
    current: Option<(String, Vec<Vec<char>>)>,
) -> ReadState {
    ReadState {
        files: file_views(files),
        blocks: block_views(blocks),
        current: current_view(current),
    }
}

fn commit_exec(
    files: &Vec<(String, FileType)>,
    blocks: Vec<Block>,
    current: Option<(String, Vec<Vec<char>>)>,
) -> (r: Result<Vec<Block>, Error>)
    ensures
        r is Ok <==> commit(state_view(files@, blocks@, current)) is Some,
        r matches Ok(b) ==> commit(state_view(files@, blocks@, current)) == Some(
            state_view(files@, b@, None),
        ),
        r matches Err(e) ==> e is ConfigurationFailure,
{
    match current {
        None => Ok(blocks),
        Some((name, lines)) => match parse_block(name, &lines) {
            Ok(b) => {
                let ghost bv = block_views(blocks@);
                let mut blocks = blocks;
                blocks.push(b);
                assert(block_views(blocks@) =~= bv.push(b@));
                Ok(blocks)
            },
            Err(e) => Err(e),
        },
    }
}

fn outer_directive_exec(
    files: Vec<(String, FileType)>,
    blocks: Vec<Block>,
    current: Option<(String, Vec<Vec<char>>)>,
    toks: &Vec<Token>,
) -> (r: Result<
    (Vec<(String, FileType)>, Vec<Block>, Option<(String, Vec<Vec<char>>)>),
    Error,
>)
    ensures
        r is Ok <==> outer_directive(state_view(files@, blocks@, current), token_views(toks@)) is Some,
        r matches Ok((f, b, c)) ==> outer_directive(
            state_view(files@, blocks@, current),
            token_views(toks@),
        ) == Some(state_view(f@, b@, c)),
        r matches Err(e) ==> e is ConfigurationFailure,
{
    let ghost tv = token_views(toks@);
    if toks.len() == 0 {
        return Err(configuration_failure("a line outside blocks must start with a directive"));
    }
    assert(tv[0] == toks@[0]@);
    let c = match &toks[0] {
        Token::Text(c) => c,
        _ => {
            return Err(
                configuration_failure(
                    "a line outside blocks must start with a directive, not a redirect or a file",
                ),
            );
        },
    };
    let is_file = text_is(c, "file");
    let is_pipe = text_is(c, "pipe");
    if is_file || is_pipe {
        if current.is_some() || blocks.len() > 0 {
            return Err(configuration_failure("file declarations must come before blocks"));
        }
        let kind = if is_file {
            FileType::Regular
        } else {
            FileType::Pipe
        };
        return match add_files_exec(files, toks, kind) {
            Ok(f) => Ok((f, blocks, current)),
            Err(e) => Err(e),
        };
    }
    if !text_is(c, "block") {
        return Err(
            configuration_failure(
                "unknown directive at the outer level: use 'file', 'pipe' or 'block'",
            ),
        );
    }
    let blocks = match commit_exec(&files, blocks, current) {
        Ok(b) => b,
        Err(e) => {
            return Err(e);
        },
    };
    if toks.len() != 2 {
        return Err(configuration_failure("directive 'block' takes exactly one block name"));
    }
    assert(tv[1] == toks@[1]@);
    let name = match &toks[1] {
        Token::Text(n) => n.clone(),
        _ => {
            return Err(configuration_failure("a block name is plain text"));
        },
    };
    if name.as_str().is_empty() {
        return Err(configuration_failure("a block name cannot be empty"));
    }
    let lines: Vec<Vec<char>> = Vec::new();
    assert(line_views(lines@) =~= seq![]);
    Ok((files, blocks, Some((name, lines))))
}

proof fn lemma_read_none(lines: Seq<Seq<char>>, a: int, b: int)
    requires
        0 <= a <= b,
        read_lines(lines, a) is None,
    ensures
        read_lines(lines, b) is None,
    decreases b - a,
{
    if a < b {
        lemma_read_none(lines, a, b - 1);
    }
}

/// Parses a strategy file: `file`/`pipe` declarations, then blocks, each a `block NAME`
/// line followed by indented directive lines and a command line.
pub fn parse_sunwalker_strategy(file: &str) -> (r: Result<ParsedStrategy, Error>)
    ensures
        r is Ok <==> strategy_of(file@) is Some,
        r matches Ok(p) ==> strategy_of(file@) == Some(p.model()),
        r matches Err(e) ==> e is ConfigurationFailure,
{
    let text = crate::problem::token::chars_of(file);
    let lines = split_lines(&text);
    let ghost lv = line_views(lines@);
    let mut files: Vec<(String, FileType)> = Vec::new();
    let mut blocks: Vec<Block> = Vec::new();
    let mut current: Option<(String, Vec<Vec<char>>)> = None;
    assert(file_views(files@) =~= seq![]);
    assert(block_views(blocks@) =~= seq![]);
    let mut i: usize = 0;
    while i < lines.len()
        invariant
            i <= lines@.len(),
            lv == line_views(lines@),
            lv == lines_from(file@, 0),
            read_lines(lv, i as int) == Some(state_view(files@, blocks@, current)),
        decreases lines@.len() - i,
    {
        let line = &lines[i];
        assert(lv[i as int] == line@);
        if line.len() == 0 {
        } else if is_blank_char(line[0]) {
            match current {
                None => {
                    proof {
                        lemma_read_none(lv, i + 1, lv.len() as int);
                    }
                    return Err(
                        configuration_failure("an indented line must belong to a block"),
                    );
                },
                Some((name, body)) => {
                    let ghost bv = line_views(body@);
                    let mut body = body;
                    let t = trim_start_exec(line);
                    body.push(t);
                    assert(line_views(body@) =~= bv.push(trim_start(line@)));
                    current = Some((name, body));
                },
            }
        } else {
            let toks = match split_chars(line) {
                Some(t) => t,
                None => {
                    proof {
                        lemma_read_none(lv, i + 1, lv.len() as int);
                    }
                    return Err(configuration_failure("malformed token in a line outside blocks"));
                },
            };
            match outer_directive_exec(files, blocks, current, &toks) {
                Ok((f, b, c)) => {
                    files = f;
                    blocks = b;
                    current = c;
                },
                Err(e) => {
                    proof {
                        lemma_read_none(lv, i + 1, lv.len() as int);
                    }
                    return Err(e);
                },
            }
        }
        i += 1;
    }
    match commit_exec(&files, blocks, current) {
        Ok(b) => Ok(ParsedStrategy { files, blocks: b }),
        Err(e) => Err(e),
    }
}

/// How one character is written inside a quoted token.
pub open spec fn escape_char(c: char) -> Seq<char> {
    if c == '"' || c == '\\' {
        seq!['\\', c]
    } else if c == '\n' {
        seq!['\\', 'n']
    } else if c == '\r' {
        seq!['\\', 'r']
    } else {
        seq![c]
    }
}

pub open spec fn escape_all(s: Seq<char>) -> Seq<char>
    decreases s.len(),
{
    if s.len() == 0 {
        seq![]
    } else {
        escape_all(s.drop_last()) + escape_char(s.last())
    }
}

/// `s` as a quoted token of the strategy language.
pub open spec fn encoded(s: Seq<char>) -> Seq<char> {
    seq!['"'] + escape_all(s) + seq!['"']
}

/// Writes a string as a quoted token of the strategy language, escaping quotes,
/// backslashes and line breaks.
pub fn encode_string(s: &str) -> (r: String)
    ensures
        r@ == encoded(s@),
{
    let cs = crate::problem::token::chars_of(s);
    let mut out: Vec<char> = Vec::new();
    out.push('"');
    let mut i: usize = 0;
    while i < cs.len()
        invariant
            i <= cs@.len(),
            cs@ == s@,
            out@ == seq!['"'] + escape_all(cs@.subrange(0, i as int)),
        decreases cs@.len() - i,
    {
        let c = cs[i];
        if c == '"' || c == '\\' {
            out.push('\\');
            out.push(c);
        } else if c == '\n' {
            out.push('\\');
            out.push('n');
        } else if c == '\r' {
            out.push('\\');
            out.push('r');
        } else {
            out.push(c);
        }
        proof {
            let pre = cs@.subrange(0, i + 1);
            assert(pre.drop_last() =~= cs@.subrange(0, i as int));
            assert(out@ =~= seq!['"'] + escape_all(pre));
        }
        i += 1;
    }
    out.push('"');
    assert(cs@.subrange(0, cs@.len() as int) =~= s@);
    assert(out@ =~= encoded(s@));
    string_of(&out)
}

proof fn lemma_escape_front(s: Seq<char>)
    requires
        s.len() > 0,
    ensures
        escape_all(s) == escape_char(s[0]) + escape_all(s.drop_first()),
    decreases s.len(),
{
    if s.len() == 1 {
        assert(s.drop_last() =~= seq![]);
        assert(s.drop_first() =~= seq![]);
        assert(escape_all(s) =~= escape_char(s[0]) + escape_all(s.drop_first()));
    } else {
        let t = s.drop_last();
        lemma_escape_front(t);
        assert(t.drop_first() =~= s.drop_first().drop_last());
        assert(s.drop_first().last() == s.last());
        assert(escape_all(s) =~= escape_char(s[0]) + escape_all(s.drop_first()));
    }
}

proof fn lemma_utf8_of_controls()
    ensures
        utf8_of('\n') == seq![0x0Au8],
        utf8_of('\r') == seq![0x0Du8],
{
    assert(('\n' as u32) == 10u32);
    assert(('\r' as u32) == 13u32);
    assert((10u32 & 0x7Fu32) == 10u32) by (bit_vector);
    assert((13u32 & 0x7Fu32) == 13u32) by (bit_vector);
    lemma_utf8_of('\n');
    lemma_utf8_of('\r');
    assert(utf8_of('\n') =~= seq![0x0Au8]);
    assert(utf8_of('\r') =~= seq![0x0Du8]);
}

proof fn lemma_utf8_front(s: Seq<char>)
    requires
        s.len() > 0,
    ensures
        encode_utf8(s) == utf8_of(s[0]) + encode_utf8(s.drop_first()),
{
    lemma_utf8_of(s[0]);
}

/// Reading a quoted run back: after any prefix, the escaped characters of `s` and a closing
/// quote decode to the UTF-8 bytes of `s`.
#[verifier::rlimit(60)]
proof fn lemma_quoted_round_trip(p: Seq<char>, s: Seq<char>)
    requires
        !s.contains('\0'),
    ensures
        quoted_from(p + escape_all(s) + seq!['"'], p.len() as int) == Some(
            (encode_utf8(s), (p + escape_all(s)).len() as int + 1),
        ),
    decreases s.len(),
{
    let e = p + escape_all(s) + seq!['"'];
    let k = p.len() as int;
    if s.len() == 0 {
        assert(escape_all(s) =~= seq![]);
        assert(e[k] == '"');
        assert(encode_utf8(s) =~= Seq::<u8>::empty());
    } else {
        lemma_escape_front(s);
        lemma_utf8_front(s);
        lemma_utf8_of_controls();
        let c = s[0];
        let rest = s.drop_first();
        assert(!rest.contains('\0')) by {
            if rest.contains('\0') {
                let j = choose|j: int| 0 <= j < rest.len() && rest[j] == '\0';
                assert(s[j + 1] == '\0');
            }
        }
        assert(c != '\0') by {
            assert(s[0] == c);
        }
        let longer = p + escape_char(c);
        lemma_quoted_round_trip(longer, rest);
        assert(e =~= longer + escape_all(rest) + seq!['"']);
        assert((longer + escape_all(rest)).len() == (p + escape_all(s)).len());
        let next = longer.len() as int;
        assert(e[k] == escape_char(c)[0]);
        if c == '"' || c == '\\' || c == '\n' || c == '\r' {
            assert(e[k] == '\\');
            assert(e[k + 1] == escape_char(c)[1]);
            assert(next == k + 2);
            assert(escape_at(e, k + 1) == Some((utf8_of(c), k + 2)));
            assert(unit_at(e, k) == Some((utf8_of(c), k + 2)));
        } else {
            assert(next == k + 1);
            assert(unit_at(e, k) == Some((utf8_of(c), k + 1)));
        }
    }
}

/// Encoding a string without NUL and reading the result back as a token yields exactly one
/// text token holding that same string.
pub proof fn lemma_encode_round_trip(s: Seq<char>)
    requires
        !s.contains('\0'),
    ensures
        tokens_of(encoded(s)) == Some(seq![TokenModel::Text(s)]),
{
    let e = encoded(s);
    lemma_quoted_round_trip(seq!['"'], s);
    vstd::utf8::encode_utf8_valid_utf8(s);
    vstd::utf8::encode_utf8_decode_utf8(s);
    assert(seq!['"'] + escape_all(s) + seq!['"'] =~= e);
    let n = e.len() as int;
    let b = encode_utf8(s);
    assert(quoted_from(e, 1) == Some((b, n)));
    assert(run_end(e, 0, false) == 0);
    assert(chunk_at(e, 0) == Some((b, n)));
    assert(word_from(e, n) == Some((Seq::<u8>::empty(), n)));
    assert(b + Seq::<u8>::empty() =~= b);
    assert(word_from(e, 0) == Some((b, n)));
    assert(token_at(e, 0) == Some((TokenModel::Text(s), n)));
    assert(lex(e, n) == Some(Seq::<TokenModel>::empty()));
    assert(seq![TokenModel::Text(s)] + Seq::<TokenModel>::empty() =~= seq![TokenModel::Text(s)]);
}

} // verus!
