use vstd::prelude::*;
use vstd::utf8::{decode_utf8, encode_scalar, encode_utf8, valid_utf8};
use crate::errors::{Error, configuration_failure};

verus! {

/// One of the three standard streams of a process.
#[derive(Clone, Copy, Debug, PartialEq, Eq, Structural)]
pub enum StandardStream {
    Stdin,
    Stdout,
    Stderr,
}

/// A lexical unit of a strategy line.
pub enum Token {
    /// A plain word after quote removal, escape decoding and variable encoding.
    Text(String),
    /// `%name`: a reference to a declared file.
    File(String),
    /// `<`, `>`, `N<`, `N>`: the next token is the stream's target.
    Redirect(StandardStream),
    /// `N>&M`, `N<&M`: the first stream takes the current target of the second.
    RedirectTo(StandardStream, StandardStream),
}

/// The mathematical value of a token.
pub enum TokenModel {
    Text(Seq<char>),
    File(Seq<char>),
    Redirect(StandardStream),
    RedirectTo(StandardStream, StandardStream),
}

impl View for Token {
    type V = TokenModel;

    open spec fn view(&self) -> TokenModel {
        match self {
            Token::Text(s) => TokenModel::Text(s@),
            Token::File(s) => TokenModel::File(s@),
            Token::Redirect(a) => TokenModel::Redirect(*a),
            Token::RedirectTo(a, b) => TokenModel::RedirectTo(*a, *b),
        }
    }
}

pub open spec fn is_blank(c: char) -> bool {
    c == ' ' || c == '\t' || c == '\n' || c == '\r' || c == '\x0B' || c == '\x0C'
}

pub open spec fn is_digit(c: char) -> bool {
    '0' <= c && c <= '9'
}

pub open spec fn is_octal(c: char) -> bool {
    '0' <= c && c <= '7'
}

pub open spec fn is_word(c: char) -> bool {
    is_digit(c) || ('a' <= c && c <= 'z') || ('A' <= c && c <= 'Z') || c == '_'
}

pub open spec fn is_hex(c: char) -> bool {
    is_digit(c) || ('a' <= c && c <= 'f') || ('A' <= c && c <= 'F')
}

pub open spec fn digit_value(c: char) -> nat {
    if is_digit(c) {
        (c as u32 - '0' as u32) as nat
    } else if 'a' <= c && c <= 'f' {
        (c as u32 - 'a' as u32 + 10) as nat
    } else {
        (c as u32 - 'A' as u32 + 10) as nat
    }
}

/// The number that the digits `s[a..b]` denote in the given base.
pub open spec fn number_value(s: Seq<char>, a: int, b: int, base: nat) -> nat
    decreases b - a,
{
    if b <= a {
        0
    } else {
        number_value(s, a, b - 1, base) * base + digit_value(s[b - 1])
    }
}

pub open spec fn all_hex(s: Seq<char>, a: int, b: int) -> bool {
    forall|k: int| a <= k < b ==> is_hex(#[trigger] s[k])
}

/// A code point that names a character: at most 0x10FFFF and no surrogate.
pub open spec fn valid_code(v: nat) -> bool {
    v <= 0x10FFFF && !(0xD800 <= v && v <= 0xDFFF)
}

/// The code point of a character.
pub open spec fn code_of(c: char) -> nat {
    c as u32 as nat
}

/// The character whose code point is `v`.
pub open spec fn code_char(v: nat) -> char {
    choose|c: char| #[trigger] code_of(c) == v
}

/// The end of the run of characters satisfying `word` (or, if `!word`, digits) from `k`.
pub open spec fn run_end(s: Seq<char>, k: int, word: bool) -> int
    decreases s.len() - k,
{
    if 0 <= k < s.len() && (if word { is_word(s[k]) } else { is_digit(s[k]) }) {
        run_end(s, k + 1, word)
    } else {
        k
    }
}

/// The UTF-8 bytes of a character.
pub open spec fn utf8_of(c: char) -> Seq<u8> {
    encode_utf8(seq![c])
}

/// The bytes of one character are its scalar's encoding.
pub proof fn lemma_utf8_of(c: char)
    ensures
        utf8_of(c) == encode_scalar(c as u32),
{
    let t = seq![c];
    assert(t[0] == c);
    assert(t.drop_first() =~= Seq::<char>::empty());
    reveal_with_fuel(encode_utf8, 2);
    assert(encode_utf8(t) =~= encode_scalar(c as u32) + encode_utf8(t.drop_first()));
    assert(encode_utf8(t.drop_first()) =~= Seq::<u8>::empty());
    assert(utf8_of(c) =~= encode_scalar(c as u32));
}

/// The bytes of the character with code point `v`; NUL and non-characters are refused.
pub open spec fn char_bytes(v: nat, end: int) -> Option<(Seq<u8>, int)> {
    if valid_code(v) && v != 0 {
        Some((utf8_of(code_char(v)), end))
    } else {
        None
    }
}

/// One byte given by its value; NUL is refused.
pub open spec fn byte_of(v: nat, end: int) -> Option<(Seq<u8>, int)> {
    if 0 < v < 256 {
        Some((seq![v as u8], end))
    } else {
        None
    }
}

/// Decodes the escape whose letter stands at `k` (just after the backslash) into bytes:
/// `\ooo` and `\xHH` give one byte, `\uHHHH` and `\UHHHHHHHH` a character.
pub open spec fn escape_at(s: Seq<char>, k: int) -> Option<(Seq<u8>, int)> {
    let c = s[k];
    if '0' <= c && c <= '3' && k + 2 < s.len() && is_octal(s[k + 1]) && is_octal(s[k + 2]) {
        byte_of(number_value(s, k, k + 3, 8), k + 3)
    } else if c == 'a' {
        Some((seq![0x07u8], k + 1))
    } else if c == 'b' {
        Some((seq![0x08u8], k + 1))
    } else if c == 'e' {
        Some((seq![0x1Bu8], k + 1))
    } else if c == 'f' {
        Some((seq![0x0Cu8], k + 1))
    } else if c == 'n' {
        Some((seq![0x0Au8], k + 1))
    } else if c == 'r' {
        Some((seq![0x0Du8], k + 1))
    } else if c == 't' {
        Some((seq![0x09u8], k + 1))
    } else if c == 'v' {
        Some((seq![0x0Bu8], k + 1))
    } else if c == 'x' && k + 2 < s.len() && all_hex(s, k + 1, k + 3) {
        byte_of(number_value(s, k + 1, k + 3, 16), k + 3)
    } else if c == 'u' && k + 4 < s.len() && all_hex(s, k + 1, k + 5) {
        char_bytes(number_value(s, k + 1, k + 5, 16), k + 5)
    } else if c == 'U' && k + 8 < s.len() && all_hex(s, k + 1, k + 9) {
        char_bytes(number_value(s, k + 1, k + 9, 16), k + 9)
    } else if c == '\0' {
        None
    } else {
        Some((utf8_of(c), k + 1))
    }
}

/// The bytes of one unit of text at `k`: an escape or a plain character, never NUL.
pub open spec fn unit_at(s: Seq<char>, k: int) -> Option<(Seq<u8>, int)> {
    if s[k] == '\\' && k + 1 < s.len() {
        escape_at(s, k + 1)
    } else if s[k] == '\0' {
        None
    } else {
        Some((utf8_of(s[k]), k + 1))
    }
}

/// The decoded bytes of a quoted run whose body starts at `k`, and the position after the
/// closing quote.
pub open spec fn quoted_from(s: Seq<char>, k: int) -> Option<(Seq<u8>, int)>
    decreases s.len() - k,
{
    if k < 0 || k >= s.len() {
        None
    } else if s[k] == '"' {
        Some((seq![], k + 1))
    } else {
        match unit_at(s, k) {
            None => None,
            Some((b, e)) => if e > k {
                match quoted_from(s, e) {
                    None => None,
                    Some((t, e2)) => Some((b + t, e2)),
                }
            } else {
                None
            },
        }
    }
}

/// A variable reference `$name` or `${name}` at `k`: its name and end.
pub open spec fn var_at(s: Seq<char>, k: int) -> Option<(Seq<char>, int)> {
    if k + 1 < s.len() && is_word(s[k + 1]) {
        let w = run_end(s, k + 1, true);
        Some((s.subrange(k + 1, w), w))
    } else if k + 2 < s.len() && s[k + 1] == '{' && is_word(s[k + 2]) && run_end(s, k + 2, true)
        < s.len() && s[run_end(s, k + 2, true)] == '}' {
        let w = run_end(s, k + 2, true);
        Some((s.subrange(k + 2, w), w + 1))
    } else {
        None
    }
}

/// A variable reference as it is carried in text: its name between two NULs.
pub open spec fn var_text(name: Seq<char>) -> Seq<u8> {
    seq![0u8] + encode_utf8(name) + seq![0u8]
}

/// The bytes of one piece of a word at `k`: a quoted run, a variable reference or one unit.
pub open spec fn chunk_at(s: Seq<char>, k: int) -> Option<(Seq<u8>, int)> {
    if s[k] == '"' {
        quoted_from(s, k + 1)
    } else if s[k] == '$' && var_at(s, k) is Some {
        let (n, e) = var_at(s, k).unwrap();
        Some((var_text(n), e))
    } else {
        unit_at(s, k)
    }
}

/// The decoded bytes of the word that starts at `k`, up to the next blank, and its end.
pub open spec fn word_from(s: Seq<char>, k: int) -> Option<(Seq<u8>, int)>
    decreases s.len() - k,
{
    if k < 0 || k >= s.len() || is_blank(s[k]) {
        Some((seq![], k))
    } else {
        match chunk_at(s, k) {
            None => None,
            Some((t, e)) => if k < e <= s.len() {
                match word_from(s, e) {
                    None => None,
                    Some((r, e2)) => Some((t + r, e2)),
                }
            } else {
                None
            },
        }
    }
}

/// The stream that descriptor `fd` names in an input (`<`) or output (`>`) redirect.
pub open spec fn stream_of(is_output: bool, fd: nat) -> Option<StandardStream> {
    if !is_output && fd == 0 {
        Some(StandardStream::Stdin)
    } else if is_output && fd == 1 {
        Some(StandardStream::Stdout)
    } else if is_output && fd == 2 {
        Some(StandardStream::Stderr)
    } else {
        None
    }
}

/// The token that starts at `k` (not a blank), and its end.
pub open spec fn token_at(s: Seq<char>, k: int) -> Option<(TokenModel, int)> {
    let d = run_end(s, k, false);
    if d < s.len() && (s[d] == '<' || s[d] == '>') {
        let out = s[d] == '>';
        let fd = if d == k {
            if out {
                1nat
            } else {
                0nat
            }
        } else {
            number_value(s, k, d, 10)
        };
        match stream_of(out, fd) {
            None => None,
            Some(from) => if d + 2 < s.len() && s[d + 1] == '&' && is_digit(s[d + 2]) {
                let t = run_end(s, d + 2, false);
                match stream_of(out, number_value(s, d + 2, t, 10)) {
                    None => None,
                    Some(to) => Some((TokenModel::RedirectTo(from, to), t)),
                }
            } else {
                Some((TokenModel::Redirect(from), d + 1))
            },
        }
    } else if s[k] == '%' && k + 1 < s.len() && is_word(s[k + 1]) {
        let w = run_end(s, k + 1, true);
        Some((TokenModel::File(s.subrange(k + 1, w)), w))
    } else {
        match word_from(s, k) {
            None => None,
            Some((t, e)) => if valid_utf8(t) {
                Some((TokenModel::Text(decode_utf8(t)), e))
            } else {
                None
            },
        }
    }
}

/// The tokens of `s` from position `k` on; `None` where the text is malformed.
pub open spec fn lex(s: Seq<char>, k: int) -> Option<Seq<TokenModel>>
    decreases s.len() - k,
{
    if k < 0 || k >= s.len() {
        Some(seq![])
    } else if is_blank(s[k]) {
        lex(s, k + 1)
    } else {
        match token_at(s, k) {
            None => None,
            Some((t, e)) => if k < e <= s.len() {
                match lex(s, e) {
                    None => None,
                    Some(r) => Some(seq![t] + r),
                }
            } else {
                None
            },
        }
    }
}

/// The tokens of a line.
pub open spec fn tokens_of(s: Seq<char>) -> Option<Seq<TokenModel>> {
    lex(s, 0)
}

/// The views of a sequence of tokens.
pub open spec fn token_views(v: Seq<Token>) -> Seq<TokenModel> {
    v.map_values(|t: Token| t@)
}

pub open spec fn in_class(c: char, word: bool) -> bool {
    if word {
        is_word(c)
    } else {
        is_digit(c)
    }
}

pub open spec fn pow16(n: nat) -> nat
    decreases n,
{
    if n == 0 {
        1
    } else {
        16 * pow16((n - 1) as nat)
    }
}

proof fn lemma_pow16_mono(a: nat, b: nat)
    requires
        a <= b,
    ensures
        pow16(a) <= pow16(b),
    decreases b - a,
{
    if a < b {
        lemma_pow16_mono(a, (b - 1) as nat);
    }
}

proof fn lemma_run_end(s: Seq<char>, k: int, word: bool)
    requires
        0 <= k <= s.len(),
    ensures
        k <= run_end(s, k, word) <= s.len(),
        forall|j: int| k <= j < run_end(s, k, word) ==> in_class(#[trigger] s[j], word),
        run_end(s, k, word) < s.len() ==> !in_class(s[run_end(s, k, word)], word),
    decreases s.len() - k,
{
    if k < s.len() && in_class(s[k], word) {
        lemma_run_end(s, k + 1, word);
    }
}

pub(crate) fn is_blank_char(c: char) -> (r: bool)
    ensures
        r == is_blank(c),
{
    c == ' ' || c == '\t' || c == '\n' || c == '\r' || c == '\x0B' || c == '\x0C'
}

pub(crate) fn is_digit_char(c: char) -> (r: bool)
    ensures
        r == is_digit(c),
{
    '0' <= c && c <= '9'
}

fn is_word_char(c: char) -> (r: bool)
    ensures
        r == is_word(c),
{
    is_digit_char(c) || ('a' <= c && c <= 'z') || ('A' <= c && c <= 'Z') || c == '_'
}

fn is_hex_char(c: char) -> (r: bool)
    ensures
        r == is_hex(c),
{
    is_digit_char(c) || ('a' <= c && c <= 'f') || ('A' <= c && c <= 'F')
}

fn in_class_char(c: char, word: bool) -> (r: bool)
    ensures
        r == in_class(c, word),
{
    if word {
        is_word_char(c)
    } else {
        is_digit_char(c)
    }
}

pub(crate) fn digit_val(c: char) -> (r: u64)
    requires
        is_hex(c),
    ensures
        r as nat == digit_value(c),
        r < 16,
{
    if is_digit_char(c) {
        (c as u32 - '0' as u32) as u64
    } else if 'a' <= c && c <= 'f' {
        (c as u32 - 'a' as u32 + 10) as u64
    } else {
        (c as u32 - 'A' as u32 + 10) as u64
    }
}

fn run_end_exec(s: &Vec<char>, k: usize, word: bool) -> (r: usize)
    requires
        k <= s@.len(),
    ensures
        r as int == run_end(s@, k as int, word),
        k <= r <= s@.len(),
{
    let mut i = k;
    while i < s.len() && in_class_char(s[i], word)
        invariant
            k <= i <= s@.len(),
            run_end(s@, i as int, word) == run_end(s@, k as int, word),
        decreases s@.len() - i,
    {
        i += 1;
    }
    i
}

/// The value of at most eight digits in base 8, 10 or 16.
fn number_exec(s: &Vec<char>, a: usize, b: usize, base: u64) -> (r: u64)
    requires
        a <= b <= s@.len(),
        b - a <= 8,
        2 <= base <= 16,
        forall|j: int| a <= j < b ==> is_hex(#[trigger] s@[j]) && digit_value(s@[j]) < base,
    ensures
        r as nat == number_value(s@, a as int, b as int, base as nat),
        r < 0x1_0000_0000,
{
    let mut v: u64 = 0;
    let mut i = a;
    while i < b
        invariant
            a <= i <= b,
            b <= s@.len(),
            b - a <= 8,
            2 <= base <= 16,
            forall|j: int| a <= j < b ==> is_hex(#[trigger] s@[j]) && digit_value(s@[j]) < base,
            v as nat == number_value(s@, a as int, i as int, base as nat),
            v < pow16((i - a) as nat),
        decreases b - i,
    {
        let d = digit_val(s[i]);
        let ghost p = pow16((i - a) as nat);
        proof {
            lemma_pow16_mono((i + 1 - a) as nat, 8);
            reveal_with_fuel(pow16, 9);
            assert(v * base + d < p * 16) by (nonlinear_arith)
                requires
                    v < p,
                    d < base,
                    base <= 16,
            ;
        }
        v = v * base + d;
        i += 1;
    }
    proof {
        lemma_pow16_mono((b - a) as nat, 8);
        reveal_with_fuel(pow16, 9);
    }
    v
}

/// The value of a run of decimal digits, capped at 3 (no stream has a larger number).
fn fd_exec(s: &Vec<char>, a: usize, b: usize) -> (r: u64)
    requires
        a <= b <= s@.len(),
        forall|j: int| a <= j < b ==> is_digit(#[trigger] s@[j]),
    ensures
        r as nat == if number_value(s@, a as int, b as int, 10) >= 3 {
            3
        } else {
            number_value(s@, a as int, b as int, 10)
        },
{
    let mut v: u64 = 0;
    let mut i = a;
    while i < b
        invariant
            a <= i <= b,
            b <= s@.len(),
            forall|j: int| a <= j < b ==> is_digit(#[trigger] s@[j]),
            v as nat == if number_value(s@, a as int, i as int, 10) >= 3 {
                3
            } else {
                number_value(s@, a as int, i as int, 10)
            },
        decreases b - i,
    {
        let d = digit_val(s[i]);
        if v < 3 {
            v = v * 10 + d;
            if v > 3 {
                v = 3;
            }
        }
        i += 1;
    }
    v
}

/// Relies on `char::from_u32`: the character with the given code point, where there is one.
#[verifier::external_body]
fn char_from_code(v: u32) -> (r: Option<char>)
    ensures
        valid_code(v as nat) ==> r == Some(code_char(v as nat)),
        !valid_code(v as nat) ==> r is None,
{
    char::from_u32(v)
}

pub open spec fn bytes_result(r: Option<(Vec<u8>, usize)>, x: Option<(Seq<u8>, int)>) -> bool {
    match r {
        Some((t, e)) => x == Some((t@, e as int)),
        None => x is None,
    }
}

/// Relies on `String::from(char)`: the UTF-8 bytes of one character.
#[verifier::external_body]
fn utf8_of_char(c: char) -> (r: Vec<u8>)
    ensures
        r@ == utf8_of(c),
{
    String::from(c).into_bytes()
}

/// Relies on `String::from_utf8`: the text that valid UTF-8 bytes encode; nothing otherwise.
#[verifier::external_body]
pub(crate) fn utf8_text(bytes: Vec<u8>) -> (r: Option<String>)
    ensures
        r is Some <==> valid_utf8(bytes@),
        r matches Some(s) ==> s@ == decode_utf8(bytes@),
{
    String::from_utf8(bytes).ok()
}

fn one_byte(v: u64, end: usize) -> (r: Option<(Vec<u8>, usize)>)
    ensures
        bytes_result(r, byte_of(v as nat, end as int)),
{
    if 0 < v && v < 256 {
        let mut b = Vec::new();
        b.push(v as u8);
        assert(b@ =~= seq![v as u8]);
        Some((b, end))
    } else {
        None
    }
}

fn char_bytes_exec(v: u64, end: usize) -> (r: Option<(Vec<u8>, usize)>)
    requires
        v < 0x1_0000_0000,
    ensures
        bytes_result(r, char_bytes(v as nat, end as int)),
{
    if v == 0 {
        return None;
    }
    match char_from_code(v as u32) {
        Some(ch) => Some((utf8_of_char(ch), end)),
        None => None,
    }
}

fn escape_exec(s: &Vec<char>, k: usize) -> (r: Option<(Vec<u8>, usize)>)
    requires
        k < s@.len(),
    ensures
        bytes_result(r, escape_at(s@, k as int)),
        r matches Some((c, e)) ==> k < e <= s@.len(),
{
    let c = s[k];
    let n = s.len();
    let simple: u8 = if c == 'a' {
        0x07
    } else if c == 'b' {
        0x08
    } else if c == 'e' {
        0x1B
    } else if c == 'f' {
        0x0C
    } else if c == 'n' {
        0x0A
    } else if c == 'r' {
        0x0D
    } else if c == 't' {
        0x09
    } else if c == 'v' {
        0x0B
    } else {
        0
    };
    let octal = '0' <= c && c <= '3' && n - k > 2 && '0' <= s[k + 1] && s[k + 1] <= '7' && '0'
        <= s[k + 2] && s[k + 2] <= '7';
    if !octal && simple != 0 {
        let mut b = Vec::new();
        b.push(simple);
        assert(b@ =~= seq![simple]);
        return Some((b, k + 1));
    }
    let (digits, base): (usize, u64) = if octal {
        (3, 8)
    } else if c == 'x' && n - k > 2 && all_hex_exec(s, k + 1, k + 3) {
        (2, 16)
    } else if c == 'u' && n - k > 4 && all_hex_exec(s, k + 1, k + 5) {
        (4, 16)
    } else if c == 'U' && n - k > 8 && all_hex_exec(s, k + 1, k + 9) {
        (8, 16)
    } else if c == '\0' {
        return None;
    } else {
        return Some((utf8_of_char(c), k + 1));
    };
    let start = if base == 8 {
        k
    } else {
        k + 1
    };
    proof {
        if base == 8 {
            assert forall|j: int| start <= j < start + digits implies is_hex(#[trigger] s@[j])
                && digit_value(s@[j]) < base by {
                assert(is_octal(s@[j]));
            }
        }
    }
    let v = number_exec(s, start, start + digits, base);
    if digits <= 3 {
        one_byte(v, start + digits)
    } else {
        char_bytes_exec(v, start + digits)
    }
}

fn all_hex_exec(s: &Vec<char>, a: usize, b: usize) -> (r: bool)
    requires
        a <= b <= s@.len(),
    ensures
        r == all_hex(s@, a as int, b as int),
{
    let mut i = a;
    while i < b
        invariant
            a <= i <= b <= s@.len(),
            forall|j: int| a <= j < i ==> is_hex(#[trigger] s@[j]),
        decreases b - i,
    {
        if !is_hex_char(s[i]) {
            return false;
        }
        i += 1;
    }
    true
}

fn unit_exec(s: &Vec<char>, k: usize) -> (r: Option<(Vec<u8>, usize)>)
    requires
        k < s@.len(),
    ensures
        bytes_result(r, unit_at(s@, k as int)),
        r matches Some((c, e)) ==> k < e <= s@.len(),
{
    let n = s.len();
    if s[k] == '\\' && n - k > 1 {
        escape_exec(s, k + 1)
    } else if s[k] == '\0' {
        None
    } else {
        Some((utf8_of_char(s[k]), k + 1))
    }
}

pub open spec fn text_result(r: Option<(Vec<char>, usize)>, x: Option<(Seq<char>, int)>) -> bool {
    match r {
        Some((t, e)) => x == Some((t@, e as int)),
        None => x is None,
    }
}

/// `a` followed by `b`.
fn concat_bytes(a: Vec<u8>, b: Vec<u8>) -> (r: Vec<u8>)
    ensures
        r@ == a@ + b@,
{
    let mut a = a;
    let mut b = b;
    a.append(&mut b);
    a
}

fn quoted_exec(s: &Vec<char>, k: usize) -> (r: Option<(Vec<u8>, usize)>)
    requires
        k <= s@.len(),
    ensures
        bytes_result(r, quoted_from(s@, k as int)),
        r matches Some((t, e)) ==> k < e <= s@.len(),
    decreases s@.len() - k,
{
    if k >= s.len() {
        return None;
    }
    if s[k] == '"' {
        return Some((Vec::new(), k + 1));
    }
    match unit_exec(s, k) {
        None => None,
        Some((c, e)) => match quoted_exec(s, e) {
            None => None,
            Some((t, e2)) => Some((concat_bytes(c, t), e2)),
        },
    }
}

/// The UTF-8 encoding of `v[i..]`.
fn encode_from(v: &Vec<char>, i: usize) -> (r: Vec<u8>)
    requires
        i <= v@.len(),
    ensures
        r@ == encode_utf8(v@.subrange(i as int, v@.len() as int)),
    decreases v@.len() - i,
{
    if i >= v.len() {
        assert(v@.subrange(i as int, v@.len() as int) =~= Seq::<char>::empty());
        return Vec::new();
    }
    let first = utf8_of_char(v[i]);
    let rest = encode_from(v, i + 1);
    proof {
        let t = v@.subrange(i as int, v@.len() as int);
        assert(t.drop_first() =~= v@.subrange(i + 1, v@.len() as int));
        lemma_utf8_of(v@[i as int]);
    }
    concat_bytes(first, rest)
}

/// The characters `s[a..b]`.
pub(crate) fn slice_exec(s: &Vec<char>, a: usize, b: usize) -> (r: Vec<char>)
    requires
        a <= b <= s@.len(),
    ensures
        r@ == s@.subrange(a as int, b as int),
{
    let mut r = Vec::new();
    let mut i = a;
    while i < b
        invariant
            a <= i <= b <= s@.len(),
            r@ == s@.subrange(a as int, i as int),
        decreases b - i,
    {
        r.push(s[i]);
        assert(r@ =~= s@.subrange(a as int, i + 1));
        i += 1;
    }
    r
}

fn var_exec(s: &Vec<char>, k: usize) -> (r: Option<(Vec<char>, usize)>)
    requires
        k < s@.len(),
    ensures
        text_result(r, var_at(s@, k as int)),
        r matches Some((t, e)) ==> k < e <= s@.len(),
{
    let n = s.len();
    if n - k > 1 && is_word_char(s[k + 1]) {
        let w = run_end_exec(s, k + 1, true);
        return Some((slice_exec(s, k + 1, w), w));
    }
    if n - k > 2 && s[k + 1] == '{' && is_word_char(s[k + 2]) {
        let w = run_end_exec(s, k + 2, true);
        if w < n && s[w] == '}' {
            return Some((slice_exec(s, k + 2, w), w + 1));
        }
    }
    None
}

fn chunk_exec(s: &Vec<char>, k: usize) -> (r: Option<(Vec<u8>, usize)>)
    requires
        k < s@.len(),
    ensures
        bytes_result(r, chunk_at(s@, k as int)),
        r matches Some((t, e)) ==> k < e <= s@.len(),
{
    let n = s.len();
    if s[k] == '"' {
        return quoted_exec(s, k + 1);
    }
    if s[k] == '$' {
        if let Some((name, e)) = var_exec(s, k) {
            let mut t: Vec<u8> = Vec::new();
            t.push(0);
            let mut enc = encode_from(&name, 0);
            assert(name@.subrange(0, name@.len() as int) =~= name@);
            let ghost ev = enc@;
            t.append(&mut enc);
            t.push(0);
            assert(t@ =~= var_text(name@));
            return Some((t, e));
        }
    }
    unit_exec(s, k)
}

fn word_exec(s: &Vec<char>, k: usize) -> (r: Option<(Vec<u8>, usize)>)
    requires
        k <= s@.len(),
    ensures
        bytes_result(r, word_from(s@, k as int)),
        r matches Some((t, e)) ==> k <= e <= s@.len(),
        r matches Some((t, e)) ==> (k < s@.len() && !is_blank(s@[k as int]) ==> k < e),
    decreases s@.len() - k,
{
    if k >= s.len() || is_blank_char(s[k]) {
        return Some((Vec::new(), k));
    }
    match chunk_exec(s, k) {
        None => None,
        Some((t, e)) => match word_exec(s, e) {
            None => None,
            Some((rest, e2)) => Some((concat_bytes(t, rest), e2)),
        },
    }
}

/// Relies on `String`'s `FromIterator<char>`: the string of the given characters.
#[verifier::external_body]
pub(crate) fn string_of(v: &Vec<char>) -> (r: String)
    ensures
        r@ == v@,
{
    v.iter().collect()
}

/// The characters of a string, in order.
pub fn chars_of(s: &str) -> (r: Vec<char>)
    ensures
        r@ == s@,
{
    broadcast use vstd::string::group_string_axioms;

    let mut r: Vec<char> = Vec::new();
    for c in it: s.chars()
        invariant
            it.seq() == s@,
            r@ == it.seq().take(it.index() as int),
    {
        r.push(c);
        assert(r@ =~= it.seq().take(it.index() + 1));
    }
    assert(r@ =~= s@);
    r
}

fn stream_exec(is_output: bool, fd: u64) -> (r: Option<StandardStream>)
    ensures
        r == stream_of(is_output, fd as nat),
{
    if !is_output && fd == 0 {
        Some(StandardStream::Stdin)
    } else if is_output && fd == 1 {
        Some(StandardStream::Stdout)
    } else if is_output && fd == 2 {
        Some(StandardStream::Stderr)
    } else {
        None
    }
}

fn token_exec(s: &Vec<char>, k: usize) -> (r: Option<(Token, usize)>)
    requires
        k < s@.len(),
        !is_blank(s@[k as int]),
    ensures
        match r {
            Some((t, e)) => token_at(s@, k as int) == Some((t@, e as int)),
            None => token_at(s@, k as int) is None,
        },
        r matches Some((t, e)) ==> k < e <= s@.len(),
{
    let n = s.len();
    let d = run_end_exec(s, k, false);
    proof {
        lemma_run_end(s@, k as int, false);
    }
    if d < n && (s[d] == '<' || s[d] == '>') {
        let out = s[d] == '>';
        let fd = if d == k {
            if out {
                1
            } else {
                0
            }
        } else {
            fd_exec(s, k, d)
        };
        let from = match stream_exec(out, fd) {
            None => return None,
            Some(st) => st,
        };
        if n - d > 2 && s[d + 1] == '&' && is_digit_char(s[d + 2]) {
            let t = run_end_exec(s, d + 2, false);
            proof {
                lemma_run_end(s@, d + 2, false);
            }
            let to_fd = fd_exec(s, d + 2, t);
            return match stream_exec(out, to_fd) {
                None => None,
                Some(to) => Some((Token::RedirectTo(from, to), t)),
            };
        }
        return Some((Token::Redirect(from), d + 1));
    }
    if s[k] == '%' && n - k > 1 && is_word_char(s[k + 1]) {
        let w = run_end_exec(s, k + 1, true);
        proof {
            lemma_run_end(s@, k + 1, true);
        }
        let name = slice_exec(s, k + 1, w);
        return Some((Token::File(string_of(&name)), w));
    }
    match word_exec(s, k) {
        None => None,
        Some((t, e)) => {
            proof {
                reveal_with_fuel(word_from, 2);
            }
            match utf8_text(t) {
                Some(text) => Some((Token::Text(text), e)),
                None => None,
            }
        },
    }
}

fn lex_exec(s: &Vec<char>, k: usize) -> (r: Option<Vec<Token>>)
    requires
        k <= s@.len(),
    ensures
        match r {
            Some(v) => lex(s@, k as int) == Some(token_views(v@)),
            None => lex(s@, k as int) is None,
        },
    decreases s@.len() - k,
{
    if k >= s.len() {
        let v = Vec::new();
        assert(token_views(v@) =~= seq![]);
        return Some(v);
    }
    if is_blank_char(s[k]) {
        return lex_exec(s, k + 1);
    }
    match token_exec(s, k) {
        None => None,
        Some((t, e)) => match lex_exec(s, e) {
            None => None,
            Some(rest) => {
                let ghost tv = t@;
                let mut v = Vec::new();
                v.push(t);
                let mut rest = rest;
                let ghost rv = token_views(rest@);
                v.append(&mut rest);
                assert(token_views(v@) =~= seq![tv] + rv);
                Some(v)
            },
        },
    }
}

/// `s` holds exactly the characters of `lit`.
pub fn text_is(s: &String, lit: &str) -> (r: bool)
    ensures
        r == (s@ == lit@),
{
    let l = lit.to_string();
    *s == l
}

/// Splits a line, given as characters, into tokens; `None` where it is malformed.
pub fn split_chars(s: &Vec<char>) -> (r: Option<Vec<Token>>)
    ensures
        r is Some <==> tokens_of(s@) is Some,
        r matches Some(v) ==> tokens_of(s@) == Some(token_views(v@)),
{
    lex_exec(s, 0)
}

/// Splits one line of the strategy language into tokens.
pub fn split_tokens(line: &str) -> (r: Result<Vec<Token>, Error>)
    ensures
        r is Ok <==> tokens_of(line@) is Some,
        r matches Ok(v) ==> tokens_of(line@) == Some(token_views(v@)),
        r matches Err(e) ==> e is ConfigurationFailure,
{
    let s = chars_of(line);
    match lex_exec(&s, 0) {
        Some(v) => Ok(v),
        None => Err(configuration_failure("malformed token: bad escape, unterminated quote or unsupported redirect")),
    }
}

} // verus!
