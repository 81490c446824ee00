//! The byte-level lexer.

use vstd::prelude::*;

verus! {

use vstd::string::StringSliceAdditionalSpecFns;
use vstd::slice::slice_subrange;
use vstd::slice::slice_to_vec;
use crate::tokens::Token;
use crate::tokens::TokenWrapper;
use crate::tokens::SpecToken;
use crate::tokens::SpecTokenWrapper;
use crate::tokens::views_of_tokens;

/// ASCII byte values the lexer dispatches on.
pub const SPACE: u8 = 32;

pub const QUOTE: u8 = 34;

pub const HASH: u8 = 35;

pub const COMMA: u8 = 44;

pub const COLON: u8 = 58;

pub const LF: u8 = 10;

pub const CR: u8 = 13;

pub const BACKSLASH: u8 = 92;

pub const DIGIT_ZERO: u8 = 48;

pub const DIGIT_NINE: u8 = 57;

/// Lexing error: the position of the offending byte and a fixed reason.
#[derive(Debug, Clone, Copy)]
pub struct LexerError {
    pub line: i32,
    pub col: i32,
    pub reason: &'static str,
}

/// The mathematical view of a [`LexerError`].
pub struct SpecLexerError {
    pub line: int,
    pub col: int,
    pub reason: Seq<char>,
}

impl View for LexerError {
    type V = SpecLexerError;

    open spec fn view(&self) -> SpecLexerError {
        SpecLexerError { line: self.line as int, col: self.col as int, reason: self.reason@ }
    }
}

/// The index of the first occurrence of `target` in `input` at or after
/// `start`, or `None` if there is none.
pub open spec fn spec_index_of(input: Seq<u8>, start: int, target: u8) -> Option<int>
    decreases input.len() - start,
{
    if start < 0 || start >= input.len() {
        None
    } else if input[start] == target {
        Some(start)
    } else {
        spec_index_of(input, start + 1, target)
    }
}

/// True for an ASCII space.
pub open spec fn spec_is_space(b: u8) -> bool {
    b == 32
}

/// The length of the run of consecutive spaces in `s` starting at `i`.
pub open spec fn spec_space_run(s: Seq<u8>, i: int) -> int
    decreases s.len() - i,
{
    if i < 0 || i >= s.len() || !spec_is_space(s[i]) {
        0
    } else {
        1 + spec_space_run(s, i + 1)
    }
}

/// True when the quote at position `j` is escaped: preceded by a backslash
/// that is not itself escaped by a second backslash.
pub open spec fn spec_escaped_quote(s: Seq<u8>, j: int) -> bool {
    j >= 2 && s[j - 1] == 92 && s[j - 2] != 92
}

/// True when position `j` holds an unescaped closing double quote.
pub open spec fn spec_closing_quote(s: Seq<u8>, j: int) -> bool {
    s[j] == 34 && !spec_escaped_quote(s, j)
}

/// The position of the first unescaped closing quote at or after `j`.
pub open spec fn spec_close_at(s: Seq<u8>, j: int) -> Option<int>
    decreases s.len() - j,
{
    if j < 1 || j >= s.len() {
        None
    } else if spec_closing_quote(s, j) {
        Some(j)
    } else {
        spec_close_at(s, j + 1)
    }
}

/// The byte length of the quoted string opening `s`, closing quote included,
/// or `None` when the quote is never closed.
pub open spec fn spec_quoted_len(s: Seq<u8>) -> Option<int> {
    match spec_close_at(s, 1) {
        Some(j) => Some(j + 1),
        None => None,
    }
}

/// True for an ASCII decimal digit.
pub open spec fn spec_is_digit(b: u8) -> bool {
    48 <= b <= 57
}

/// The length of the run of consecutive ASCII digits in `s` starting at `i`.
pub open spec fn spec_digit_run(s: Seq<u8>, i: int) -> int
    decreases s.len() - i,
{
    if i < 0 || i >= s.len() || !spec_is_digit(s[i]) {
        0
    } else {
        1 + spec_digit_run(s, i + 1)
    }
}

/// The decimal value of the first `end` bytes of `s` read as digits.
pub open spec fn spec_digits_val(s: Seq<u8>, end: int) -> int
    decreases end,
{
    if end <= 0 {
        0
    } else {
        10 * spec_digits_val(s, end - 1) + (s[end - 1] - 48)
    }
}

/// A digit run's value is nonnegative and grows with the run.
pub proof fn lemma_digits_val_mono(s: Seq<u8>, a: int, b: int)
    requires
        0 <= a <= b <= s.len(),
        forall|j: int| 0 <= j < b ==> spec_is_digit(#[trigger] s[j]),
    ensures
        0 <= spec_digits_val(s, a) <= spec_digits_val(s, b),
    decreases b,
{
    if b > 0 {
        if a == b {
            lemma_digits_val_mono(s, a - 1, b - 1);
        } else {
            lemma_digits_val_mono(s, a, b - 1);
        }
    }
}

/// A digit run stays within the input.
pub proof fn lemma_digit_run_bounds(s: Seq<u8>, i: int)
    requires
        0 <= i <= s.len(),
    ensures
        0 <= spec_digit_run(s, i),
        i + spec_digit_run(s, i) <= s.len(),
    decreases s.len() - i,
{
    if i < s.len() && spec_is_digit(s[i]) {
        lemma_digit_run_bounds(s, i + 1);
    }
}

/// True for a byte that terminates a bare (unquoted) string.
pub open spec fn spec_is_term(b: u8) -> bool {
    b == 58 || b == 32 || b == 10 || b == 13 || b == 44
}

/// The length of the run of bare-string bytes in `s` starting at `i`.
pub open spec fn spec_bare_run(s: Seq<u8>, i: int) -> int
    decreases s.len() - i,
{
    if i < 0 || i >= s.len() || spec_is_term(s[i]) {
        0
    } else {
        1 + spec_bare_run(s, i + 1)
    }
}

/// Scans `input` from `start` for the first byte equal to `target`.
pub fn index_of_char(input: &[u8], start: usize, target: u8) -> (r: Result<usize, ()>)
    ensures
        match r {
            Ok(i) => spec_index_of(input@, start as int, target) == Some(i as int) && start <= i
                < input@.len(),
            Err(()) => spec_index_of(input@, start as int, target) is None,
        },
{
    let mut i: usize = start;
    while i < input.len()
        invariant
            start <= i,
            spec_index_of(input@, start as int, target) == spec_index_of(input@, i as int, target),
        decreases input@.len() - i,
    {
        if input[i] == target {
            return Ok(i);
        }
        i = i + 1;
    }
    Err(())
}

/// Measures the run of spaces at the start of `input`.
pub fn measure_indent_len(input: &[u8]) -> (r: usize)
    ensures
        r as int == spec_space_run(input@, 0),
        r <= input@.len(),
{
    let mut i: usize = 0;
    while i < input.len()
        invariant
            0 <= i <= input@.len(),
            spec_space_run(input@, 0) == i + spec_space_run(input@, i as int),
        decreases input@.len() - i,
    {
        if input[i] != SPACE {
            return i;
        }
        i = i + 1;
    }
    input.len()
}

/// Measures a double-quoted string opening `input`: the returned length
/// reaches one past the first unescaped closing quote.
pub fn measure_quoted_string(input: &[u8]) -> (r: Result<usize, &'static str>)
    requires
        input@.len() > 0,
        input@[0] == 34,
    ensures
        match r {
            Ok(n) => spec_quoted_len(input@) == Some(n as int) && 2 <= n <= input@.len(),
            Err(e) => spec_quoted_len(input@) is None && e@ == "Unexpected EOF"@,
        },
{
    let mut i: usize = 1;
    while i < input.len()
        invariant
            1 <= i,
            input@.len() > 0,
            input@[0] == 34,
            spec_close_at(input@, 1) == spec_close_at(input@, i as int),
        decreases input@.len() - i,
    {
        if input[i] == QUOTE {
            let escaped = input[i - 1] == BACKSLASH && input[i - 2] != BACKSLASH;
            if !escaped {
                return Ok(i + 1);
            }
        }
        i = i + 1;
    }
    Err("Unexpected EOF")
}

/// Reads the maximal run of ASCII digits at the start of `input` as an
/// integer, returning the value and the run length; fails when the run is
/// empty or its value does not fit.
pub fn parse_number(input: &[u8]) -> (r: Result<(i64, usize), &'static str>)
    ensures
        ({
            let run = spec_digit_run(input@, 0);
            let val = spec_digits_val(input@, run);
            match r {
                Ok((v, e)) => run >= 1 && val <= i64::MAX && v as int == val && e as int == run,
                Err(m) => (run == 0 || val > i64::MAX) && m@ == "Number parse failed"@,
            }
        }),
{
    let ghost run = spec_digit_run(input@, 0);
    let mut end: usize = 0;
    while end < input.len() && input[end] >= DIGIT_ZERO && input[end] <= DIGIT_NINE
        invariant
            0 <= end <= input@.len(),
            run == end + spec_digit_run(input@, end as int),
            forall|j: int| 0 <= j < end ==> spec_is_digit(#[trigger] input@[j]),
        decreases input@.len() - end,
    {
        end = end + 1;
    }
    assert(run == end as int);
    if end == 0 {
        return Err("Number parse failed");
    }
    let mut v: i64 = 0;
    let mut k: usize = 0;
    while k < end
        invariant
            0 <= k <= end <= input@.len(),
            run == spec_digit_run(input@, 0),
            run == end as int,
            forall|j: int| 0 <= j < end ==> spec_is_digit(#[trigger] input@[j]),
            v as int == spec_digits_val(input@, k as int),
            0 <= v as int,
        decreases end - k,
    {
        let d = (input[k] - 48) as i64;
        let shifted = match v.checked_mul(10) {
            Some(s) => s,
            None => {
                proof {
                    lemma_digits_val_mono(input@, k + 1, end as int);
                }
                return Err("Number parse failed");
            },
        };
        let next = match shifted.checked_add(d) {
            Some(s) => s,
            None => {
                proof {
                    lemma_digits_val_mono(input@, k + 1, end as int);
                }
                return Err("Number parse failed");
            },
        };
        v = next;
        k = k + 1;
    }
    Ok((v, end))
}

/// True when `input` begins with the UTF-8 bytes of `prefix`.
pub fn match_str_prefix(input: &[u8], prefix: &str) -> (r: bool)
    ensures
        r <==> (prefix.spec_bytes().len() <= input@.len() && input@.subrange(
            0,
            prefix.spec_bytes().len() as int,
        ) == prefix.spec_bytes()),
{
    let pb = prefix.as_bytes();
    if pb.len() > input.len() {
        return false;
    }
    let mut j: usize = 0;
    while j < pb.len()
        invariant
            0 <= j <= pb@.len() <= input@.len(),
            pb@ == prefix.spec_bytes(),
            forall|t: int| 0 <= t < j ==> input@[t] == pb@[t],
        decreases pb@.len() - j,
    {
        if input[j] != pb[j] {
            assert(input@.subrange(0, pb@.len() as int)[j as int] != pb@[j as int]);
            return false;
        }
        j = j + 1;
    }
    assert(input@.subrange(0, pb@.len() as int) =~= pb@);
    true
}

/// Measures the run of bare-string bytes at the start of `input`: everything
/// up to the first colon, space, carriage return, line feed or comma.
pub fn measure_unquoted_string(input: &[u8]) -> (r: usize)
    ensures
        r as int == spec_bare_run(input@, 0),
        r <= input@.len(),
{
    let mut i: usize = 0;
    while i < input.len()
        invariant
            0 <= i <= input@.len(),
            spec_bare_run(input@, 0) == i + spec_bare_run(input@, i as int),
        decreases input@.len() - i,
    {
        let ch = input[i];
        if ch == COLON || ch == SPACE || ch == LF || ch == CR || ch == COMMA {
            return i;
        }
        i = i + 1;
    }
    input.len()
}

/// The UTF-8 bytes of the literal `true`.
pub open spec fn spec_true_bytes() -> Seq<u8> {
    seq![116u8, 114u8, 117u8, 101u8]
}

/// The UTF-8 bytes of the literal `false`.
pub open spec fn spec_false_bytes() -> Seq<u8> {
    seq![102u8, 97u8, 108u8, 115u8, 101u8]
}

/// True when `s` begins with the bytes `p`.
pub open spec fn spec_has_prefix(s: Seq<u8>, p: Seq<u8>) -> bool {
    p.len() <= s.len() && s.subrange(0, p.len() as int) == p
}

/// True for a byte that may open a bare string: an ASCII letter or one of
/// `/ . _ -`.
pub open spec fn spec_is_bare_start(b: u8) -> bool {
    (97 <= b <= 122) || (65 <= b <= 90) || b == 47 || b == 46 || b == 95 || b == 45
}

/// A positioned token, in the order the fields are usually written.
pub open spec fn spec_tw(line: int, col: int, t: SpecToken) -> SpecTokenWrapper {
    SpecTokenWrapper { col: col, line: line, token: t }
}

/// A positioned lexing error.
pub open spec fn spec_lex_error(line: int, col: int, reason: Seq<char>) -> SpecLexerError {
    SpecLexerError { line: line, col: col, reason: reason }
}

/// Prepends one token to the result of lexing the rest of the input.
pub open spec fn spec_lex_cons(
    t: SpecTokenWrapper,
    rest: Result<Seq<SpecTokenWrapper>, SpecLexerError>,
) -> Result<Seq<SpecTokenWrapper>, SpecLexerError> {
    match rest {
        Ok(ts) => Ok(seq![t] + ts),
        Err(e) => Err(e),
    }
}

/// The token sequence denoted by the input suffix `s`, scanned at position
/// `line`/`col`; `lnl` records whether the scan stands at the start of a
/// line. This is the reference meaning of [`tokenize`]: one token is peeled
/// from the front of `s` and the rest is lexed recursively.
///
/// Branches that would consume no byte, or more bytes than remain, stop
/// with the defensive `infinite` error; they mirror the executable zero
/// width check and are never reached.
pub open spec fn spec_lex(s: Seq<u8>, line: int, col: int, lnl: bool) -> Result<
    Seq<SpecTokenWrapper>,
    SpecLexerError,
>
    decreases s.len(),
{
    if s.len() == 0 {
        Ok(seq![spec_tw(line, col, SpecToken::Eof)])
    } else {
        let ch = s[0];
        if ch == CR || ch == LF {
            let chop: int = if s.len() > 1 && s[1] == LF {
                2
            } else {
                1
            };
            spec_lex_cons(
                spec_tw(line, col, SpecToken::NewLine),
                spec_lex(s.subrange(chop, s.len() as int), line + 1, 0, true),
            )
        } else if ch == HASH {
            let nnl = match spec_index_of(s, 1, LF) {
                Some(k) => k,
                None => s.len() as int,
            };
            if nnl < 1 || nnl > s.len() {
                Err(spec_lex_error(line, col, "infinite"@))
            } else {
                spec_lex_cons(
                    spec_tw(line, col, SpecToken::Comment(s.subrange(1, nnl))),
                    spec_lex(s.subrange(nnl, s.len() as int), line, col + nnl, false),
                )
            }
        } else if ch == SPACE {
            if lnl {
                let w = spec_space_run(s, 0);
                if w % 2 != 0 {
                    Err(spec_lex_error(line, col, "Invalid number of spaces"@))
                } else if w < 1 || w > s.len() {
                    Err(spec_lex_error(line, col, "infinite"@))
                } else {
                    spec_lex_cons(
                        spec_tw(line, col, SpecToken::Indent(w)),
                        spec_lex(s.subrange(w, s.len() as int), line, col + w, false),
                    )
                }
            } else {
                spec_lex(s.subrange(1, s.len() as int), line, col + 1, false)
            }
        } else if ch == QUOTE {
            match spec_quoted_len(s) {
                Some(n) => if n < 1 || n > s.len() {
                    Err(spec_lex_error(line, col, "infinite"@))
                } else {
                    spec_lex_cons(
                        spec_tw(line, col, SpecToken::Str(s.subrange(0, n))),
                        spec_lex(s.subrange(n, s.len() as int), line, col + n, false),
                    )
                },
                None => Err(spec_lex_error(line, col, "Unexpected EOF"@)),
            }
        } else if ch == COLON {
            spec_lex_cons(
                spec_tw(line, col, SpecToken::Colon),
                spec_lex(s.subrange(1, s.len() as int), line, col + 1, false),
            )
        } else if ch == COMMA {
            spec_lex_cons(
                spec_tw(line, col, SpecToken::Comma),
                spec_lex(s.subrange(1, s.len() as int), line, col + 1, false),
            )
        } else if spec_has_prefix(s, spec_true_bytes()) {
            spec_lex_cons(
                spec_tw(line, col, SpecToken::Bool(true)),
                spec_lex(s.subrange(4, s.len() as int), line, col + 4, false),
            )
        } else if spec_has_prefix(s, spec_false_bytes()) {
            spec_lex_cons(
                spec_tw(line, col, SpecToken::Bool(false)),
                spec_lex(s.subrange(5, s.len() as int), line, col + 5, false),
            )
        } else if spec_is_digit(ch) {
            let run = spec_digit_run(s, 0);
            let val = spec_digits_val(s, run);
            if val > i64::MAX {
                Err(spec_lex_error(line, col, "Number parse failed"@))
            } else if run < 1 || run > s.len() {
                Err(spec_lex_error(line, col, "infinite"@))
            } else {
                spec_lex_cons(
                    spec_tw(line, col, SpecToken::Number(val)),
                    spec_lex(s.subrange(run, s.len() as int), line, col + run, false),
                )
            }
        } else if spec_is_bare_start(ch) {
            let w = spec_bare_run(s, 0);
            if w < 1 || w > s.len() {
                Err(spec_lex_error(line, col, "infinite"@))
            } else {
                spec_lex_cons(
                    spec_tw(line, col, SpecToken::Str(s.subrange(0, w))),
                    spec_lex(s.subrange(w, s.len() as int), line, col + w, false),
                )
            }
        } else {
            spec_lex_cons(
                spec_tw(line, col, SpecToken::Invalid),
                spec_lex(s.subrange(1, s.len() as int), line, col + 1, false),
            )
        }
    }
}

/// Appends an already lexed prefix in front of the result for the rest of
/// the input.
pub open spec fn spec_lex_combine(
    acc: Seq<SpecTokenWrapper>,
    rest: Result<Seq<SpecTokenWrapper>, SpecLexerError>,
) -> Result<Seq<SpecTokenWrapper>, SpecLexerError> {
    match rest {
        Ok(ts) => Ok(acc + ts),
        Err(e) => Err(e),
    }
}

/// Moving a freshly produced token from the front of the remainder to the
/// back of the accumulator keeps the combined result unchanged.
proof fn lemma_combine_push(
    acc: Seq<SpecTokenWrapper>,
    t: SpecTokenWrapper,
    rest: Result<Seq<SpecTokenWrapper>, SpecLexerError>,
)
    ensures
        spec_lex_combine(acc, spec_lex_cons(t, rest)) == spec_lex_combine(acc.push(t), rest),
{
    match rest {
        Ok(ts) => {
            assert(acc + (seq![t] + ts) =~= acc.push(t) + ts);
        },
        Err(_) => {},
    }
}

/// The spelled-out byte sequences of the two boolean literals.
proof fn lemma_bool_literal_bytes()
    ensures
        "true".spec_bytes() == spec_true_bytes(),
        "false".spec_bytes() == spec_false_bytes(),
{
    reveal_strlit("true");
    reveal_strlit("false");
    vstd::utf8::is_ascii_chars_encode_utf8("true"@);
    vstd::utf8::is_ascii_chars_encode_utf8("false"@);
    assert("true".spec_bytes() =~= spec_true_bytes());
    assert("false".spec_bytes() =~= spec_false_bytes());
}

/// The byte chunks the lexer consumes, in order: each entry holds the
/// length of one consumed chunk and whether that chunk produced a token (a
/// lone separator space between tokens produces none). Defined exactly when
/// lexing succeeds; the scan position plays no part in how the input is
/// split.
pub open spec fn spec_lex_spans(s: Seq<u8>, lnl: bool) -> Option<Seq<(int, bool)>>
    decreases s.len(),
{
    if s.len() == 0 {
        Some(Seq::empty())
    } else {
        let ch = s[0];
        if ch == CR || ch == LF {
            let chop: int = if s.len() > 1 && s[1] == LF {
                2
            } else {
                1
            };
            spec_spans_cons((chop, true), spec_lex_spans(s.subrange(chop, s.len() as int), true))
        } else if ch == HASH {
            let nnl = match spec_index_of(s, 1, LF) {
                Some(k) => k,
                None => s.len() as int,
            };
            if nnl < 1 || nnl > s.len() {
                None
            } else {
                spec_spans_cons(
                    (nnl, true),
                    spec_lex_spans(s.subrange(nnl, s.len() as int), false),
                )
            }
        } else if ch == SPACE {
            if lnl {
                let w = spec_space_run(s, 0);
                if w % 2 != 0 {
                    None
                } else if w < 1 || w > s.len() {
                    None
                } else {
                    spec_spans_cons(
                        (w, true),
                        spec_lex_spans(s.subrange(w, s.len() as int), false),
                    )
                }
            } else {
                spec_spans_cons((1, false), spec_lex_spans(s.subrange(1, s.len() as int), false))
            }
        } else if ch == QUOTE {
            match spec_quoted_len(s) {
                Some(n) => if n < 1 || n > s.len() {
                    None
                } else {
                    spec_spans_cons(
                        (n, true),
                        spec_lex_spans(s.subrange(n, s.len() as int), false),
                    )
                },
                None => None,
            }
        } else if ch == COLON || ch == COMMA {
            spec_spans_cons((1, true), spec_lex_spans(s.subrange(1, s.len() as int), false))
        } else if spec_has_prefix(s, spec_true_bytes()) {
            spec_spans_cons((4, true), spec_lex_spans(s.subrange(4, s.len() as int), false))
        } else if spec_has_prefix(s, spec_false_bytes()) {
            spec_spans_cons((5, true), spec_lex_spans(s.subrange(5, s.len() as int), false))
        } else if spec_is_digit(ch) {
            let run = spec_digit_run(s, 0);
            let val = spec_digits_val(s, run);
            if val > i64::MAX {
                None
            } else if run < 1 || run > s.len() {
                None
            } else {
                spec_spans_cons(
                    (run, true),
                    spec_lex_spans(s.subrange(run, s.len() as int), false),
                )
            }
        } else if spec_is_bare_start(ch) {
            let w = spec_bare_run(s, 0);
            if w < 1 || w > s.len() {
                None
            } else {
                spec_spans_cons((w, true), spec_lex_spans(s.subrange(w, s.len() as int), false))
            }
        } else {
            spec_spans_cons((1, true), spec_lex_spans(s.subrange(1, s.len() as int), false))
        }
    }
}

/// Prepends one consumed chunk when the rest of the input splits.
pub open spec fn spec_spans_cons(x: (int, bool), rest: Option<Seq<(int, bool)>>) -> Option<
    Seq<(int, bool)>,
> {
    match rest {
        Some(sp) => Some(seq![x] + sp),
        None => None,
    }
}

/// The number of bytes the chunks consume together.
pub open spec fn spec_spans_total(sp: Seq<(int, bool)>) -> int
    decreases sp.len(),
{
    if sp.len() == 0 {
        0
    } else {
        sp[0].0 + spec_spans_total(sp.subrange(1, sp.len() as int))
    }
}

/// The number of chunks that produced a token.
pub open spec fn spec_spans_emitted(sp: Seq<(int, bool)>) -> int
    decreases sp.len(),
{
    if sp.len() == 0 {
        0
    } else {
        (if sp[0].1 {
            1int
        } else {
            0int
        }) + spec_spans_emitted(sp.subrange(1, sp.len() as int))
    }
}

/// Totals over one more chunk at the front.
proof fn lemma_spans_cons_counts(x: (int, bool), rest: Seq<(int, bool)>)
    ensures
        spec_spans_total(seq![x] + rest) == x.0 + spec_spans_total(rest),
        spec_spans_emitted(seq![x] + rest) == (if x.1 {
            1int
        } else {
            0int
        }) + spec_spans_emitted(rest),
{
    assert((seq![x] + rest).subrange(1, (seq![x] + rest).len() as int) =~= rest);
    assert((seq![x] + rest)[0] == x);
}

/// One partition step: with the remainder's chunks already tiling the
/// remainder, one more nonempty chunk at the front tiles the whole, and
/// the token count moves with it.
proof fn lemma_partition_assemble(
    s_len: int,
    chop: int,
    em: bool,
    rts: Seq<SpecTokenWrapper>,
    rsp: Seq<(int, bool)>,
    ts: Seq<SpecTokenWrapper>,
    sp: Seq<(int, bool)>,
)
    requires
        1 <= chop,
        sp == seq![(chop, em)] + rsp,
        em ==> ts.len() == rts.len() + 1,
        !em ==> ts == rts,
        !em ==> chop == 1,
        rts.len() >= 1,
        spec_spans_total(rsp) == s_len - chop,
        spec_spans_emitted(rsp) == rts.len() - 1,
        forall|k: int| 0 <= k < rsp.len() ==> (#[trigger] rsp[k]).0 >= 1 && (!rsp[k].1 ==> rsp[k].0 == 1),
    ensures
        spec_spans_total(sp) == s_len,
        spec_spans_emitted(sp) == ts.len() - 1,
        forall|k: int| 0 <= k < sp.len() ==> (#[trigger] sp[k]).0 >= 1 && (!sp[k].1 ==> sp[k].0 == 1),
{
    lemma_spans_cons_counts((chop, em), rsp);
    assert forall|k: int| 0 <= k < sp.len() implies (#[trigger] sp[k]).0 >= 1 && (!sp[k].1
        ==> sp[k].0 == 1) by {
        if k == 0 {
            assert(sp[0] == (chop, em));
        } else {
            assert(sp[k] == rsp[k - 1]);
        }
    }
}

/// A lexed token sequence always holds at least the end sentinel.
proof fn lemma_lex_nonempty(s: Seq<u8>, line: int, col: int, lnl: bool)
    ensures
        spec_lex(s, line, col, lnl) matches Ok(ts) ==> ts.len() >= 1,
    decreases s.len(),
{
    if s.len() == 0 {
    } else {
        let ch = s[0];
        if ch == CR || ch == LF {
            let chop: int = if s.len() > 1 && s[1] == LF { 2 } else { 1 };
            lemma_lex_nonempty(s.subrange(chop, s.len() as int), line + 1, 0, true);
        } else if ch == HASH {
            let nnl = match spec_index_of(s, 1, LF) { Some(k) => k, None => s.len() as int };
            if 1 <= nnl <= s.len() {
                lemma_lex_nonempty(s.subrange(nnl, s.len() as int), line, col + nnl, false);
            }
        } else if ch == SPACE {
            if lnl {
                let w = spec_space_run(s, 0);
                if w % 2 == 0 && 1 <= w <= s.len() {
                    lemma_lex_nonempty(s.subrange(w, s.len() as int), line, col + w, false);
                }
            } else {
                lemma_lex_nonempty(s.subrange(1, s.len() as int), line, col + 1, false);
            }
        } else if ch == QUOTE {
            match spec_quoted_len(s) {
                Some(n) => {
                    if 1 <= n <= s.len() {
                        lemma_lex_nonempty(s.subrange(n, s.len() as int), line, col + n, false);
                    }
                },
                None => {},
            }
        } else if ch == COLON || ch == COMMA {
            lemma_lex_nonempty(s.subrange(1, s.len() as int), line, col + 1, false);
        } else if spec_has_prefix(s, spec_true_bytes()) {
            lemma_lex_nonempty(s.subrange(4, s.len() as int), line, col + 4, false);
        } else if spec_has_prefix(s, spec_false_bytes()) {
            lemma_lex_nonempty(s.subrange(5, s.len() as int), line, col + 5, false);
        } else if spec_is_digit(ch) {
            let run = spec_digit_run(s, 0);
            if spec_digits_val(s, run) <= i64::MAX && 1 <= run <= s.len() {
                lemma_lex_nonempty(s.subrange(run, s.len() as int), line, col + run, false);
            }
        } else if spec_is_bare_start(ch) {
            let w = spec_bare_run(s, 0);
            if 1 <= w <= s.len() {
                lemma_lex_nonempty(s.subrange(w, s.len() as int), line, col + w, false);
            }
        } else {
            lemma_lex_nonempty(s.subrange(1, s.len() as int), line, col + 1, false);
        }
    }
}

/// Law: tokenization partitions the input. Whenever lexing succeeds, the
/// consumed chunks are consecutive and nonempty, they cover every input
/// byte with no gap or overlap, every chunk but the lone separator spaces
/// (one byte wide, never at a line start) is the source range of exactly
/// one token, in order, and the end sentinel consumes nothing. On inputs
/// without separator spaces the token ranges alone reconstruct the input.
pub proof fn lemma_tokens_partition(s: Seq<u8>, line: int, col: int, lnl: bool)
    ensures
        spec_lex(s, line, col, lnl) matches Ok(ts) ==> (spec_lex_spans(s, lnl) matches Some(sp)
            && spec_spans_total(sp) == s.len() && spec_spans_emitted(sp) == ts.len() - 1 && (
        forall|k: int|
            0 <= k < sp.len() ==> (#[trigger] sp[k]).0 >= 1 && (!sp[k].1 ==> sp[k].0 == 1))),
    decreases s.len(),
{
    if s.len() == 0 {
    } else {
        let ch = s[0];
        if ch == CR || ch == LF {
            let chop: int = if s.len() > 1 && s[1] == LF { 2 } else { 1 };
            let rest = s.subrange(chop, s.len() as int);
            lemma_tokens_partition(rest, line + 1, 0, true);
            lemma_lex_nonempty(rest, line + 1, 0, true);
            match (spec_lex(s, line, col, lnl), spec_lex(rest, line + 1, 0, true), spec_lex_spans(rest, true)) {
                (Ok(ts), Ok(rts), Some(rsp)) => {
                    lemma_partition_assemble(s.len() as int, chop, true, rts, rsp, ts, seq![(chop, true)] + rsp);
                },
                _ => {},
            }
        } else if ch == HASH {
            let nnl = match spec_index_of(s, 1, LF) { Some(k) => k, None => s.len() as int };
            if 1 <= nnl <= s.len() {
                let rest = s.subrange(nnl, s.len() as int);
                lemma_tokens_partition(rest, line, col + nnl, false);
                lemma_lex_nonempty(rest, line, col + nnl, false);
                match (spec_lex(s, line, col, lnl), spec_lex(rest, line, col + nnl, false), spec_lex_spans(rest, false)) {
                    (Ok(ts), Ok(rts), Some(rsp)) => {
                        lemma_partition_assemble(s.len() as int, nnl, true, rts, rsp, ts, seq![(nnl, true)] + rsp);
                    },
                    _ => {},
                }
            }
        } else if ch == SPACE {
            if lnl {
                let w = spec_space_run(s, 0);
                if w % 2 == 0 && 1 <= w <= s.len() {
                    let rest = s.subrange(w, s.len() as int);
                    lemma_tokens_partition(rest, line, col + w, false);
                    lemma_lex_nonempty(rest, line, col + w, false);
                    match (spec_lex(s, line, col, lnl), spec_lex(rest, line, col + w, false), spec_lex_spans(rest, false)) {
                        (Ok(ts), Ok(rts), Some(rsp)) => {
                            lemma_partition_assemble(s.len() as int, w, true, rts, rsp, ts, seq![(w, true)] + rsp);
                        },
                        _ => {},
                    }
                }
            } else {
                let rest = s.subrange(1, s.len() as int);
                lemma_tokens_partition(rest, line, col + 1, false);
                lemma_lex_nonempty(rest, line, col + 1, false);
                match (spec_lex(s, line, col, lnl), spec_lex(rest, line, col + 1, false), spec_lex_spans(rest, false)) {
                    (Ok(ts), Ok(rts), Some(rsp)) => {
                        lemma_partition_assemble(s.len() as int, 1, false, rts, rsp, ts, seq![(1int, false)] + rsp);
                    },
                    _ => {},
                }
            }
        } else if ch == QUOTE {
            match spec_quoted_len(s) {
                Some(n) => {
                    if 1 <= n <= s.len() {
                        let rest = s.subrange(n, s.len() as int);
                        lemma_tokens_partition(rest, line, col + n, false);
                        lemma_lex_nonempty(rest, line, col + n, false);
                        match (spec_lex(s, line, col, lnl), spec_lex(rest, line, col + n, false), spec_lex_spans(rest, false)) {
                            (Ok(ts), Ok(rts), Some(rsp)) => {
                                lemma_partition_assemble(s.len() as int, n, true, rts, rsp, ts, seq![(n, true)] + rsp);
                            },
                            _ => {},
                        }
                    }
                },
                None => {},
            }
        } else if ch == COLON || ch == COMMA {
            let rest = s.subrange(1, s.len() as int);
            lemma_tokens_partition(rest, line, col + 1, false);
            lemma_lex_nonempty(rest, line, col + 1, false);
            match (spec_lex(s, line, col, lnl), spec_lex(rest, line, col + 1, false), spec_lex_spans(rest, false)) {
                (Ok(ts), Ok(rts), Some(rsp)) => {
                    lemma_partition_assemble(s.len() as int, 1, true, rts, rsp, ts, seq![(1int, true)] + rsp);
                },
                _ => {},
            }
        } else if spec_has_prefix(s, spec_true_bytes()) {
            let rest = s.subrange(4, s.len() as int);
            lemma_tokens_partition(rest, line, col + 4, false);
            lemma_lex_nonempty(rest, line, col + 4, false);
            match (spec_lex(s, line, col, lnl), spec_lex(rest, line, col + 4, false), spec_lex_spans(rest, false)) {
                (Ok(ts), Ok(rts), Some(rsp)) => {
                    lemma_partition_assemble(s.len() as int, 4, true, rts, rsp, ts, seq![(4int, true)] + rsp);
                },
                _ => {},
            }
        } else if spec_has_prefix(s, spec_false_bytes()) {
            let rest = s.subrange(5, s.len() as int);
            lemma_tokens_partition(rest, line, col + 5, false);
            lemma_lex_nonempty(rest, line, col + 5, false);
            match (spec_lex(s, line, col, lnl), spec_lex(rest, line, col + 5, false), spec_lex_spans(rest, false)) {
                (Ok(ts), Ok(rts), Some(rsp)) => {
                    lemma_partition_assemble(s.len() as int, 5, true, rts, rsp, ts, seq![(5int, true)] + rsp);
                },
                _ => {},
            }
        } else if spec_is_digit(ch) {
            let run = spec_digit_run(s, 0);
            if spec_digits_val(s, run) <= i64::MAX && 1 <= run <= s.len() {
                let rest = s.subrange(run, s.len() as int);
                lemma_tokens_partition(rest, line, col + run, false);
                lemma_lex_nonempty(rest, line, col + run, false);
                match (spec_lex(s, line, col, lnl), spec_lex(rest, line, col + run, false), spec_lex_spans(rest, false)) {
                    (Ok(ts), Ok(rts), Some(rsp)) => {
                        lemma_partition_assemble(s.len() as int, run, true, rts, rsp, ts, seq![(run, true)] + rsp);
                    },
                    _ => {},
                }
            }
        } else if spec_is_bare_start(ch) {
            let w = spec_bare_run(s, 0);
            if 1 <= w <= s.len() {
                let rest = s.subrange(w, s.len() as int);
                lemma_tokens_partition(rest, line, col + w, false);
                lemma_lex_nonempty(rest, line, col + w, false);
                match (spec_lex(s, line, col, lnl), spec_lex(rest, line, col + w, false), spec_lex_spans(rest, false)) {
                    (Ok(ts), Ok(rts), Some(rsp)) => {
                        lemma_partition_assemble(s.len() as int, w, true, rts, rsp, ts, seq![(w, true)] + rsp);
                    },
                    _ => {},
                }
            }
        } else {
            let rest = s.subrange(1, s.len() as int);
            lemma_tokens_partition(rest, line, col + 1, false);
            lemma_lex_nonempty(rest, line, col + 1, false);
            match (spec_lex(s, line, col, lnl), spec_lex(rest, line, col + 1, false), spec_lex_spans(rest, false)) {
                (Ok(ts), Ok(rts), Some(rsp)) => {
                    lemma_partition_assemble(s.len() as int, 1, true, rts, rsp, ts, seq![(1int, true)] + rsp);
                },
                _ => {},
            }
        }
    }
}

/// Law: every indent token carries an even width. Lexing never produces an
/// `Indent` token whose width is odd, whatever the input and the scan
/// state.
pub proof fn lemma_indent_parity(s: Seq<u8>, line: int, col: int, lnl: bool)
    ensures
        spec_lex(s, line, col, lnl) matches Ok(ts) ==> forall|k: int|
            0 <= k < ts.len() ==> ((#[trigger] ts[k].token) matches SpecToken::Indent(n) ==> n % 2
                == 0),
    decreases s.len(),
{
    if s.len() == 0 {
    } else {
        let ch = s[0];
        if ch == CR || ch == LF {
            let chop: int = if s.len() > 1 && s[1] == LF {
                2
            } else {
                1
            };
            lemma_indent_parity(s.subrange(chop, s.len() as int), line + 1, 0, true);
        } else if ch == HASH {
            let nnl = match spec_index_of(s, 1, LF) {
                Some(k) => k,
                None => s.len() as int,
            };
            if 1 <= nnl <= s.len() {
                lemma_indent_parity(s.subrange(nnl, s.len() as int), line, col + nnl, false);
            }
        } else if ch == SPACE {
            if lnl {
                let w = spec_space_run(s, 0);
                if w % 2 == 0 && 1 <= w <= s.len() {
                    lemma_indent_parity(s.subrange(w, s.len() as int), line, col + w, false);
                }
            } else {
                lemma_indent_parity(s.subrange(1, s.len() as int), line, col + 1, false);
            }
        } else if ch == QUOTE {
            match spec_quoted_len(s) {
                Some(n) => {
                    if 1 <= n <= s.len() {
                        lemma_indent_parity(s.subrange(n, s.len() as int), line, col + n, false);
                    }
                },
                None => {},
            }
        } else if ch == COLON || ch == COMMA {
            lemma_indent_parity(s.subrange(1, s.len() as int), line, col + 1, false);
        } else if spec_has_prefix(s, spec_true_bytes()) {
            lemma_indent_parity(s.subrange(4, s.len() as int), line, col + 4, false);
        } else if spec_has_prefix(s, spec_false_bytes()) {
            lemma_indent_parity(s.subrange(5, s.len() as int), line, col + 5, false);
        } else if spec_is_digit(ch) {
            let run = spec_digit_run(s, 0);
            if 1 <= run <= s.len() {
                lemma_indent_parity(s.subrange(run, s.len() as int), line, col + run, false);
            }
        } else if spec_is_bare_start(ch) {
            let w = spec_bare_run(s, 0);
            if 1 <= w <= s.len() {
                lemma_indent_parity(s.subrange(w, s.len() as int), line, col + w, false);
            }
        } else {
            lemma_indent_parity(s.subrange(1, s.len() as int), line, col + 1, false);
        }
    }
}

/// The position of the first odd-width space run standing at a line start
/// that the scan reaches, or `None` when the scan ends or stops for some
/// other reason first. This mirrors [`spec_lex`] chunk by chunk and is the
/// formal meaning of "the scan reaches an odd indent".
pub open spec fn spec_first_odd_indent(s: Seq<u8>, line: int, col: int, lnl: bool) -> Option<
    (int, int),
>
    decreases s.len(),
{
    if s.len() == 0 {
        None
    } else {
        let ch = s[0];
        if ch == CR || ch == LF {
            let chop: int = if s.len() > 1 && s[1] == LF {
                2
            } else {
                1
            };
            spec_first_odd_indent(s.subrange(chop, s.len() as int), line + 1, 0, true)
        } else if ch == HASH {
            let nnl = match spec_index_of(s, 1, LF) {
                Some(k) => k,
                None => s.len() as int,
            };
            if nnl < 1 || nnl > s.len() {
                None
            } else {
                spec_first_odd_indent(s.subrange(nnl, s.len() as int), line, col + nnl, false)
            }
        } else if ch == SPACE {
            if lnl {
                let w = spec_space_run(s, 0);
                if w % 2 != 0 {
                    Some((line, col))
                } else if w < 1 || w > s.len() {
                    None
                } else {
                    spec_first_odd_indent(s.subrange(w, s.len() as int), line, col + w, false)
                }
            } else {
                spec_first_odd_indent(s.subrange(1, s.len() as int), line, col + 1, false)
            }
        } else if ch == QUOTE {
            match spec_quoted_len(s) {
                Some(n) => if n < 1 || n > s.len() {
                    None
                } else {
                    spec_first_odd_indent(s.subrange(n, s.len() as int), line, col + n, false)
                },
                None => None,
            }
        } else if ch == COLON || ch == COMMA {
            spec_first_odd_indent(s.subrange(1, s.len() as int), line, col + 1, false)
        } else if spec_has_prefix(s, spec_true_bytes()) {
            spec_first_odd_indent(s.subrange(4, s.len() as int), line, col + 4, false)
        } else if spec_has_prefix(s, spec_false_bytes()) {
            spec_first_odd_indent(s.subrange(5, s.len() as int), line, col + 5, false)
        } else if spec_is_digit(ch) {
            let run = spec_digit_run(s, 0);
            if spec_digits_val(s, run) > i64::MAX {
                None
            } else if run < 1 || run > s.len() {
                None
            } else {
                spec_first_odd_indent(s.subrange(run, s.len() as int), line, col + run, false)
            }
        } else if spec_is_bare_start(ch) {
            let w = spec_bare_run(s, 0);
            if w < 1 || w > s.len() {
                None
            } else {
                spec_first_odd_indent(s.subrange(w, s.len() as int), line, col + w, false)
            }
        } else {
            spec_first_odd_indent(s.subrange(1, s.len() as int), line, col + 1, false)
        }
    }
}

/// Law: whenever the scan reaches an odd-width space run at a line start
/// (nothing having stopped it earlier), lexing returns the
/// invalid-indentation error positioned at that run, and no token sequence.
pub proof fn lemma_odd_indent_yields_error(s: Seq<u8>, line: int, col: int, lnl: bool)
    ensures
        spec_first_odd_indent(s, line, col, lnl) matches Some(pos) ==> spec_lex(s, line, col, lnl)
            == Err::<Seq<SpecTokenWrapper>, SpecLexerError>(
            spec_lex_error(pos.0, pos.1, "Invalid number of spaces"@),
        ),
    decreases s.len(),
{
    if s.len() == 0 {
    } else {
        let ch = s[0];
        if ch == CR || ch == LF {
            let chop: int = if s.len() > 1 && s[1] == LF {
                2
            } else {
                1
            };
            lemma_odd_indent_yields_error(s.subrange(chop, s.len() as int), line + 1, 0, true);
        } else if ch == HASH {
            let nnl = match spec_index_of(s, 1, LF) {
                Some(k) => k,
                None => s.len() as int,
            };
            if 1 <= nnl <= s.len() {
                lemma_odd_indent_yields_error(
                    s.subrange(nnl, s.len() as int),
                    line,
                    col + nnl,
                    false,
                );
            }
        } else if ch == SPACE {
            if lnl {
                let w = spec_space_run(s, 0);
                if w % 2 == 0 && 1 <= w <= s.len() {
                    lemma_odd_indent_yields_error(
                        s.subrange(w, s.len() as int),
                        line,
                        col + w,
                        false,
                    );
                }
            } else {
                lemma_odd_indent_yields_error(s.subrange(1, s.len() as int), line, col + 1, false);
            }
        } else if ch == QUOTE {
            match spec_quoted_len(s) {
                Some(n) => {
                    if 1 <= n <= s.len() {
                        lemma_odd_indent_yields_error(
                            s.subrange(n, s.len() as int),
                            line,
                            col + n,
                            false,
                        );
                    }
                },
                None => {},
            }
        } else if ch == COLON || ch == COMMA {
            lemma_odd_indent_yields_error(s.subrange(1, s.len() as int), line, col + 1, false);
        } else if spec_has_prefix(s, spec_true_bytes()) {
            lemma_odd_indent_yields_error(s.subrange(4, s.len() as int), line, col + 4, false);
        } else if spec_has_prefix(s, spec_false_bytes()) {
            lemma_odd_indent_yields_error(s.subrange(5, s.len() as int), line, col + 5, false);
        } else if spec_is_digit(ch) {
            let run = spec_digit_run(s, 0);
            if spec_digits_val(s, run) <= i64::MAX && 1 <= run <= s.len() {
                lemma_odd_indent_yields_error(
                    s.subrange(run, s.len() as int),
                    line,
                    col + run,
                    false,
                );
            }
        } else if spec_is_bare_start(ch) {
            let w = spec_bare_run(s, 0);
            if 1 <= w <= s.len() {
                lemma_odd_indent_yields_error(s.subrange(w, s.len() as int), line, col + w, false);
            }
        } else {
            lemma_odd_indent_yields_error(s.subrange(1, s.len() as int), line, col + 1, false);
        }
    }
}

/// Law: an odd run of spaces at the start of a line never becomes a token:
/// lexing stops there with the invalid-indentation error, positioned at the
/// run.
pub proof fn lemma_odd_indent_rejected(s: Seq<u8>, line: int, col: int)
    requires
        s.len() > 0,
        s[0] == SPACE,
        spec_space_run(s, 0) % 2 != 0,
    ensures
        spec_lex(s, line, col, true) == Err::<Seq<SpecTokenWrapper>, SpecLexerError>(
            spec_lex_error(line, col, "Invalid number of spaces"@),
        ),
{
}

/// Tokenizes the raw lockfile bytes into a positioned token sequence, or
/// stops at the first offending byte.
///
/// The result is exactly what the reference interpreter [`spec_lex`] says,
/// scanning from line 1, column 0, at the start of a line.
pub fn tokenize(input: &[u8]) -> (r: Result<Vec<TokenWrapper>, LexerError>)
    requires
        input@.len() < 0x7fff_ffff,
    ensures
        match spec_lex(input@, 1, 0, true) {
            Ok(ts) => r matches Ok(v) && views_of_tokens(v@) == ts,
            Err(e) => r matches Err(le) && le@ == e,
        },
{
    let mut cur: &[u8] = input;
    let mut line: i32 = 1;
    let mut col: i32 = 0;
    let mut last_new_line = true;
    let mut tokens: Vec<TokenWrapper> = Vec::new();
    while cur.len() > 0
        invariant
            input@.len() < 0x7fff_ffff,
            cur@.len() <= input@.len(),
            1 <= line as int <= 1 + input@.len() - cur@.len(),
            0 <= col as int <= input@.len() - cur@.len(),
            spec_lex(input@, 1, 0, true) == spec_lex_combine(
                views_of_tokens(tokens@),
                spec_lex(cur@, line as int, col as int, last_new_line),
            ),
        decreases cur@.len(),
    {
        let ghost pre = cur@;
        let ghost pre_line = line as int;
        let ghost pre_col = col as int;
        let ghost pre_lnl = last_new_line;
        let ghost pre_tokens = tokens@;
        let ch = cur[0];
        let mut chop: usize = 0;
        if ch == CR || ch == LF {
            tokens.push(TokenWrapper { col, line, token: Token::NewLine });
            chop = 1;
            if cur.len() > 1 && cur[1] == LF {
                chop = 2;
            }
            line = line + 1;
            col = 0;
            last_new_line = true;
            proof {
                assert(views_of_tokens(tokens@) =~= views_of_tokens(pre_tokens).push(
                    spec_tw(pre_line, pre_col, SpecToken::NewLine),
                ));
                lemma_combine_push(
                    views_of_tokens(pre_tokens),
                    spec_tw(pre_line, pre_col, SpecToken::NewLine),
                    spec_lex(pre.subrange(chop as int, pre.len() as int), pre_line + 1, 0, true),
                );
            }
            cur = slice_subrange(cur, chop, cur.len());
            continue ;
        } else if ch == HASH {
            let next_new_line = match index_of_char(cur, 1, LF) {
                Ok(idx) => idx,
                Err(_) => cur.len(),
            };
            let text = slice_to_vec(slice_subrange(cur, 1, next_new_line));
            tokens.push(TokenWrapper { col, line, token: Token::Comment(text) });
            chop = next_new_line;
        } else if ch == SPACE {
            if last_new_line {
                let indent_size = measure_indent_len(cur);
                if indent_size % 2 != 0 {
                    return Err(LexerError { line, col, reason: "Invalid number of spaces" });
                } else {
                    tokens.push(TokenWrapper { col, line, token: Token::Indent(indent_size) });
                    chop = indent_size;
                }
            } else {
                chop = 1;
            }
        } else if ch == QUOTE {
            match measure_quoted_string(cur) {
                Ok(len) => {
                    let text = slice_to_vec(slice_subrange(cur, 0, len));
                    tokens.push(TokenWrapper { col, line, token: Token::Str(text) });
                    chop = len;
                },
                Err(reason) => {
                    return Err(LexerError { line, col, reason });
                },
            }
        } else if ch == COLON {
            tokens.push(TokenWrapper { col, line, token: Token::Colon });
            chop = 1;
        } else if ch == COMMA {
            tokens.push(TokenWrapper { col, line, token: Token::Comma });
            chop = 1;
        } else if match_str_prefix(cur, "true") {
            proof {
                lemma_bool_literal_bytes();
            }
            tokens.push(TokenWrapper { col, line, token: Token::Bool(true) });
            chop = 4;
        } else if match_str_prefix(cur, "false") {
            proof {
                lemma_bool_literal_bytes();
            }
            tokens.push(TokenWrapper { col, line, token: Token::Bool(false) });
            chop = 5;
        } else if ch >= DIGIT_ZERO && ch <= DIGIT_NINE {
            proof {
                lemma_bool_literal_bytes();
                lemma_digit_run_bounds(cur@, 0);
                lemma_digit_run_bounds(cur@, 1);
            }
            match parse_number(cur) {
                Ok((n, len)) => {
                    tokens.push(TokenWrapper { col, line, token: Token::Number(n) });
                    chop = len;
                },
                Err(reason) => {
                    return Err(LexerError { line, col, reason });
                },
            }
        } else if (ch >= 97 && ch <= 122) || (ch >= 65 && ch <= 90) || ch == 47 || ch == 46 || ch
            == 95 || ch == 45 {
            proof {
                lemma_bool_literal_bytes();
            }
            let len = measure_unquoted_string(cur);
            let text = slice_to_vec(slice_subrange(cur, 0, len));
            tokens.push(TokenWrapper { col, line, token: Token::Str(text) });
            chop = len;
        } else {
            proof {
                lemma_bool_literal_bytes();
            }
            tokens.push(TokenWrapper { col, line, token: Token::Invalid });
            chop = 1;
        }
        if chop == 0 {
            return Err(LexerError { line, col, reason: "infinite" });
        }
        last_new_line = false;
        col = col + chop as i32;
        proof {
            if tokens@.len() > pre_tokens.len() {
                let t = tokens@.last();
                assert(views_of_tokens(tokens@) =~= views_of_tokens(pre_tokens).push(t@));
                lemma_combine_push(
                    views_of_tokens(pre_tokens),
                    t@,
                    spec_lex(
                        pre.subrange(chop as int, pre.len() as int),
                        pre_line,
                        pre_col + chop,
                        false,
                    ),
                );
            }
        }
        cur = slice_subrange(cur, chop, cur.len());
    }
    let ghost fin_tokens = tokens@;
    tokens.push(TokenWrapper { col, line, token: Token::Eof });
    proof {
        assert(views_of_tokens(tokens@) =~= views_of_tokens(fin_tokens) + seq![
            spec_tw(line as int, col as int, SpecToken::Eof),
        ]);
    }
    Ok(tokens)
}

} // verus!
