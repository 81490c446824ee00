//! The indentation-sensitive recursive-descent parser.

use vstd::prelude::*;

verus! {

use vstd::utf8::valid_utf8;
use vstd::utf8::decode_utf8;
use crate::unquote::str_from_utf8;
use crate::unquote::chars_of;
use crate::unquote::unquote_string;
use crate::unquote::spec_unquote_string;
use crate::tokens::Token;
use crate::tokens::TokenWrapper;
use crate::tokens::SpecToken;
use crate::tokens::SpecTokenWrapper;
use crate::tokens::views_of_tokens;
use crate::lexer::tokenize;
use crate::lexer::spec_lex;

/// True for a character with the Unicode White_Space property: the set the
/// runtime's string trimming strips. Beside the ASCII whitespace these are
/// next line, no-break space, ogham space mark, the en-quad to hair-space
/// range, the line and paragraph separators, narrow no-break space, medium
/// mathematical space and ideographic space.
pub open spec fn spec_is_ws(c: char) -> bool {
    c == ' ' || c == '\t' || c == '\n' || c == '\r' || c == '\u{b}' || c == '\u{c}' || c == '\u{85}'
        || c == '\u{a0}' || c == '\u{1680}' || ('\u{2000}' <= c <= '\u{200a}') || c == '\u{2028}'
        || c == '\u{2029}' || c == '\u{202f}' || c == '\u{205f}' || c == '\u{3000}'
}

/// True for a character with the Unicode White_Space property.
fn is_ws(c: char) -> (r: bool)
    ensures
        r == spec_is_ws(c),
{
    c == ' ' || c == '\t' || c == '\n' || c == '\r' || c == '\u{b}' || c == '\u{c}' || c == '\u{85}'
        || c == '\u{a0}' || c == '\u{1680}' || (c >= '\u{2000}' && c <= '\u{200a}') || c
        == '\u{2028}' || c == '\u{2029}' || c == '\u{202f}' || c == '\u{205f}' || c == '\u{3000}'
}

/// The length of the whitespace run in `s` starting at `i`.
pub open spec fn spec_ws_prefix(s: Seq<char>, i: int) -> int
    decreases s.len() - i,
{
    if i < 0 || i >= s.len() || !spec_is_ws(s[i]) {
        0
    } else {
        1 + spec_ws_prefix(s, i + 1)
    }
}

/// The length of the whitespace run in `s` ending just before position `i`.
pub open spec fn spec_ws_suffix(s: Seq<char>, i: int) -> int
    decreases i,
{
    if i <= 0 || i > s.len() || !spec_is_ws(s[i - 1]) {
        0
    } else {
        1 + spec_ws_suffix(s, i - 1)
    }
}

/// `s` with leading and trailing whitespace removed.
pub open spec fn spec_trim(s: Seq<char>) -> Seq<char> {
    let a = spec_ws_prefix(s, 0);
    if a == s.len() {
        Seq::empty()
    } else {
        s.subrange(a, s.len() - spec_ws_suffix(s, s.len() as int))
    }
}

/// The comment text that announces a lockfile version.
pub open spec fn spec_version_prefix() -> Seq<char> {
    "yarn lockfile v"@
}

/// True when every character of `s` is an ASCII decimal digit and there is
/// at least one.
pub open spec fn spec_all_digit_chars(s: Seq<char>) -> bool {
    s.len() > 0 && forall|j: int| 0 <= j < s.len() ==> '0' <= #[trigger] s[j] <= '9'
}

/// The decimal value of the first `end` characters of `s` read as digits.
pub open spec fn spec_digits_val_chars(s: Seq<char>, end: int) -> int
    decreases end,
{
    if end <= 0 {
        0
    } else {
        10 * spec_digits_val_chars(s, end - 1) + (s[end - 1] as u32 - 48)
    }
}

/// A digit run's value is nonnegative and grows with the run.
pub proof fn lemma_digits_val_chars_mono(s: Seq<char>, a: int, b: int)
    requires
        0 <= a <= b <= s.len(),
        forall|j: int| 0 <= j < b ==> '0' <= #[trigger] s[j] <= '9',
    ensures
        0 <= spec_digits_val_chars(s, a) <= spec_digits_val_chars(s, b),
    decreases b,
{
    if b > 0 {
        if a == b {
            lemma_digits_val_chars_mono(s, a - 1, b - 1);
        } else {
            lemma_digits_val_chars_mono(s, a, b - 1);
        }
    }
}

/// The number denoted by `s` in the way the runtime reads a signed 32-bit
/// decimal: an optional sign, then one or more digits, and the value must
/// fit.
pub open spec fn spec_parse_i32(s: Seq<char>) -> Option<int> {
    if s.len() > 0 && (s[0] == '+' || s[0] == '-') {
        let mag = s.subrange(1, s.len() as int);
        if spec_all_digit_chars(mag) {
            let v = spec_digits_val_chars(mag, mag.len() as int);
            let sv: int = if s[0] == '-' {
                -v
            } else {
                v
            };
            if i32::MIN <= sv <= i32::MAX {
                Some(sv)
            } else {
                None
            }
        } else {
            None
        }
    } else {
        if spec_all_digit_chars(s) {
            let v = spec_digits_val_chars(s, s.len() as int);
            if v <= i32::MAX {
                Some(v)
            } else {
                None
            }
        } else {
            None
        }
    }
}

/// The version number announced by a comment: the comment text, trimmed,
/// must read `yarn lockfile v` followed by a 32-bit decimal number.
/// Comments that are not text, read differently, or carry no number,
/// announce nothing.
pub open spec fn spec_version_match(b: Seq<u8>) -> Option<int> {
    if !valid_utf8(b) {
        None
    } else {
        let t = spec_trim(decode_utf8(b));
        let p = spec_version_prefix();
        if p.len() <= t.len() && t.subrange(0, p.len() as int) == p {
            spec_parse_i32(t.subrange(p.len() as int, t.len() as int))
        } else {
            None
        }
    }
}

/// Reads the region `[from, to)` of `cs` as a signed 32-bit decimal number.
fn parse_i32_region(cs: &Vec<char>, from: usize, to: usize) -> (r: Option<i32>)
    requires
        from <= to <= cs@.len(),
    ensures
        match r {
            Some(v) => spec_parse_i32(cs@.subrange(from as int, to as int)) == Some(v as int),
            None => spec_parse_i32(cs@.subrange(from as int, to as int)) is None,
        },
{
    let ghost region = cs@.subrange(from as int, to as int);
    if from == to {
        return None;
    }
    let c0 = cs[from];
    let neg = c0 == '-';
    let start = if c0 == '+' || c0 == '-' {
        from + 1
    } else {
        from
    };
    let ghost mag = if c0 == '+' || c0 == '-' {
        region.subrange(1, region.len() as int)
    } else {
        region
    };
    proof {
        assert(mag =~= cs@.subrange(start as int, to as int));
    }
    if start == to {
        return None;
    }
    let mut acc: i64 = 0;
    let mut k: usize = start;
    while k < to
        invariant
            from <= start <= k <= to <= cs@.len(),
            region == cs@.subrange(from as int, to as int),
            region.len() > 0,
            neg == (region[0] == '-'),
            start == from ==> !(region[0] == '+' || region[0] == '-'),
            start != from ==> start == from + 1 && (region[0] == '+' || region[0] == '-'),
            mag == cs@.subrange(start as int, to as int),
            start == from ==> mag == region,
            start != from ==> mag == region.subrange(1, region.len() as int),
            forall|j: int| 0 <= j < k - start ==> '0' <= #[trigger] mag[j] <= '9',
            acc as int == spec_digits_val_chars(mag, k - start),
            0 <= acc as int <= 0x8000_0000,
        decreases to - k,
    {
        let c = cs[k];
        assert(mag[k - start] == c);
        if !(c >= '0' && c <= '9') {
            return None;
        }
        let d = (c as u32 - 48) as i64;
        let next = acc * 10 + d;
        if next > 0x8000_0000 {
            proof {
                if spec_all_digit_chars(mag) {
                    lemma_digits_val_chars_mono(mag, k - start + 1, mag.len() as int);
                }
            }
            return None;
        }
        acc = next;
        k = k + 1;
    }
    assert(spec_all_digit_chars(mag));
    if neg {
        proof {
            assert(region[0] == '-');
        }
        Some((-acc) as i32)
    } else {
        if acc > 0x7fff_ffff {
            return None;
        }
        Some(acc as i32)
    }
}

/// Recognises a version comment: the comment bytes, read as text and
/// trimmed, must be `yarn lockfile v` followed by a decimal number.
pub fn version_match(chars: &[u8]) -> (r: Option<i32>)
    ensures
        match spec_version_match(chars@) {
            Some(v) => r matches Some(x) && x as int == v,
            None => r is None,
        },
{
    let st = match str_from_utf8(chars) {
        Some(s) => s,
        None => {
            return None;
        },
    };
    let cs = chars_of(st);
    let mut a: usize = 0;
    while a < cs.len() && is_ws(cs[a])
        invariant
            0 <= a <= cs@.len(),
            spec_ws_prefix(cs@, 0) == a + spec_ws_prefix(cs@, a as int),
        decreases cs@.len() - a,
    {
        a = a + 1;
    }
    assert(spec_ws_prefix(cs@, 0) == a as int);
    if a == cs.len() {
        // all whitespace: the trimmed text is empty and announces nothing
        assert(spec_trim(cs@).len() == 0);
        return None;
    }
    let mut b: usize = cs.len();
    while b > a && is_ws(cs[b - 1])
        invariant
            a < b <= cs@.len(),
            a < cs@.len(),
            !spec_is_ws(cs@[a as int]),
            spec_ws_suffix(cs@, cs@.len() as int) == cs@.len() - b + spec_ws_suffix(cs@, b as int),
        decreases b,
    {
        b = b - 1;
    }
    proof {
        assert(spec_ws_suffix(cs@, cs@.len() as int) == cs@.len() - b);
        assert(spec_trim(cs@) =~= cs@.subrange(a as int, b as int));
    }
    let pv = chars_of("yarn lockfile v");
    if b - a < pv.len() {
        proof {
            assert(!(spec_version_prefix().len() <= spec_trim(cs@).len()));
        }
        return None;
    }
    let mut j: usize = 0;
    while j < pv.len()
        invariant
            0 <= j <= pv@.len(),
            pv@ == spec_version_prefix(),
            a <= b <= cs@.len(),
            pv@.len() <= b - a,
            valid_utf8(chars@),
            cs@ == decode_utf8(chars@),
            spec_trim(cs@) == cs@.subrange(a as int, b as int),
            forall|t: int| 0 <= t < j ==> cs@[a + t] == pv@[t],
        decreases pv@.len() - j,
    {
        if cs[a + j] != pv[j] {
            proof {
                assert(spec_trim(cs@).subrange(0, pv@.len() as int)[j as int] != pv@[j as int]);
            }
            return None;
        }
        j = j + 1;
    }
    proof {
        assert(spec_trim(cs@) =~= cs@.subrange(a as int, b as int));
        assert(spec_trim(cs@).subrange(0, pv@.len() as int) =~= pv@);
        assert(spec_trim(cs@).subrange(pv@.len() as int, spec_trim(cs@).len() as int)
            =~= cs@.subrange(a + pv@.len(), b as int));
    }
    parse_i32_region(&cs, a + pv.len(), b)
}

/// A parsed document value.
///
/// `Object` keeps its entries in first-insertion order; keys are unique.
/// `Null` is reserved and never produced by the current grammar.
#[derive(Debug, PartialEq)]
pub enum Value {
    Str(String),
    Number(i64),
    Boolean(bool),
    Object(Vec<(String, Value)>),
    Null,
}

/// The mathematical view of a [`Value`]: strings become character
/// sequences, numbers unbounded integers, and objects ordered sequences of
/// key/value pairs.
pub enum SpecValue {
    Str(Seq<char>),
    Number(int),
    Boolean(bool),
    Object(Seq<(Seq<char>, SpecValue)>),
    Null,
}

/// The view of a [`Value`], taken recursively through objects.
pub open spec fn spec_value_of(v: Value) -> SpecValue
    decreases v,
{
    match v {
        Value::Str(s) => SpecValue::Str(s@),
        Value::Number(n) => SpecValue::Number(n as int),
        Value::Boolean(b) => SpecValue::Boolean(b),
        Value::Object(m) => {
            proof {
                broadcast use vstd::std_specs::vec::group_vec_axioms;

                assert(decreases_to!(v => m));
            }
            SpecValue::Object(spec_pairs_of(m@))
        },
        Value::Null => SpecValue::Null,
    }
}

/// The views of a sequence of object entries, in order.
pub open spec fn spec_pairs_of(s: Seq<(String, Value)>) -> Seq<(Seq<char>, SpecValue)>
    decreases s,
{
    if s.len() == 0 {
        Seq::empty()
    } else {
        seq![(s[0].0@, spec_value_of(s[0].1))] + spec_pairs_of(s.subrange(1, s.len() as int))
    }
}

/// Entry views are taken entry by entry.
pub proof fn lemma_pairs_of_index(s: Seq<(String, Value)>)
    ensures
        spec_pairs_of(s).len() == s.len(),
        forall|i: int|
            0 <= i < s.len() ==> #[trigger] spec_pairs_of(s)[i] == (s[i].0@, spec_value_of(s[i].1)),
    decreases s.len(),
{
    if s.len() > 0 {
        lemma_pairs_of_index(s.subrange(1, s.len() as int));
    }
}

impl View for Value {
    type V = SpecValue;

    open spec fn view(&self) -> SpecValue {
        spec_value_of(*self)
    }
}

/// Clones a value, objects included, preserving its view.
fn clone_value(v: &Value) -> (r: Value)
    ensures
        r@ == v@,
    decreases *v,
{
    match v {
        Value::Str(s) => Value::Str(s.clone()),
        Value::Number(n) => Value::Number(*n),
        Value::Boolean(b) => Value::Boolean(*b),
        Value::Null => Value::Null,
        Value::Object(m) => {
            let mut out: Vec<(String, Value)> = Vec::new();
            let mut i: usize = 0;
            while i < m.len()
                invariant
                    *v == Value::Object(*m),
                    0 <= i <= m@.len(),
                    out@.len() == i,
                    forall|j: int|
                        0 <= j < i ==> #[trigger] out@[j].0@ == m@[j].0@ && out@[j].1@ == m@[j].1@,
                decreases m@.len() - i,
            {
                proof {
                    broadcast use vstd::std_specs::vec::group_vec_axioms;

                    assert(decreases_to!(*v => v->Object_0));
                    assert(decreases_to!(*v => *m));
                    assert(decreases_to!(*m => (*m)@));
                    assert(decreases_to!((*m)@ => (*m)@[i as int]));
                    assert(decreases_to!((*m)@[i as int] => (*m)@[i as int].1));
                }
                let k = m[i].0.clone();
                let x = clone_value(&m[i].1);
                out.push((k, x));
                i = i + 1;
            }
            proof {
                lemma_pairs_of_index(out@);
                lemma_pairs_of_index(m@);
                assert(spec_pairs_of(out@) =~= spec_pairs_of(m@));
            }
            Value::Object(out)
        },
    }
}

impl Clone for Value {
    /// A clone reads back the same view, objects included.
    fn clone(&self) -> (r: Self)
        ensures
            r@ == self@,
    {
        clone_value(self)
    }
}

/// `pairs` with `v` bound to `k`: the first entry holding `k` is replaced
/// in place, and a missing key is appended at the back.
pub open spec fn spec_obj_insert(
    pairs: Seq<(Seq<char>, SpecValue)>,
    k: Seq<char>,
    v: SpecValue,
) -> Seq<(Seq<char>, SpecValue)>
    decreases pairs.len(),
{
    if pairs.len() == 0 {
        seq![(k, v)]
    } else if pairs[0].0 == k {
        seq![(k, v)] + pairs.subrange(1, pairs.len() as int)
    } else {
        seq![pairs[0]] + spec_obj_insert(pairs.subrange(1, pairs.len() as int), k, v)
    }
}

/// `pairs` with `v` bound to every key of `keys`, in order.
pub open spec fn spec_obj_insert_all(
    pairs: Seq<(Seq<char>, SpecValue)>,
    keys: Seq<Seq<char>>,
    v: SpecValue,
) -> Seq<(Seq<char>, SpecValue)>
    decreases keys.len(),
{
    if keys.len() == 0 {
        pairs
    } else {
        spec_obj_insert_all(
            spec_obj_insert(pairs, keys[0], v),
            keys.subrange(1, keys.len() as int),
            v,
        )
    }
}

/// Inserting a key that sits at position `j` replaces that entry in place.
proof fn lemma_obj_insert_found(
    pairs: Seq<(Seq<char>, SpecValue)>,
    k: Seq<char>,
    v: SpecValue,
    j: int,
)
    requires
        0 <= j < pairs.len(),
        pairs[j].0 == k,
        forall|t: int| 0 <= t < j ==> (#[trigger] pairs[t]).0 != k,
    ensures
        spec_obj_insert(pairs, k, v) == pairs.update(j, (k, v)),
    decreases pairs.len(),
{
    let rest = pairs.subrange(1, pairs.len() as int);
    if j == 0 {
        assert(seq![(k, v)] + rest =~= pairs.update(0, (k, v)));
    } else {
        assert(forall|t: int| 0 <= t < j - 1 ==> (#[trigger] rest[t]).0 != k);
        lemma_obj_insert_found(rest, k, v, j - 1);
        assert(seq![pairs[0]] + rest.update(j - 1, (k, v)) =~= pairs.update(j, (k, v)));
    }
}

/// Inserting a key that is absent appends a new entry at the back.
proof fn lemma_obj_insert_missing(pairs: Seq<(Seq<char>, SpecValue)>, k: Seq<char>, v: SpecValue)
    requires
        forall|t: int| 0 <= t < pairs.len() ==> (#[trigger] pairs[t]).0 != k,
    ensures
        spec_obj_insert(pairs, k, v) == pairs.push((k, v)),
    decreases pairs.len(),
{
    if pairs.len() == 0 {
        assert(seq![(k, v)] =~= pairs.push((k, v)));
    } else {
        let rest = pairs.subrange(1, pairs.len() as int);
        lemma_obj_insert_missing(rest, k, v);
        assert(seq![pairs[0]] + rest.push((k, v)) =~= pairs.push((k, v)));
    }
}

/// Binds `val` to `key` in the entry list: the first entry holding the key
/// is replaced, and a missing key is appended.
fn obj_insert(map: &mut Vec<(String, Value)>, key: String, val: Value)
    ensures
        spec_pairs_of(final (map)@) == spec_obj_insert(
            spec_pairs_of(old(map)@),
            key@,
            spec_value_of(val),
        ),
{
    let ghost pairs = spec_pairs_of(old(map)@);
    proof {
        lemma_pairs_of_index(old(map)@);
    }
    let mut j: usize = 0;
    while j < map.len()
        invariant
            0 <= j <= map@.len(),
            map@ == old(map)@,
            pairs == spec_pairs_of(map@),
            pairs.len() == map@.len(),
            forall|t: int| 0 <= t < map@.len() ==> (#[trigger] pairs[t]) == (map@[t].0@, spec_value_of(map@[t].1)),
            forall|t: int| 0 <= t < j ==> (#[trigger] pairs[t]).0 != key@,
        decreases map@.len() - j,
    {
        if map[j].0.eq(&key) {
            proof {
                lemma_obj_insert_found(pairs, key@, spec_value_of(val), j as int);
            }
            let _old = map.remove(j);
            map.insert(j, (key, val));
            proof {
                assert(map@ =~= old(map)@.update(j as int, (key, val)));
                lemma_pairs_of_index(map@);
                assert(spec_pairs_of(map@) =~= pairs.update(j as int, (key@, spec_value_of(val))));
            }
            return ;
        }
        j = j + 1;
    }
    proof {
        lemma_obj_insert_missing(pairs, key@, spec_value_of(val));
    }
    map.push((key, val));
    proof {
        lemma_pairs_of_index(map@);
        assert(spec_pairs_of(map@) =~= pairs.push((key@, spec_value_of(val))));
    }
}

/// The key views of a key list, in order.
pub open spec fn spec_key_views(ks: Seq<String>) -> Seq<Seq<char>> {
    ks.map_values(|s: String| s@)
}

/// Binds one shared value to every key of `keys`, in order: each key gets
/// its own copy of `val`.
fn insert_all(map: &mut Vec<(String, Value)>, keys: &Vec<String>, val: &Value)
    ensures
        spec_pairs_of(final (map)@) == spec_obj_insert_all(
            spec_pairs_of(old(map)@),
            spec_key_views(keys@),
            spec_value_of(*val),
        ),
{
    let ghost pairs0 = spec_pairs_of(old(map)@);
    let ghost kvs = spec_key_views(keys@);
    proof {
        assert(kvs.subrange(0, kvs.len() as int) =~= kvs);
    }
    let mut i: usize = 0;
    while i < keys.len()
        invariant
            0 <= i <= keys@.len(),
            kvs == spec_key_views(keys@),
            spec_obj_insert_all(pairs0, kvs, spec_value_of(*val)) == spec_obj_insert_all(
                spec_pairs_of(map@),
                kvs.subrange(i as int, kvs.len() as int),
                spec_value_of(*val),
            ),
        decreases keys@.len() - i,
    {
        let ghost before = spec_pairs_of(map@);
        let k = keys[i].clone();
        let v = val.clone();
        obj_insert(map, k, v);
        proof {
            assert(kvs.subrange(i as int, kvs.len() as int)[0] == keys@[i as int]@);
            assert(kvs.subrange(i as int, kvs.len() as int).subrange(
                1,
                kvs.len() - i,
            ) =~= kvs.subrange(i + 1, kvs.len() as int));
        }
        i = i + 1;
    }
    proof {
        assert(kvs.subrange(kvs.len() as int, kvs.len() as int).len() == 0);
    }
}

/// Parsing error.
///
/// This error is returned when the parser encounters an error while parsing
/// the input.
#[derive(Debug, Clone, Copy)]
pub struct Error {
    /// The line number where the error occurred.
    pub line: i32,
    /// The column number where the error occurred.
    pub col: i32,
    /// The reason for the error.
    pub reason: &'static str,
}

/// The mathematical view of an [`Error`].
pub struct SpecError {
    pub line: int,
    pub col: int,
    pub reason: Seq<char>,
}

impl View for Error {
    type V = SpecError;

    open spec fn view(&self) -> SpecError {
        SpecError { line: self.line as int, col: self.col as int, reason: self.reason@ }
    }
}

/// A positioned parse error.
pub open spec fn spec_perr(line: int, col: int, reason: Seq<char>) -> SpecError {
    SpecError { line: line, col: col, reason: reason }
}

/// The error reported when the token cursor runs off the end of the
/// sequence; it carries no position.
pub open spec fn spec_eoi() -> SpecError {
    spec_perr(0, 0, "Unexpected end of input"@)
}

/// The error text naming the kind of an unexpected token.
pub open spec fn spec_unexpected(t: SpecToken) -> Seq<char> {
    match t {
        SpecToken::Bool(_) => "Unexpected token Bool"@,
        SpecToken::Str(_) => "Unexpected token String"@,
        SpecToken::Number(_) => "Unexpected token Number"@,
        SpecToken::Indent(_) => "Unexpected token Indent"@,
        SpecToken::Comment(_) => "Unexpected token Comment"@,
        SpecToken::Eof => "Unexpected token EOF"@,
        SpecToken::Colon => "Unexpected token Colon"@,
        SpecToken::NewLine => "Unexpected token NewLine"@,
        SpecToken::Invalid => "Unexpected token Invalid"@,
        SpecToken::Comma => "Unexpected token Comma"@,
    }
}

/// Names the kind of a token found where a key or a value was expected.
pub fn unexpected_token_string(token: &Token) -> (r: &'static str)
    ensures
        r@ == spec_unexpected(token@),
{
    match token {
        Token::Bool(_) => "Unexpected token Bool",
        Token::Str(_) => "Unexpected token String",
        Token::Number(_) => "Unexpected token Number",
        Token::Indent(_) => "Unexpected token Indent",
        Token::Comment(_) => "Unexpected token Comment",
        Token::Eof => "Unexpected token EOF",
        Token::Colon => "Unexpected token Colon",
        Token::NewLine => "Unexpected token NewLine",
        Token::Invalid => "Unexpected token Invalid",
        Token::Comma => "Unexpected token Comma",
    }
}

/// Advances the cursor to the next token that is not a comment, starting at
/// position `p`: ordinary comments are discarded, a comment announcing a
/// lockfile version above 1 stops the parse with the comment's position,
/// and a cursor that runs off the end reports the end of input.
pub open spec fn spec_advance(ts: Seq<SpecTokenWrapper>, p: int) -> Result<int, SpecError>
    decreases ts.len() - p,
{
    if p < 0 || p >= ts.len() {
        Err(spec_eoi())
    } else {
        match ts[p].token {
            SpecToken::Comment(c) => match spec_version_match(c) {
                Some(v) => if v > 1 {
                    Err(spec_perr(ts[p].line, ts[p].col, "Unsupported lockfile version"@))
                } else {
                    spec_advance(ts, p + 1)
                },
                None => spec_advance(ts, p + 1),
            },
            _ => Ok(p),
        }
    }
}

/// Law: the version gate. Whenever the cursor reaches a comment that
/// announces a lockfile version above 1, parsing stops with the
/// unsupported-version error at that comment's position; a comment
/// announcing version 1 or less, or none at all, is passed over.
pub proof fn lemma_version_gate(ts: Seq<SpecTokenWrapper>, p: int, c: Seq<u8>)
    requires
        0 <= p < ts.len(),
        ts[p].token == SpecToken::Comment(c),
    ensures
        (spec_version_match(c) matches Some(n) && n > 1) ==> spec_advance(ts, p) == Err::<
            int,
            SpecError,
        >(spec_perr(ts[p].line, ts[p].col, "Unsupported lockfile version"@)),
        (spec_version_match(c) is None || (spec_version_match(c) matches Some(n) && n <= 1))
            ==> spec_advance(ts, p) == spec_advance(ts, p + 1),
{
}

/// Gathers the comma-separated keys that follow an already parsed key:
/// each comma must be followed by a nonempty string key. `keys` holds what
/// has been gathered so far; the result also reports where the key list
/// ended. The impossible cursor positions stop with the end-of-input error;
/// they keep the recursion well-founded and are never reached.
pub open spec fn spec_parse_keys(
    ts: Seq<SpecTokenWrapper>,
    cur: int,
    keys: Seq<Seq<char>>,
) -> Result<(Seq<Seq<char>>, int), SpecError>
    decreases ts.len() - cur,
{
    if !(0 <= cur < ts.len()) {
        Err(spec_eoi())
    } else {
        match ts[cur].token {
            SpecToken::Comma => match spec_advance(ts, cur + 1) {
                Err(e) => Err(e),
                Ok(q) => if !(cur < q < ts.len()) {
                    Err(spec_eoi())
                } else {
                    match ts[q].token {
                        SpecToken::Str(sb) => match spec_unquote_string(sb) {
                            Err(m) => Err(spec_perr(ts[q].line, ts[q].col, m)),
                            Ok(k) => if k.len() == 0 {
                                Err(spec_perr(ts[q].line, ts[q].col, "Expected a key"@))
                            } else {
                                match spec_advance(ts, q + 1) {
                                    Err(e) => Err(e),
                                    Ok(q2) => if !(cur < q2 && q2 <= ts.len()) {
                                        Err(spec_eoi())
                                    } else {
                                        spec_parse_keys(ts, q2, keys.push(k))
                                    },
                                }
                            },
                        },
                        _ => Err(spec_perr(ts[q].line, ts[q].col, "Expected string"@)),
                    }
                },
            },
            _ => Ok((keys, cur)),
        }
    }
}

/// Parses the entries of one indentation level, starting at cursor `cur`
/// with the already gathered entries `acc`, and reports the entries of the
/// level together with the cursor position on which the level ended. This
/// is the reference meaning of the parser's level loop. The impossible
/// cursor positions stop with the end-of-input error; they keep the
/// recursion well-founded and are never reached.
pub open spec fn spec_parse_level(
    ts: Seq<SpecTokenWrapper>,
    cur: int,
    indent: int,
    acc: Seq<(Seq<char>, SpecValue)>,
) -> Result<(Seq<(Seq<char>, SpecValue)>, int), SpecError>
    decreases ts.len() - cur, 1int,
{
    if !(0 <= cur < ts.len()) {
        Err(spec_eoi())
    } else {
        let t = ts[cur];
        match t.token {
            SpecToken::NewLine => match spec_advance(ts, cur + 1) {
                Err(e) => Err(e),
                Ok(q) => if !(cur < q < ts.len()) {
                    Err(spec_eoi())
                } else if indent == 0 {
                    spec_parse_level(ts, q, indent, acc)
                } else {
                    match ts[q].token {
                        SpecToken::Indent(n) => if n == indent {
                            match spec_advance(ts, q + 1) {
                                Err(e) => Err(e),
                                Ok(q2) => if !(cur < q2 && q2 <= ts.len()) {
                                    Err(spec_eoi())
                                } else {
                                    spec_parse_level(ts, q2, indent, acc)
                                },
                            }
                        } else {
                            Ok((acc, q))
                        },
                        _ => Ok((acc, q)),
                    }
                },
            },
            SpecToken::Indent(n) => if n == indent {
                match spec_advance(ts, cur + 1) {
                    Err(e) => Err(e),
                    Ok(q) => if !(cur < q && q <= ts.len()) {
                        Err(spec_eoi())
                    } else {
                        spec_parse_level(ts, q, indent, acc)
                    },
                }
            } else {
                Ok((acc, cur))
            },
            SpecToken::Eof => Ok((acc, cur)),
            SpecToken::Str(sb) => match spec_unquote_string(sb) {
                Err(m) => Err(spec_perr(t.line, t.col, m)),
                Ok(k0) => if k0.len() == 0 {
                    Err(spec_perr(t.line, t.col, "Expected a key"@))
                } else {
                    match spec_advance(ts, cur + 1) {
                        Err(e) => Err(e),
                        Ok(q) => if !(cur < q && q <= ts.len()) {
                            Err(spec_eoi())
                        } else {
                            match spec_parse_keys(ts, q, seq![k0]) {
                                Err(e) => Err(e),
                                Ok(ks) => if !(cur < ks.1 < ts.len()) {
                                    Err(spec_eoi())
                                } else {
                                    spec_parse_entry_value(ts, cur, ks.1, indent, acc, ks.0)
                                },
                            }
                        },
                    }
                },
            },
            _ => Err(spec_perr(t.line, t.col, spec_unexpected(t.token))),
        }
    }
}

/// Parses the shared value of one entry whose keys have been gathered:
/// `cur0` is the position of the entry's first key, `vcur` stands on the
/// token after the key list. A string, number or boolean token is the
/// value itself; anything else after a colon opens a nested level indented
/// two spaces further. The entries of the surrounding level are then parsed
/// on, with the value bound to every key.
pub open spec fn spec_parse_entry_value(
    ts: Seq<SpecTokenWrapper>,
    cur0: int,
    vcur: int,
    indent: int,
    acc: Seq<(Seq<char>, SpecValue)>,
    keys: Seq<Seq<char>>,
) -> Result<(Seq<(Seq<char>, SpecValue)>, int), SpecError>
    decreases ts.len() - cur0, 0int,
{
    if !(cur0 < vcur < ts.len()) {
        Err(spec_eoi())
    } else {
        let was_colon = ts[vcur].token is Colon;
        let after_colon: Result<int, SpecError> = if was_colon {
            spec_advance(ts, vcur + 1)
        } else {
            Ok(vcur)
        };
        match after_colon {
            Err(e) => Err(e),
            Ok(v) => if !(cur0 < v < ts.len()) {
                Err(spec_eoi())
            } else {
                match ts[v].token {
                    SpecToken::Str(u) => match spec_unquote_string(u) {
                        Err(m) => Err(spec_perr(ts[v].line, ts[v].col, m)),
                        Ok(sv) => match spec_advance(ts, v + 1) {
                            Err(e) => Err(e),
                            Ok(q4) => if !(cur0 < q4 && q4 <= ts.len()) {
                                Err(spec_eoi())
                            } else {
                                spec_parse_level(
                                    ts,
                                    q4,
                                    indent,
                                    spec_obj_insert_all(acc, keys, SpecValue::Str(sv)),
                                )
                            },
                        },
                    },
                    SpecToken::Number(n) => match spec_advance(ts, v + 1) {
                        Err(e) => Err(e),
                        Ok(q4) => if !(cur0 < q4 && q4 <= ts.len()) {
                            Err(spec_eoi())
                        } else {
                            spec_parse_level(
                                ts,
                                q4,
                                indent,
                                spec_obj_insert_all(acc, keys, SpecValue::Number(n)),
                            )
                        },
                    },
                    SpecToken::Bool(b) => match spec_advance(ts, v + 1) {
                        Err(e) => Err(e),
                        Ok(q4) => if !(cur0 < q4 && q4 <= ts.len()) {
                            Err(spec_eoi())
                        } else {
                            spec_parse_level(
                                ts,
                                q4,
                                indent,
                                spec_obj_insert_all(acc, keys, SpecValue::Boolean(b)),
                            )
                        },
                    },
                    _ => if was_colon {
                        match spec_parse_level(ts, v, indent + 2, Seq::empty()) {
                            Err(e) => Err(e),
                            Ok(inner) => {
                                let acc2 = spec_obj_insert_all(
                                    acc,
                                    keys,
                                    SpecValue::Object(inner.0),
                                );
                                if !(0 <= inner.1 < ts.len()) {
                                    Err(spec_eoi())
                                } else if ts[inner.1].token is Indent && indent == 0 {
                                    Ok((acc2, inner.1))
                                } else if !(cur0 < inner.1) {
                                    Err(spec_eoi())
                                } else {
                                    spec_parse_level(ts, inner.1, indent, acc2)
                                }
                            },
                        }
                    } else {
                        Err(spec_perr(ts[v].line, ts[v].col, spec_unexpected(ts[v].token)))
                    },
                }
            },
        }
    }
}

/// What parsing a whole byte buffer returns: the input is tokenized, the
/// cursor is advanced to the first token that is not a comment, and the
/// root level is parsed at indent 0; its entries form the root object.
pub open spec fn spec_parse(b: Seq<u8>) -> Result<SpecValue, SpecError> {
    match spec_lex(b, 1, 0, true) {
        Err(le) => Err(spec_perr(le.line, le.col, le.reason)),
        Ok(ts) => match spec_advance(ts, 0) {
            Err(e) => Err(e),
            Ok(q) => match spec_parse_level(ts, q, 0, Seq::empty()) {
                Err(e) => Err(e),
                Ok(p) => Ok(SpecValue::Object(p.0)),
            },
        },
    }
}

/// The token cursor: a forward-only position into the token sequence, with
/// the current token at `cur` and `token_ptr` standing one past it.
struct Parser<'t> {
    tokens: &'t [TokenWrapper],
    token_ptr: usize,
    cur: usize,
}

impl<'t> Parser<'t> {
    /// The cursor stands on a token, the read position one past it, and
    /// the token count leaves room for the nesting arithmetic.
    spec fn wf(self) -> bool {
        self.cur < self.tokens@.len() && self.token_ptr == self.cur + 1 && self.tokens@.len()
            < 0x8000_0000
    }

    /// Moves the cursor to the next token that is not a comment, discarding
    /// ordinary comments and stopping the parse on a version comment
    /// announcing a version above 1.
    fn next(&mut self) -> (r: Result<(), Error>)
        requires
            old(self).token_ptr <= old(self).tokens@.len(),
            old(self).tokens@.len() < 0x8000_0000,
        ensures
            final (self).tokens == old(self).tokens,
            match spec_advance(views_of_tokens(old(self).tokens@), old(self).token_ptr as int) {
                Ok(q) => r is Ok && final (self).cur as int == q && final (self).wf() && old(
                    self,
                ).token_ptr <= final (self).cur,
                Err(e) => r matches Err(err) && err@ == e,
            },
    {
        let ghost ts = views_of_tokens(self.tokens@);
        let ghost p0 = self.token_ptr as int;
        loop
            invariant
                ts == views_of_tokens(self.tokens@),
                self.tokens == old(self).tokens,
                p0 == old(self).token_ptr as int,
                p0 <= self.token_ptr <= self.tokens@.len(),
                self.tokens@.len() < 0x8000_0000,
                spec_advance(ts, p0) == spec_advance(ts, self.token_ptr as int),
            decreases self.tokens@.len() - self.token_ptr,
        {
            if self.token_ptr >= self.tokens.len() {
                return Err(Error { line: 0, col: 0, reason: "Unexpected end of input" });
            }
            let toks = self.tokens;
            let tk = &toks[self.token_ptr];
            self.token_ptr = self.token_ptr + 1;
            match &tk.token {
                Token::Comment(cm) => {
                    match version_match(cm.as_slice()) {
                        None => {},
                        Some(v) => {
                            if v > 1 {
                                return Err(
                                    Error {
                                        line: tk.line,
                                        col: tk.col,
                                        reason: "Unsupported lockfile version",
                                    },
                                );
                            }
                        },
                    }
                },
                _ => {
                    self.cur = self.token_ptr - 1;
                    return Ok(());
                },
            }
        }
    }

    /// Parses the entries of one indentation level into an object, leaving
    /// the cursor on the token that ended the level. The result is exactly
    /// what [`spec_parse_level`] says, started with no entries gathered.
    #[verifier::rlimit(100)]
    fn parse(&mut self, indent: usize) -> (r: Result<Value, Error>)
        requires
            old(self).wf(),
            indent as int <= 2 * old(self).cur as int,
        ensures
            final (self).tokens == old(self).tokens,
            match spec_parse_level(
                views_of_tokens(old(self).tokens@),
                old(self).cur as int,
                indent as int,
                Seq::<(Seq<char>, SpecValue)>::empty(),
            ) {
                Ok(p) => r matches Ok(v) && v@ == SpecValue::Object(p.0) && final (self).wf()
                    && final (self).cur as int == p.1 && old(self).cur <= final (self).cur,
                Err(e) => r matches Err(err) && err@ == e,
            },
        decreases self.tokens@.len() - self.cur,
    {
        let ghost ts = views_of_tokens(self.tokens@);
        let ghost cur0 = self.cur as int;
        let ghost ind = indent as int;
        let ghost empty_acc = Seq::<(Seq<char>, SpecValue)>::empty();
        let toks = self.tokens;
        let mut map: Vec<(String, Value)> = Vec::new();
        proof {
            assert(spec_pairs_of(map@) =~= empty_acc);
        }
        loop
            invariant
                ts == views_of_tokens(self.tokens@),
                self.tokens == old(self).tokens,
                toks == self.tokens,
                self.wf(),
                cur0 == old(self).cur as int,
                ind == indent as int,
                cur0 <= self.cur as int,
                ind <= 2 * cur0,
                empty_acc == Seq::<(Seq<char>, SpecValue)>::empty(),
                spec_parse_level(ts, cur0, ind, empty_acc) == spec_parse_level(
                    ts,
                    self.cur as int,
                    ind,
                    spec_pairs_of(map@),
                ),
            decreases self.tokens@.len() - self.cur,
        {
            let ghost itc = self.cur as int;
            let ghost pre_pairs = spec_pairs_of(map@);
            let prop_line = toks[self.cur].line;
            let prop_col = toks[self.cur].col;
            match &toks[self.cur].token {
                Token::NewLine => {
                    match self.next() {
                        Ok(_) => {},
                        Err(e) => {
                            return Err(e);
                        },
                    }
                    if indent == 0 {
                        // at the root the token after a newline does not matter
                    } else {
                        let same_level = match &toks[self.cur].token {
                            Token::Indent(n) => *n == indent,
                            _ => false,
                        };
                        if same_level {
                            // the next key sits on this level
                            match self.next() {
                                Ok(_) => {},
                                Err(e) => {
                                    return Err(e);
                                },
                            }
                        } else {
                            // the block has ended; the token belongs to the
                            // enclosing level
                            return Ok(Value::Object(map));
                        }
                    }
                },
                Token::Indent(n) => {
                    if *n == indent {
                        match self.next() {
                            Ok(_) => {},
                            Err(e) => {
                                return Err(e);
                            },
                        }
                    } else {
                        return Ok(Value::Object(map));
                    }
                },
                Token::Eof => {
                    return Ok(Value::Object(map));
                },
                Token::Str(s) => {
                    let key = match unquote_string(s.as_slice()) {
                        Ok(k) => k,
                        Err(reason) => {
                            return Err(Error { line: prop_line, col: prop_col, reason });
                        },
                    };
                    if key.as_str().is_empty() {
                        return Err(
                            Error { line: prop_line, col: prop_col, reason: "Expected a key" },
                        );
                    }
                    let ghost k0v = key@;
                    let ghost entry_tok = s@;
                    let mut keys: Vec<String> = Vec::new();
                    keys.push(key);
                    proof {
                        assert(spec_key_views(keys@) =~= seq![k0v]);
                    }
                    match self.next() {
                        Ok(_) => {},
                        Err(e) => {
                            return Err(e);
                        },
                    }
                    let ghost kcur = self.cur as int;
                    loop
                        invariant
                            ts == views_of_tokens(self.tokens@),
                            self.tokens == old(self).tokens,
                            toks == self.tokens,
                            self.wf(),
                            cur0 == old(self).cur as int,
                            ind == indent as int,
                            empty_acc == Seq::<(Seq<char>, SpecValue)>::empty(),
                            ind <= 2 * cur0,
                            cur0 <= itc < kcur <= self.cur as int,
                            pre_pairs == spec_pairs_of(map@),
                            spec_parse_level(ts, cur0, ind, empty_acc) == spec_parse_level(
                                ts,
                                itc,
                                ind,
                                pre_pairs,
                            ),
                            ts[itc].token == SpecToken::Str(entry_tok),
                            spec_unquote_string(entry_tok) == Ok::<Seq<char>, Seq<char>>(k0v),
                            k0v.len() > 0,
                            spec_advance(ts, itc + 1) == Ok::<int, SpecError>(kcur),
                            keys@.len() >= 1,
                            spec_parse_keys(ts, kcur, seq![k0v]) == spec_parse_keys(
                                ts,
                                self.cur as int,
                                spec_key_views(keys@),
                            ),
                        ensures
                            ts == views_of_tokens(self.tokens@),
                            self.tokens == old(self).tokens,
                            toks == self.tokens,
                            self.wf(),
                            cur0 == old(self).cur as int,
                            ind == indent as int,
                            empty_acc == Seq::<(Seq<char>, SpecValue)>::empty(),
                            ind <= 2 * cur0,
                            cur0 <= itc < kcur <= self.cur as int,
                            pre_pairs == spec_pairs_of(map@),
                            spec_parse_level(ts, cur0, ind, empty_acc) == spec_parse_level(
                                ts,
                                itc,
                                ind,
                                pre_pairs,
                            ),
                            ts[itc].token == SpecToken::Str(entry_tok),
                            spec_unquote_string(entry_tok) == Ok::<Seq<char>, Seq<char>>(k0v),
                            k0v.len() > 0,
                            spec_advance(ts, itc + 1) == Ok::<int, SpecError>(kcur),
                            keys@.len() >= 1,
                            spec_parse_keys(ts, kcur, seq![k0v]) == Ok::<
                                (Seq<Seq<char>>, int),
                                SpecError,
                            >((spec_key_views(keys@), self.cur as int)),
                        decreases self.tokens@.len() - self.cur,
                    {
                        match &toks[self.cur].token {
                            Token::Comma => {
                                match self.next() {
                                    Ok(_) => {},
                                    Err(e) => {
                                        return Err(e);
                                    },
                                }
                                let key_line = toks[self.cur].line;
                                let key_col = toks[self.cur].col;
                                match &toks[self.cur].token {
                                    Token::Str(s2) => {
                                        let k2 = match unquote_string(s2.as_slice()) {
                                            Ok(k) => k,
                                            Err(reason) => {
                                                return Err(
                                                    Error { line: key_line, col: key_col, reason },
                                                );
                                            },
                                        };
                                        if k2.as_str().is_empty() {
                                            return Err(
                                                Error {
                                                    line: key_line,
                                                    col: key_col,
                                                    reason: "Expected a key",
                                                },
                                            );
                                        }
                                        let ghost k2v = k2@;
                                        proof {
                                            assert(spec_key_views(keys@.push(k2))
                                                =~= spec_key_views(keys@).push(k2v));
                                        }
                                        keys.push(k2);
                                        match self.next() {
                                            Ok(_) => {},
                                            Err(e) => {
                                                return Err(e);
                                            },
                                        }
                                    },
                                    _ => {
                                        return Err(
                                            Error {
                                                line: key_line,
                                                col: key_col,
                                                reason: "Expected string",
                                            },
                                        );
                                    },
                                }
                            },
                            _ => {
                                break ;
                            },
                        }
                    }
                    let ghost q2 = self.cur as int;
                    let ghost kvs = spec_key_views(keys@);
                    proof {
                        assert(ts[q2] == toks@[q2]@);
                    }
                    let was_colon = match &toks[self.cur].token {
                        Token::Colon => true,
                        _ => false,
                    };
                    if was_colon {
                        match self.next() {
                            Ok(_) => {},
                            Err(e) => {
                                return Err(e);
                            },
                        }
                    }
                    let ghost vpos = self.cur as int;
                    proof {
                        assert(ts[vpos] == toks@[vpos]@);
                    }
                    let val_line = toks[self.cur].line;
                    let val_col = toks[self.cur].col;
                    match &toks[self.cur].token {
                        Token::Str(u) => {
                            let sval = match unquote_string(u.as_slice()) {
                                Ok(sv) => sv,
                                Err(reason) => {
                                    proof {
                                        assert(spec_parse_keys(ts, kcur, seq![k0v]) == Ok::<
                                            (Seq<Seq<char>>, int),
                                            SpecError,
                                        >((kvs, q2)));
                                        assert(spec_parse_entry_value(
                                            ts,
                                            itc,
                                            q2,
                                            ind,
                                            pre_pairs,
                                            kvs,
                                        ) == Err::<(Seq<(Seq<char>, SpecValue)>, int), SpecError>(
                                            spec_perr(ts[vpos].line, ts[vpos].col, reason@),
                                        ));
                                    }
                                    return Err(Error { line: val_line, col: val_col, reason });
                                },
                            };
                            let shared = Value::Str(sval);
                            insert_all(&mut map, &keys, &shared);
                            match self.next() {
                                Ok(_) => {},
                                Err(e) => {
                                    return Err(e);
                                },
                            }
                        },
                        Token::Number(n) => {
                            let shared = Value::Number(*n);
                            insert_all(&mut map, &keys, &shared);
                            match self.next() {
                                Ok(_) => {},
                                Err(e) => {
                                    return Err(e);
                                },
                            }
                        },
                        Token::Bool(b) => {
                            let shared = Value::Boolean(*b);
                            insert_all(&mut map, &keys, &shared);
                            match self.next() {
                                Ok(_) => {},
                                Err(e) => {
                                    return Err(e);
                                },
                            }
                        },
                        _ => {
                            if was_colon {
                                let inner = match self.parse(indent + 2) {
                                    Ok(v) => v,
                                    Err(e) => {
                                        return Err(e);
                                    },
                                };
                                insert_all(&mut map, &keys, &inner);
                                let at_indent = match &toks[self.cur].token {
                                    Token::Indent(_) => true,
                                    _ => false,
                                };
                                if at_indent && indent == 0 {
                                    // a root-level indent after a nested
                                    // block closes the root loop
                                    return Ok(Value::Object(map));
                                }
                            } else {
                                let reason = unexpected_token_string(&toks[self.cur].token);
                                return Err(Error { line: val_line, col: val_col, reason });
                            }
                        },
                    }
                },
                _ => {
                    let reason = unexpected_token_string(&toks[self.cur].token);
                    return Err(Error { line: prop_line, col: prop_col, reason });
                },
            }
        }
    }
}

/// The token count of a lexed input stays within the input length plus the
/// end sentinel.
pub proof fn lemma_lex_count(s: Seq<u8>, line: int, col: int, lnl: bool)
    ensures
        spec_lex(s, line, col, lnl) matches Ok(ts) ==> ts.len() <= s.len() + 1,
    decreases s.len(),
{
    if s.len() == 0 {
    } else {
        let ch = s[0];
        if ch == crate::lexer::CR || ch == crate::lexer::LF {
            let chop: int = if s.len() > 1 && s[1] == crate::lexer::LF {
                2
            } else {
                1
            };
            lemma_lex_count(s.subrange(chop, s.len() as int), line + 1, 0, true);
        } else if ch == crate::lexer::HASH {
            let nnl = match crate::lexer::spec_index_of(s, 1, crate::lexer::LF) {
                Some(k) => k,
                None => s.len() as int,
            };
            if 1 <= nnl <= s.len() {
                lemma_lex_count(s.subrange(nnl, s.len() as int), line, col + nnl, false);
            }
        } else if ch == crate::lexer::SPACE {
            if lnl {
                let w = crate::lexer::spec_space_run(s, 0);
                if w % 2 == 0 && 1 <= w <= s.len() {
                    lemma_lex_count(s.subrange(w, s.len() as int), line, col + w, false);
                }
            } else {
                lemma_lex_count(s.subrange(1, s.len() as int), line, col + 1, false);
            }
        } else if ch == crate::lexer::QUOTE {
            match crate::lexer::spec_quoted_len(s) {
                Some(n) => {
                    if 1 <= n <= s.len() {
                        lemma_lex_count(s.subrange(n, s.len() as int), line, col + n, false);
                    }
                },
                None => {},
            }
        } else if ch == crate::lexer::COLON || ch == crate::lexer::COMMA {
            lemma_lex_count(s.subrange(1, s.len() as int), line, col + 1, false);
        } else if crate::lexer::spec_has_prefix(s, crate::lexer::spec_true_bytes()) {
            lemma_lex_count(s.subrange(4, s.len() as int), line, col + 4, false);
        } else if crate::lexer::spec_has_prefix(s, crate::lexer::spec_false_bytes()) {
            lemma_lex_count(s.subrange(5, s.len() as int), line, col + 5, false);
        } else if crate::lexer::spec_is_digit(ch) {
            let run = crate::lexer::spec_digit_run(s, 0);
            if 1 <= run <= s.len() {
                lemma_lex_count(s.subrange(run, s.len() as int), line, col + run, false);
            }
        } else if crate::lexer::spec_is_bare_start(ch) {
            let w = crate::lexer::spec_bare_run(s, 0);
            if 1 <= w <= s.len() {
                lemma_lex_count(s.subrange(w, s.len() as int), line, col + w, false);
            }
        } else {
            lemma_lex_count(s.subrange(1, s.len() as int), line, col + 1, false);
        }
    }
}

/// Law: parsing is a pure function of the input bytes. Two successful
/// parses of the same buffer return structurally equal value trees: the
/// parser keeps no state between calls. This holds because [`parse`]
/// promises its result's view equals `spec_parse` of the input.
pub proof fn lemma_reparse_equal(b: Seq<u8>, v1: Value, v2: Value)
    requires
        spec_parse(b) == Ok::<SpecValue, SpecError>(v1@),
        spec_parse(b) == Ok::<SpecValue, SpecError>(v2@),
    ensures
        v1@ == v2@,
{
}

/// Parse the input lockfile bytes into a [`Value`] document.
///
/// The input is tokenized and the root level is parsed at indent 0; a
/// lexing failure surfaces as a parse error carrying the same position and
/// reason. The result is exactly what [`spec_parse`] says.
///
/// # Errors
/// - [`Error`]: When parsing failed
pub fn parse(input: &[u8]) -> (r: Result<Value, Error>)
    requires
        input@.len() < 0x7fff_ffff,
    ensures
        match spec_parse(input@) {
            Ok(vm) => r matches Ok(v) && v@ == vm,
            Err(e) => r matches Err(pe) && pe@ == e,
        },
{
    let tokens = match tokenize(input) {
        Ok(t) => t,
        Err(e) => {
            return Err(Error { line: e.line, col: e.col, reason: e.reason });
        },
    };
    proof {
        lemma_lex_count(input@, 1, 0, true);
    }
    let mut parser = Parser { tokens: tokens.as_slice(), token_ptr: 0, cur: 0 };
    match parser.next() {
        Ok(_) => {},
        Err(e) => {
            return Err(e);
        },
    }
    parser.parse(0)
}

} // verus!
