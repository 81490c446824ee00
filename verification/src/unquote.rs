//! String unquoting: bare strings are validated as text and returned
//! unchanged; JSON-style double-quoted strings are decoded, escape
//! sequences included.

use vstd::prelude::*;

verus! {

use vstd::utf8::valid_utf8;
use vstd::utf8::decode_utf8;
use vstd::utf8::is_scalar;
use crate::lexer::QUOTE;

/// Relies on std::str::from_utf8: it succeeds exactly on valid UTF-8 input,
/// and the returned string reads back the decoded scalar values.
#[verifier::external_body]
pub(crate) fn str_from_utf8(v: &[u8]) -> (r: Option<&str>)
    ensures
        r is Some <==> valid_utf8(v@),
        r matches Some(s) ==> s@ == decode_utf8(v@),
{
    std::str::from_utf8(v).ok()
}

/// Relies on str::chars: it yields the characters of the string, in order.
#[verifier::external_body]
pub(crate) fn chars_of(s: &str) -> (r: Vec<char>)
    ensures
        r@ == s@,
{
    s.chars().collect()
}

/// Relies on String's FromIterator: collecting characters builds the string
/// holding exactly those characters, in order.
#[verifier::external_body]
fn string_from_chars(v: &Vec<char>) -> (r: String)
    ensures
        r@ == v@,
{
    v.iter().collect()
}

/// Relies on char::from_u32: it succeeds exactly on Unicode scalar values,
/// and the returned character carries the given code.
#[verifier::external_body]
fn char_from_u32(c: u32) -> (r: Option<char>)
    ensures
        r is Some <==> is_scalar(c),
        r matches Some(ch) ==> ch as u32 == c,
{
    char::from_u32(c)
}

/// The character written by a single-character escape sequence, or `None`
/// when the escape is not recognised.
pub open spec fn spec_escape_char(e: char) -> Option<char> {
    if e == '"' {
        Some('"')
    } else if e == '\\' {
        Some('\\')
    } else if e == '/' {
        Some('/')
    } else if e == 'b' {
        Some('\u{8}')
    } else if e == 'f' {
        Some('\u{c}')
    } else if e == 'n' {
        Some('\n')
    } else if e == 'r' {
        Some('\r')
    } else if e == 't' {
        Some('\t')
    } else {
        None
    }
}

/// The value of one hexadecimal digit, either case.
pub open spec fn spec_hex_val(c: char) -> Option<int> {
    if '0' <= c <= '9' {
        Some(c as u32 - 48)
    } else if 'a' <= c <= 'f' {
        Some(c as u32 - 87)
    } else if 'A' <= c <= 'F' {
        Some(c as u32 - 55)
    } else {
        None
    }
}

/// The value of the four hexadecimal digits of `s` starting at `i`.
pub open spec fn spec_hex4(s: Seq<char>, i: int) -> Option<int> {
    match (spec_hex_val(s[i]), spec_hex_val(s[i + 1]), spec_hex_val(s[i + 2]), spec_hex_val(
        s[i + 3],
    )) {
        (Some(h0), Some(h1), Some(h2), Some(h3)) => Some(((h0 * 16 + h1) * 16 + h2) * 16 + h3),
        _ => None,
    }
}

/// Prepends one decoded character when the rest decodes.
pub open spec fn spec_unq_cons(c: char, rest: Option<Seq<char>>) -> Option<Seq<char>> {
    match rest {
        Some(t) => Some(seq![c] + t),
        None => None,
    }
}

/// The decoded content of the quoted string `s` from position `i` (inside
/// the quotes) up to the next unescaped closing quote; `None` when an
/// escape is malformed or the closing quote is missing. Characters after
/// the closing quote are ignored.
pub open spec fn spec_unquote_rest(s: Seq<char>, i: int) -> Option<Seq<char>>
    decreases s.len() - i,
{
    if i < 0 || i >= s.len() {
        None
    } else if s[i] == '"' {
        Some(Seq::empty())
    } else if s[i] == '\\' {
        if i + 1 >= s.len() {
            None
        } else if s[i + 1] == 'u' {
            if i + 6 > s.len() {
                None
            } else {
                match spec_hex4(s, i + 2) {
                    Some(code) => if is_scalar(code as u32) {
                        spec_unq_cons((code as u32) as char, spec_unquote_rest(s, i + 6))
                    } else {
                        None
                    },
                    None => None,
                }
            }
        } else {
            match spec_escape_char(s[i + 1]) {
                Some(c) => spec_unq_cons(c, spec_unquote_rest(s, i + 2)),
                None => None,
            }
        }
    } else {
        spec_unq_cons(s[i], spec_unquote_rest(s, i + 1))
    }
}

/// The decoded content of a whole JSON-quoted character sequence: it must
/// begin with a double quote, and its body must decode.
pub open spec fn spec_unquote_json(s: Seq<char>) -> Option<Seq<char>> {
    if s.len() == 0 || s[0] != '"' {
        None
    } else {
        spec_unquote_rest(s, 1)
    }
}

/// [`spec_unquote_json`] applied to the text read from raw bytes; bytes
/// that are not UTF-8 never decode.
pub open spec fn spec_unquote_json_bytes(b: Seq<u8>) -> Option<Seq<char>> {
    if valid_utf8(b) {
        spec_unquote_json(decode_utf8(b))
    } else {
        None
    }
}

/// What unquoting a raw lexeme returns: quoted lexemes are decoded, bare
/// lexemes are validated as UTF-8 and returned unchanged; the error says
/// which of the two failed.
pub open spec fn spec_unquote_string(b: Seq<u8>) -> Result<Seq<char>, Seq<char>> {
    if b.len() > 0 && b[0] == QUOTE {
        match spec_unquote_json_bytes(b) {
            Some(t) => Ok(t),
            None => Err("Invalid JSON string"@),
        }
    } else {
        if valid_utf8(b) {
            Ok(decode_utf8(b))
        } else {
            Err("Invalid UTF-8 string"@)
        }
    }
}

/// Appends already decoded characters in front of the rest of a decode.
pub open spec fn spec_unq_combine(acc: Seq<char>, rest: Option<Seq<char>>) -> Option<Seq<char>> {
    match rest {
        Some(t) => Some(acc + t),
        None => None,
    }
}

/// Moving a freshly decoded character from the front of the remainder to
/// the back of the accumulator keeps the combined result unchanged.
proof fn lemma_unq_combine_push(acc: Seq<char>, c: char, rest: Option<Seq<char>>)
    ensures
        spec_unq_combine(acc, spec_unq_cons(c, rest)) == spec_unq_combine(acc.push(c), rest),
{
    match rest {
        Some(t) => {
            assert(acc + (seq![c] + t) =~= acc.push(c) + t);
        },
        None => {},
    }
}

/// The value of one hexadecimal digit, either case.
fn hex_val(c: char) -> (r: Option<u32>)
    ensures
        match r {
            Some(h) => spec_hex_val(c) == Some(h as int) && h < 16,
            None => spec_hex_val(c) is None,
        },
{
    if c >= '0' && c <= '9' {
        Some(c as u32 - 48)
    } else if c >= 'a' && c <= 'f' {
        Some(c as u32 - 87)
    } else if c >= 'A' && c <= 'F' {
        Some(c as u32 - 55)
    } else {
        None
    }
}

/// The character written by a single-character escape sequence.
fn escape_char(e: char) -> (r: Option<char>)
    ensures
        r == spec_escape_char(e),
{
    if e == '"' {
        Some('"')
    } else if e == '\\' {
        Some('\\')
    } else if e == '/' {
        Some('/')
    } else if e == 'b' {
        Some('\u{8}')
    } else if e == 'f' {
        Some('\u{c}')
    } else if e == 'n' {
        Some('\n')
    } else if e == 'r' {
        Some('\r')
    } else if e == 't' {
        Some('\t')
    } else {
        None
    }
}

/// Decodes a JSON-style double-quoted lexeme, escape sequences included;
/// `None` when the bytes are not UTF-8, do not open with a quote, hold a
/// malformed escape, or never close the quote.
pub fn unquote_json_string(input: &[u8]) -> (r: Option<String>)
    ensures
        match spec_unquote_json_bytes(input@) {
            Some(t) => r matches Some(s) && s@ == t,
            None => r is None,
        },
{
    let st = match str_from_utf8(input) {
        Some(s) => s,
        None => {
            return None;
        },
    };
    let cs = chars_of(st);
    if cs.len() == 0 {
        return None;
    }
    if cs[0] != '"' {
        return None;
    }
    let mut out: Vec<char> = Vec::new();
    let mut i: usize = 1;
    while i < cs.len()
        invariant
            1 <= i <= cs@.len(),
            valid_utf8(input@),
            cs@ == decode_utf8(input@),
            cs@.len() > 0,
            cs@[0] == '"',
            spec_unquote_rest(cs@, 1) == spec_unq_combine(out@, spec_unquote_rest(cs@, i as int)),
        decreases cs@.len() - i,
    {
        let c = cs[i];
        if c == '"' {
            proof {
                assert(out@ + Seq::<char>::empty() =~= out@);
            }
            return Some(string_from_chars(&out));
        } else if c == '\\' {
            if i + 1 >= cs.len() {
                return None;
            }
            let e = cs[i + 1];
            if e == 'u' {
                if cs.len() < 6 || i > cs.len() - 6 {
                    return None;
                }
                let h0 = match hex_val(cs[i + 2]) {
                    Some(h) => h,
                    None => {
                        return None;
                    },
                };
                let h1 = match hex_val(cs[i + 3]) {
                    Some(h) => h,
                    None => {
                        return None;
                    },
                };
                let h2 = match hex_val(cs[i + 4]) {
                    Some(h) => h,
                    None => {
                        return None;
                    },
                };
                let h3 = match hex_val(cs[i + 5]) {
                    Some(h) => h,
                    None => {
                        return None;
                    },
                };
                let code = ((h0 * 16 + h1) * 16 + h2) * 16 + h3;
                let ch = match char_from_u32(code) {
                    Some(ch) => ch,
                    None => {
                        return None;
                    },
                };
                proof {
                    vstd::utf8::char_u32_cast(ch, code);
                    assert(ch == (code as u32) as char);
                    lemma_unq_combine_push(out@, ch, spec_unquote_rest(cs@, i + 6));
                }
                out.push(ch);
                i = i + 6;
            } else {
                let dec = match escape_char(e) {
                    Some(d) => d,
                    None => {
                        return None;
                    },
                };
                proof {
                    lemma_unq_combine_push(out@, dec, spec_unquote_rest(cs@, i + 2));
                }
                out.push(dec);
                i = i + 2;
            }
        } else {
            proof {
                lemma_unq_combine_push(out@, c, spec_unquote_rest(cs@, i + 1));
            }
            out.push(c);
            i = i + 1;
        }
    }
    None
}

/// The escape sequence, or the character itself, that writes `c` inside a
/// JSON-quoted literal: quote, backslash and the five named control
/// characters are escaped, everything else stands for itself.
pub open spec fn spec_quote_char(c: char) -> Seq<char> {
    if c == '"' {
        seq!['\\', '"']
    } else if c == '\\' {
        seq!['\\', '\\']
    } else if c == '\u{8}' {
        seq!['\\', 'b']
    } else if c == '\u{c}' {
        seq!['\\', 'f']
    } else if c == '\n' {
        seq!['\\', 'n']
    } else if c == '\r' {
        seq!['\\', 'r']
    } else if c == '\t' {
        seq!['\\', 't']
    } else {
        seq![c]
    }
}

/// The body of the JSON-quoted form of `s`: each character in turn, escaped
/// where needed.
pub open spec fn spec_quote_body(s: Seq<char>) -> Seq<char>
    decreases s.len(),
{
    if s.len() == 0 {
        Seq::empty()
    } else {
        spec_quote_char(s[0]) + spec_quote_body(s.subrange(1, s.len() as int))
    }
}

/// The JSON-quoted form of `s`: the escaped body between double quotes.
pub open spec fn spec_json_quote(s: Seq<char>) -> Seq<char> {
    seq!['"'] + spec_quote_body(s) + seq!['"']
}

/// Decoding from position `i` of a string whose remaining characters are an
/// escaped body followed by the closing quote recovers the body's original
/// characters.
proof fn lemma_unquote_body(full: Seq<char>, i: int, s: Seq<char>)
    requires
        0 <= i <= full.len(),
        full.subrange(i, full.len() as int) == spec_quote_body(s) + seq!['"'],
    ensures
        spec_unquote_rest(full, i) == Some(s),
    decreases s.len(),
{
    let tail = full.subrange(i, full.len() as int);
    if s.len() == 0 {
        assert(full[i] == tail[0]);
        assert(spec_unquote_rest(full, i) == Some(Seq::<char>::empty()));
        assert(Seq::<char>::empty() =~= s);
    } else {
        let c = s[0];
        let rest = s.subrange(1, s.len() as int);
        let e = spec_quote_char(c);
        assert(tail =~= e + (spec_quote_body(rest) + seq!['"']));
        if e.len() == 2 {
            assert(full[i] == tail[0] && tail[0] == '\\');
            assert(full[i + 1] == tail[1] && tail[1] == e[1]);
            assert(e[1] != 'u');
            assert(spec_escape_char(e[1]) == Some(c));
            assert(full.subrange(i + 2, full.len() as int) =~= tail.subrange(
                2,
                tail.len() as int,
            ));
            assert(tail.subrange(2, tail.len() as int) =~= spec_quote_body(rest) + seq!['"']);
            lemma_unquote_body(full, i + 2, rest);
            assert(seq![c] + rest =~= s);
        } else {
            assert(full[i] == tail[0] && tail[0] == c);
            assert(c != '"' && c != '\\');
            assert(full.subrange(i + 1, full.len() as int) =~= tail.subrange(
                1,
                tail.len() as int,
            ));
            assert(tail.subrange(1, tail.len() as int) =~= spec_quote_body(rest) + seq!['"']);
            lemma_unquote_body(full, i + 1, rest);
            assert(seq![c] + rest =~= s);
        }
    }
}

/// Law: quoting round-trips. Writing any character sequence as a
/// JSON-quoted literal and decoding it again gives back exactly the
/// original sequence, for every Unicode scalar value and in particular the
/// quote, backslash, slash and the named control characters.
pub proof fn lemma_quote_round_trip(s: Seq<char>)
    ensures
        spec_unquote_json(spec_json_quote(s)) == Some(s),
{
    let full = spec_json_quote(s);
    assert(full[0] == '"');
    assert(full.len() >= 2);
    assert(full.subrange(1, full.len() as int) =~= spec_quote_body(s) + seq!['"']);
    lemma_unquote_body(full, 1, s);
}

/// Unquotes a raw lexeme: a lexeme opening with a double quote is decoded
/// as a JSON string; any other lexeme is validated as UTF-8 text and
/// returned unchanged.
pub fn unquote_string(input: &[u8]) -> (r: Result<String, &'static str>)
    ensures
        match spec_unquote_string(input@) {
            Ok(t) => r matches Ok(s) && s@ == t,
            Err(m) => r matches Err(e) && e@ == m,
        },
{
    if input.len() > 0 && input[0] == QUOTE {
        match unquote_json_string(input) {
            Some(s) => Ok(s),
            None => Err("Invalid JSON string"),
        }
    } else {
        match str_from_utf8(input) {
            Some(s) => Ok(s.to_owned()),
            None => Err("Invalid UTF-8 string"),
        }
    }
}

} // verus!
