//! The lexical token model shared by the lexer and the parser.
//!
//! A [`Token`] is one classified lexical unit; a [`TokenWrapper`] adds the
//! 1-based line and 0-based column of the token's first byte. Executable
//! tokens own copies of their lexeme bytes; their mathematical views
//! ([`SpecToken`], [`SpecTokenWrapper`]) carry the same data as sequences
//! and unbounded integers.

use vstd::prelude::*;

verus! {

/// One lexical unit of the lockfile format.
#[derive(Debug, Clone, PartialEq)]
pub enum Token {
    /// The literal `true` or `false`.
    Bool(bool),
    /// Either a JSON-double-quoted run (quotes included) or a bare run of
    /// identifier-like bytes.
    Str(Vec<u8>),
    /// A run of ASCII digits, read as an integer.
    Number(i64),
    /// A run of spaces at the start of a line; the payload is the run length.
    Indent(usize),
    /// The bytes following `#`, up to but excluding the next line feed.
    Comment(Vec<u8>),
    /// Sentinel appended exactly once at the end of the token sequence.
    Eof,
    Colon,
    NewLine,
    /// A byte matching no other class; parsing it later is always an error.
    Invalid,
    Comma,
}

/// The mathematical view of a [`Token`].
pub enum SpecToken {
    Bool(bool),
    Str(Seq<u8>),
    Number(int),
    Indent(int),
    Comment(Seq<u8>),
    Eof,
    Colon,
    NewLine,
    Invalid,
    Comma,
}

impl View for Token {
    type V = SpecToken;

    open spec fn view(&self) -> SpecToken {
        match self {
            Token::Bool(b) => SpecToken::Bool(*b),
            Token::Str(s) => SpecToken::Str(s@),
            Token::Number(n) => SpecToken::Number(*n as int),
            Token::Indent(w) => SpecToken::Indent(*w as int),
            Token::Comment(c) => SpecToken::Comment(c@),
            Token::Eof => SpecToken::Eof,
            Token::Colon => SpecToken::Colon,
            Token::NewLine => SpecToken::NewLine,
            Token::Invalid => SpecToken::Invalid,
            Token::Comma => SpecToken::Comma,
        }
    }
}

/// A token together with the position of its first byte: `line` is 1-based,
/// `col` is 0-based and reset at every newline.
#[derive(Debug, Clone, PartialEq)]
pub struct TokenWrapper {
    pub col: i32,
    pub line: i32,
    pub token: Token,
}

/// The mathematical view of a [`TokenWrapper`].
pub struct SpecTokenWrapper {
    pub col: int,
    pub line: int,
    pub token: SpecToken,
}

impl View for TokenWrapper {
    type V = SpecTokenWrapper;

    open spec fn view(&self) -> SpecTokenWrapper {
        SpecTokenWrapper { col: self.col as int, line: self.line as int, token: self.token@ }
    }
}

/// The views of a sequence of positioned tokens, in order.
pub open spec fn views_of_tokens(ts: Seq<TokenWrapper>) -> Seq<SpecTokenWrapper> {
    ts.map_values(|t: TokenWrapper| t@)
}

} // verus!
