//! A parser for the yarn lockfile text format: a YAML-like,
//! indentation-structured, newline-delimited format recording resolved
//! dependency versions.
//!
//! The pipeline has two stages, consumed strictly in order: a byte-level
//! lexer ([`lexer::tokenize`]) that turns raw input into a flat sequence of
//! positioned tokens, and an indentation-sensitive recursive-descent parser
//! ([`parser::parse`]) that turns the token sequence into a nested key/value
//! document. Both are pure functions of the input bytes, and both are
//! specified against recursive interpreter functions over the input; the
//! executable code is proved to return exactly what those interpreters say.

pub mod lexer;
pub mod parser;
pub mod tokens;
pub mod unquote;
