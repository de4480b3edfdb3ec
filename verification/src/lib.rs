//! Front end of a small expression language: a tokenizer that turns source
//! text into typed tokens with byte spans, and a precedence-climbing parser
//! that turns a token slice into an expression tree, recovering from
//! malformed input instead of stopping at the first error.
//!
//! - [`lexer`]: tokens, literals and lexical errors, and the tokenizer.
//! - [`rules`]: the lexical rules and maximal munch, as predicates on bytes.
//! - [`scan`]: the scanners that find the longest lexeme of each rule.
//! - [`number`] and [`escape`]: the values of integer literals and of string,
//!   character and byte literals.
//! - [`render`]: literals written out and read back by the tokenizer.
//! - [`gap`]: white space and comments between lexemes, which change no token.
//! - [`ast`]: expression trees and the parser.
//! - [`text`]: characters, bytes and boundaries in UTF-8 text.

pub mod ast;
pub mod escape;
pub mod gap;
pub mod lexer;
pub mod number;
pub mod render;
pub mod rules;
pub mod scan;
pub mod text;
