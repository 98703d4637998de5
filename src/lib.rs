//! A JSON lexer and recursive-descent parser.  Every token and every node of the tree
//! carries the byte span of the source text it came from.
//!
//! The lexer and the parser are each specified by a model (`lexer::lex`,
//! `parser::parse_document`) that their contracts follow exactly; `roundtrip` proves that
//! the text of a document scans and parses back to that document.

pub mod ast;
pub mod error;
pub mod lexer;
pub mod parser;
pub mod roundtrip;
pub mod tokens;
