//! Front end for a small expression-oriented language: a lexer, an
//! extensible-operator precedence-climbing parser, and the abstract syntax
//! tree they produce.

pub mod ast;
pub mod lexer;
pub mod parser;
