//! Front end of a small expression language: a lambda calculus with
//! arithmetic, boolean operators, numeric literals, assignments and line
//! comments. Source text is turned into tokens, tokens into a syntax tree,
//! and failures into located, renderable diagnostics.
pub mod ast;
pub mod error;
pub mod grammar;
pub mod lexer;
pub mod lexer_error;
pub mod parser;
pub mod parser_error;
pub mod render;
pub mod source;
pub mod span;
pub mod text;
pub mod token;
