//! An arithmetic expression pipeline: a lexer that turns a line of text into
//! tokens, a recursive-descent parser that turns the tokens into a tree, and
//! the grammar that the parser is proved against.

pub mod ast;
pub mod error;
pub mod grammar;
pub mod lexer;
pub mod parser;
