//! Front end of a small expression language: a scanner that turns source
//! text into tokens, and a recursive-descent parser that turns tokens into a
//! syntax tree, collecting every syntax error it meets on the way.

pub mod ast;
pub mod context;
pub mod error;
pub mod parser;
pub mod scanner;
