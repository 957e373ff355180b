use vstd::prelude::*;

use crate::scanner::{Token, TokenKind};

verus! {

/// A recoverable syntax error.
#[derive(Clone, Copy, PartialEq, Eq, Structural, Debug)]
pub enum CompileError {
    /// No declaration or expression starts at this token.
    ExpectedDeclaration,
    /// A specific token was required and another one was found.
    ExpectedButFound { expected: TokenKind, found: Token },
    /// An integer literal is not a run of digits whose value fits in a
    /// signed 32-bit integer.
    InvalidIntegerConstant { found: Token },
}

/// Every syntax error of a failed parse, in the order they were found.
#[derive(Debug)]
pub struct Diagnostic {
    pub compile_errors: Vec<CompileError>,
}

} // verus!
