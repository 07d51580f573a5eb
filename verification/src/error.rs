//! Parse failures: an offset into the input and the kind of mismatch.

use vstd::prelude::*;

verus! {

/// The three ways a parse attempt can fail.
#[derive(Debug, Clone, Copy, PartialEq, Eq, Structural)]
pub enum ErrorKind {
    /// A parser required more characters than remained.
    UnexpectedEnd,
    /// An expected token (a literal, a digit, a quote, a separator) was not
    /// found at the current position, or an integer literal does not fit in
    /// a signed 64-bit integer.
    LiteralMismatch,
    /// An object held zero key-value pairs, or an array or object was not
    /// closed by its delimiter.
    StructuralMismatch,
}

/// A parse failure.  `pos` is the character offset at which the failing
/// expectation was made; the cursor handed to the failing parser is left at
/// its original position.
#[derive(Debug, Clone, Copy, PartialEq, Eq, Structural)]
pub struct ParseError {
    pub pos: usize,
    pub kind: ErrorKind,
}

} // verus!
