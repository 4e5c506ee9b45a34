//! The ways in which an evaluation fails.

use vstd::prelude::*;

verus! {

/// Why an evaluation stopped without a value.
#[derive(Debug, Clone, Copy, PartialEq, Eq, Structural)]
pub enum ParseError {
    /// The input ran out while a token was still expected.
    Eof,
    /// A character fits no form of the grammar at the place where it stands.
    UnexpectedError,
    /// A function was applied before any function was defined.
    UnboundApplication,
    /// The right operand of a division was zero.
    DivisionByZero,
    /// Function bodies were entered more deeply than the caller allowed.
    DepthExceeded,
}

} // verus!
