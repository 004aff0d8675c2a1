//! Errors that abort a run of the interpreter.

use vstd::prelude::*;

verus! {

/// What went wrong; every error ends the current run.
#[derive(Debug, Clone, PartialEq, Eq)]
pub enum Error {
    /// Input ended where a delimiter was required.
    UnexpectedEof,
    /// A token that is neither a word nor a number.
    UndefinedWord(Vec<char>),
    /// A malformed number literal.
    InvalidNumber,
    /// The stack held fewer values than a word needs.
    StackUnderflow,
    /// A stack value of another type than a word needs.
    TypeMismatch,
    /// A malformed bitstring literal.
    InvalidBitString,
    /// An integer outside the range that a word accepts.
    IntegerOutOfRange,
    /// `}` outside a block.
    NotCompiling,
    /// A bitstring that does not fit in a cell.
    CellOverflow,
    /// A division by zero.
    DivisionByZero,
}

} // verus!
