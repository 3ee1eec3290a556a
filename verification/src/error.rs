//! The ways in which a program can be rejected or stopped.

use vstd::prelude::*;

verus! {

/// Every failure is final: nothing in the library retries.
#[derive(Clone, Copy, Debug, PartialEq, Eq, Structural)]
pub enum Error {
    /// The token stream ended while a loop was still open.
    MissingLoopDelimiter,
    /// A loop was closed where none was open.
    MissingLoopOpening,
    /// The pointer was asked to leave the tape, on either side.
    MemoryPointerOverflow,
    /// A cell that is no 7-bit ASCII code was to be written out.
    NonAsciiOutputValue,
}

} // verus!
