//! The error values that the engine's fallible operations return.

use vstd::prelude::*;

verus! {

/// What can go wrong inside the engine: every fallible operation of the
/// library reports one of these.
#[derive(Debug, Clone, Copy, PartialEq, Eq, Structural)]
pub enum DbError {
    /// A buffer ended before the data it was supposed to hold.
    UnexpectedEof,
    /// A buffer held bytes that no valid encoding produces.
    InvalidData,
    /// An id was added to a registry that already holds it.
    DuplicateKey,
    /// A command frame named a family or operation that does not exist.
    UnrecognizedCmd,
    /// A write-ahead-log record could not be read back whole.
    ReplayFailed,
}

} // verus!
