//! The errors that the library reports.
use vstd::prelude::*;

verus! {

/// What went wrong while reading a byte stream.
#[derive(Debug, Clone, Copy, PartialEq, Eq, Structural)]
pub enum IoFailure {
    /// The stream ended before the value that was being read.
    UnexpectedEof,
}

/// Errors of index construction, search and persistence.
#[derive(Debug, Clone, Copy)]
pub enum RabitqError {
    /// A parameter of index construction is out of range.
    InvalidConfig(&'static str),
    /// Persisted bytes are not a well-formed index, manifest or segment.
    InvalidPersistence(&'static str),
    /// The index holds no vector.
    EmptyIndex,
    /// A vector does not have the dimension of the index.
    DimensionMismatch { expected: usize, got: usize },
    /// A byte stream could not be read.
    Io(IoFailure),
}

} // verus!
