//! The error taxonomy shared by every store operation, and the result
//! alias built on it.

use vstd::prelude::*;

verus! {

/// Everything that a store operation can report instead of succeeding.
///
/// The decode failures (`Unsupported`, `Oversized`, `Truncated`) follow the
/// record codec: an opcode outside the two known ones, a length field beyond
/// the sanity caps, or a record cut off by the end of the log.  `Eof` is the
/// clean stop condition when a sequential scan reaches the end of the log at
/// a record boundary.  `Usage` reports an append attempted while the log is
/// positioned for iteration.
#[derive(Debug, Clone, Copy, PartialEq, Eq, Structural)]
pub enum Error {
    /// Sequential read reached the end of the log at a record boundary.
    Eof,
    /// A record starts with an opcode that is neither insert nor remove.
    Unsupported,
    /// A length field exceeds the key or value sanity cap.
    Oversized,
    /// The log ends in the middle of a record.
    Truncated,
    /// An append was attempted while the log was positioned for iteration.
    Usage,
}

pub type Result<T> = core::result::Result<T, Error>;

} // verus!
