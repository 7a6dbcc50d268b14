use vstd::prelude::*;

use crate::event::ExpectedVersion;

verus! {

/// The error kinds that the store distinguishes.
#[derive(Debug, Clone, PartialEq, Eq)]
pub enum Error {
    /// Bad magic or unknown format version in the log file header.
    InvalidHeader(String),
    /// A checksum mismatch or a malformed field inside a record.
    CorruptRecord { position: u64, detail: String },
    /// The optimistic-concurrency precondition of an append did not hold;
    /// `actual` is the stream's current version, `None` for a stream
    /// without events.
    WrongExpectedVersion { expected: ExpectedVersion, actual: Option<u64> },
    /// The request itself is malformed (for example an empty batch).
    InvalidArgument(String),
    /// A subscriber fell behind the broker's buffer and lost events.
    DataLoss(String),
}

} // verus!
