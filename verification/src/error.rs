//! Error kinds produced by the streaming core.
use vstd::prelude::*;

verus! {

/// Every failure the core reports. Validation failures carry the offending
/// value; storage failures carry a backend-specific code.
#[derive(Clone, Copy, Debug, PartialEq, Eq, Structural)]
pub enum Error {
    /// Framing or parse failure in a command codec.
    InvalidCommand,
    /// Partition count outside the accepted range.
    TooManyPartitions,
    /// Attempt to store a consumer offset above the partition's current offset.
    InvalidOffset(u64),
    /// Append to a closed segment: carries the segment's start offset and the
    /// partition id.
    SegmentClosed(u64, u32),
    /// A configuration validator rejected a value.
    InvalidConfiguration,
    /// Requested cache size exceeds physical memory: carries the requested
    /// size and the total memory, both in bytes.
    CacheConfigValidationFailure(u64, u64),
    /// A storage backend failure, with a backend-specific code.
    Io(u32),
    /// Operation aborted by the cancellation signal.
    Cancelled,
}

impl Error {
    /// Machine-readable status code; the wire layer maps codes one-to-one to
    /// error kinds, with zero reserved for success.
    pub fn code(&self) -> (r: u32)
        ensures
            r == self.spec_code(),
            r != 0,
    {
        match self {
            Error::InvalidCommand => 1,
            Error::TooManyPartitions => 2,
            Error::InvalidOffset(_) => 3,
            Error::SegmentClosed(_, _) => 4,
            Error::InvalidConfiguration => 5,
            Error::CacheConfigValidationFailure(_, _) => 6,
            Error::Io(_) => 7,
            Error::Cancelled => 8,
        }
    }

    pub open spec fn spec_code(&self) -> u32 {
        match self {
            Error::InvalidCommand => 1,
            Error::TooManyPartitions => 2,
            Error::InvalidOffset(_) => 3,
            Error::SegmentClosed(_, _) => 4,
            Error::InvalidConfiguration => 5,
            Error::CacheConfigValidationFailure(_, _) => 6,
            Error::Io(_) => 7,
            Error::Cancelled => 8,
        }
    }
}

} // verus!
