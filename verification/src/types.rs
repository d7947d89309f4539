//! The errors that the storage operations return.

use vstd::prelude::*;

verus! {

/// The error type of the standard library's I/O operations. The library
/// carries such a value through and never looks inside it.
#[verifier::external_type_specification]
#[verifier::external_body]
pub struct ExIoError(std::io::Error);

/// Why a storage operation did not go through.
#[derive(Debug)]
pub enum Error {
    /// The file system failed.
    IOError(std::io::Error),
    /// The segment with this id has reached the ledger's size threshold.
    SegmentFull(u64),
    /// No record with this logical offset is in the index.
    OffsetOutOfRange(u64),
}

pub type Result<T> = std::result::Result<T, Error>;

impl Error {
    /// Whether this error is the policy rejection of a write to a full
    /// segment.
    pub fn is_segment_full(&self) -> (res: bool)
        ensures
            res == (self is SegmentFull),
    {
        match self {
            Error::SegmentFull(_) => true,
            _ => false,
        }
    }

    /// Whether this error reports a lookup beyond the indexed offsets.
    pub fn is_offset_out_of_range(&self) -> (res: bool)
        ensures
            res == (self is OffsetOutOfRange),
    {
        match self {
            Error::OffsetOutOfRange(_) => true,
            _ => false,
        }
    }
}

impl std::convert::From<std::io::Error> for Error {
    fn from(e: std::io::Error) -> (res: Error) {
        Error::IOError(e)
    }
}

impl vstd::std_specs::convert::FromSpecImpl<std::io::Error> for Error {
    open spec fn obeys_from_spec() -> bool {
        true
    }

    open spec fn from_spec(e: std::io::Error) -> Error {
        Error::IOError(e)
    }
}

} // verus!
