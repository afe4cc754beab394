//! The errors of the value log.

use crate::coding::DecodeError;
use crate::coding::EncodeError;
use crate::version::Version;
use vstd::prelude::*;

verus! {

/// Represents errors that can occur in the value log
#[derive(Debug)]
#[non_exhaustive]
pub enum Error {
    /// I/O error
    Io(std::io::Error),
    /// Invalid data format version
    InvalidVersion(Option<Version>),
    /// Serialization failed
    Encode(EncodeError),
    /// Deserialization failed
    Decode(DecodeError),
    /// Compression failed
    Compress,
    /// Decompression failed
    Decompress,
    /// The manifest lists a segment that cannot be loaded
    Unrecoverable,
}

impl From<std::io::Error> for Error {
    fn from(value: std::io::Error) -> (r: Self) {
        Error::Io(value)
    }
}

impl vstd::std_specs::convert::FromSpecImpl<std::io::Error> for Error {
    open spec fn obeys_from_spec() -> bool {
        true
    }

    open spec fn from_spec(v: std::io::Error) -> Self {
        Error::Io(v)
    }
}

impl From<EncodeError> for Error {
    fn from(value: EncodeError) -> (r: Self) {
        Error::Encode(value)
    }
}

impl vstd::std_specs::convert::FromSpecImpl<EncodeError> for Error {
    open spec fn obeys_from_spec() -> bool {
        true
    }

    open spec fn from_spec(v: EncodeError) -> Self {
        Error::Encode(v)
    }
}

impl From<DecodeError> for Error {
    fn from(value: DecodeError) -> (r: Self) {
        Error::Decode(value)
    }
}

impl vstd::std_specs::convert::FromSpecImpl<DecodeError> for Error {
    open spec fn obeys_from_spec() -> bool {
        true
    }

    open spec fn from_spec(v: DecodeError) -> Self {
        Error::Decode(v)
    }
}

/// Value log result
pub type Result<T> = std::result::Result<T, Error>;

} // verus!
