//! The compression that a value log applies to its values.

use vstd::prelude::*;

verus! {

/// Generic compression trait
///
/// What an implementation returns is its own affair: the value log states
/// its results over whatever bytes come back.
pub trait Compressor {
    /// Compresses a value
    fn compress(&self, bytes: &[u8]) -> crate::error::Result<Vec<u8>>;

    /// Decompresses a value
    fn decompress(&self, bytes: &[u8]) -> crate::error::Result<Vec<u8>>;
}

} // verus!
