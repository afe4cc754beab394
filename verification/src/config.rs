//! The configuration of a value log.

use crate::blob_cache::BlobCache;
use crate::compression::Compressor;
use vstd::prelude::*;

verus! {

/// The target size of a segment unless one is set: 128 MiB.
pub const DEFAULT_SEGMENT_SIZE: u64 = 134_217_728;

/// Value log configuration
pub struct Config<BC: BlobCache, C: Compressor + Clone> {
    /// Target size of vLog segments
    pub segment_size_bytes: u64,
    /// Blob cache to use
    pub blob_cache: BC,
    /// Compression to use
    pub compression: Option<C>,
}

impl<BC: BlobCache, C: Compressor + Clone> Config<BC, C> {
    /// Creates a new configuration builder: no compression, and segments
    /// of 128 MiB.
    pub fn new(blob_cache: BC) -> (r: Self)
        ensures
            r.blob_cache == blob_cache,
            r.compression is None,
            r.segment_size_bytes == DEFAULT_SEGMENT_SIZE,
    {
        Config { blob_cache, compression: None, segment_size_bytes: DEFAULT_SEGMENT_SIZE }
    }

    /// Sets the compression & decompression scheme.
    pub fn compression(self, compressor: Option<C>) -> (r: Self)
        ensures
            r.compression == compressor,
            r.blob_cache == self.blob_cache,
            r.segment_size_bytes == self.segment_size_bytes,
    {
        let mut config = self;
        config.compression = compressor;
        config
    }

    /// Sets the blob cache.
    ///
    /// You can create a global [`BlobCache`] and share it between multiple
    /// value logs to cap global cache memory usage.
    pub fn blob_cache(self, blob_cache: BC) -> (r: Self)
        ensures
            r.blob_cache == blob_cache,
            r.compression == self.compression,
            r.segment_size_bytes == self.segment_size_bytes,
    {
        let mut config = self;
        config.blob_cache = blob_cache;
        config
    }

    /// Sets the maximum size of value log segments.
    ///
    /// This heavily influences space amplification, as
    /// space reclamation works on a per-segment basis.
    pub fn segment_size_bytes(self, bytes: u64) -> (r: Self)
        ensures
            r.segment_size_bytes == bytes,
            r.blob_cache == self.blob_cache,
            r.compression == self.compression,
    {
        let mut config = self;
        config.segment_size_bytes = bytes;
        config
    }
}

} // verus!
