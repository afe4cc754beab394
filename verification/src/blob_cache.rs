//! The cache of values that were read from disk.

use crate::handle::ValueHandle;
use crate::value::UserValue;
use vstd::prelude::*;

verus! {

/// Unique value log ID
pub type ValueLogId = u64;

/// Blob cache, in which blobs are cached in-memory
/// after being retrieved from disk
///
/// This speeds up consecutive accesses to the same blobs, improving
/// read performance for hot data.
pub trait BlobCache: Clone {
    /// Caches a blob.
    fn insert(&self, vlog_id: ValueLogId, vhandle: &ValueHandle, value: UserValue);

    /// Retrieves a blob from the cache, or `None` if it could not be found.
    fn get(&self, vlog_id: ValueLogId, vhandle: &ValueHandle) -> Option<UserValue>;
}

} // verus!
