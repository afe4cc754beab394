//! What a liveness scan found out about a value log.

use crate::manifest::space_amp_of;
use crate::manifest::stale_ratio_of;
use crate::ratio::Ratio;
use vstd::prelude::*;

verus! {

/// Statistics report for garbage collection
#[derive(Clone, Copy, Debug, PartialEq, Eq, Structural)]
pub struct GcReport {
    /// Segment count
    pub segment_count: usize,
    /// Segments that have no more incoming references, and can be safely removed
    pub stale_segment_count: usize,
    /// Amount of stored bytes
    pub total_bytes: u64,
    /// Amount of bytes that could be freed
    pub stale_bytes: u64,
    /// Number of stored blobs
    pub total_blobs: u64,
    /// Number of blobs that could be freed
    pub stale_blobs: u64,
}

impl GcReport {
    /// Returns the space amplification: all bytes over the live ones, and 0
    /// where there are no bytes or no live ones.
    pub fn space_amp(&self) -> (r: Ratio)
        ensures
            r == space_amp_of(self.total_bytes, self.stale_bytes),
    {
        if self.total_bytes == 0 || self.stale_bytes >= self.total_bytes {
            return Ratio::new(0, 1);
        }
        Ratio::new(self.total_bytes, self.total_bytes - self.stale_bytes)
    }

    /// Returns the share of stale bytes: 0 where there are no bytes or no
    /// stale ones.
    pub fn stale_ratio(&self) -> (r: Ratio)
        ensures
            r == stale_ratio_of(self.total_bytes, self.stale_bytes),
    {
        if self.total_bytes == 0 || self.stale_bytes == 0 {
            return Ratio::new(0, 1);
        }
        Ratio::new(self.stale_bytes, self.total_bytes)
    }
}

} // verus!
