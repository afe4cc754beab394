//! What the last liveness scan found out about a segment.

use vstd::prelude::*;

verus! {

/// The stale items and bytes of a segment, as the last scan counted them.
#[derive(Clone, Copy, Debug, PartialEq, Eq, Structural)]
pub struct GcStats {
    /// Items that the index no longer points at
    pub stale_items: u64,
    /// Bytes of values that the index no longer points at
    pub stale_bytes: u64,
}

impl GcStats {
    /// Sets the amount of dead items in the segment
    pub fn set_stale_items(&mut self, x: u64)
        ensures
            final(self).stale_items == x,
            final(self).stale_bytes == old(self).stale_bytes,
    {
        self.stale_items = x;
    }

    /// Sets the amount of dead bytes in the segment
    pub fn set_stale_bytes(&mut self, x: u64)
        ensures
            final(self).stale_bytes == x,
            final(self).stale_items == old(self).stale_items,
    {
        self.stale_bytes = x;
    }

    /// Returns the amount of dead items in the segment
    pub fn stale_items(&self) -> (r: u64)
        ensures
            r == self.stale_items,
    {
        self.stale_items
    }

    /// Returns the amount of dead bytes in the segment
    pub fn stale_bytes(&self) -> (r: u64)
        ensures
            r == self.stale_bytes,
    {
        self.stale_bytes
    }
}

impl Default for GcStats {
    fn default() -> (r: Self)
        ensures
            r.stale_items == 0,
            r.stale_bytes == 0,
    {
        GcStats { stale_items: 0, stale_bytes: 0 }
    }
}

} // verus!
