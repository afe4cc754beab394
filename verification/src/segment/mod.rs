//! Segments: the blob files of a value log.

pub mod gc_stats;
pub mod merge;
pub mod meta;
pub mod multi_writer;
pub mod reader;
pub mod trailer;
pub mod writer;

use crate::compression::Compressor;
use crate::id::SegmentId;
use crate::ratio::Ratio;
use crate::segment::gc_stats::GcStats;
use crate::segment::meta::Metadata;
use crate::segment::meta::MetadataView;
use crate::segment::reader::Reader;
use crate::segment::reader::ReaderView;
use vstd::prelude::*;

verus! {

/// A disk segment is an immutable, sorted, contiguous file
/// that contains key-value pairs.
#[derive(Debug)]
pub struct Segment {
    /// Segment ID
    pub id: SegmentId,
    /// Segment statistics
    pub meta: Metadata,
    /// Runtime stats for garbage collection
    pub gc_stats: GcStats,
}

/// What a `Segment` holds, as plain values.
pub struct SegmentView {
    pub id: SegmentId,
    pub meta: MetadataView,
    pub gc_stats: GcStats,
}

impl SegmentView {
    /// Whether the segment is fully stale: no item of it is referenced.
    pub open spec fn is_stale(self) -> bool {
        self.gc_stats.stale_items == self.meta.item_count
    }

    /// The segment with every item and every byte marked as stale.
    pub open spec fn marked_stale(self) -> SegmentView {
        SegmentView {
            gc_stats: GcStats {
                stale_items: self.meta.item_count,
                stale_bytes: self.meta.total_uncompressed_bytes,
            },
            ..self
        }
    }

    /// The share of stale items: 0 where none is stale, else the stale items
    /// over all items.
    pub open spec fn stale_ratio(self) -> Ratio {
        if self.gc_stats.stale_items == 0 {
            Ratio::zero()
        } else {
            Ratio { num: self.gc_stats.stale_items, den: self.meta.item_count }
        }
    }
}

impl View for Segment {
    type V = SegmentView;

    open spec fn view(&self) -> SegmentView {
        SegmentView { id: self.id, meta: self.meta@, gc_stats: self.gc_stats }
    }
}

impl Clone for Segment {
    fn clone(&self) -> (r: Self)
        ensures
            r@ == self@,
    {
        Segment { id: self.id, meta: self.meta.clone(), gc_stats: self.gc_stats }
    }
}

impl Segment {
    /// Returns a scanner that can iterate through the segment, given the
    /// bytes of its file.
    pub fn scan<'a, C: Compressor>(&self, data: &'a [u8]) -> (r: Reader<'a, C>)
        ensures
            r@ == (ReaderView {
                segment_id: self.id,
                source: data@,
                position: 0,
                terminated: false,
                compressed: false,
            }),
    {
        Reader::new(data, self.id)
    }

    /// Always returns `false` because a segment is never empty.
    pub fn is_empty(&self) -> (r: bool)
        ensures
            !r,
    {
        false
    }

    /// Returns the amount of items in the segment.
    pub fn len(&self) -> (r: u64)
        ensures
            r == self@.meta.item_count,
    {
        self.meta.item_count
    }

    /// Marks the segment as fully stale.
    pub fn mark_as_stale(&mut self)
        ensures
            final(self)@ == old(self)@.marked_stale(),
    {
        self.gc_stats.set_stale_items(self.meta.item_count);
        self.gc_stats.set_stale_bytes(self.meta.total_uncompressed_bytes);
    }

    /// Returns `true` if the segment is fully stale.
    pub fn is_stale(&self) -> (r: bool)
        ensures
            r == self@.is_stale(),
    {
        self.gc_stats.stale_items() == self.meta.item_count
    }

    /// Returns the share of dead items in the segment.
    pub fn stale_ratio(&self) -> (r: Ratio)
        ensures
            r == self@.stale_ratio(),
    {
        let dead: u64 = self.gc_stats.stale_items();
        if dead == 0 {
            return Ratio::new(0, 1);
        }
        Ratio::new(dead, self.meta.item_count)
    }
}

} // verus!
