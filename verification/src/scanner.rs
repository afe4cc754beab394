//! The liveness scan: what the index still points at, counted by segment.

use crate::error::Error;
use crate::handle::ValueHandle;
use crate::id::SegmentId;
use std::collections::BTreeMap;
use vstd::prelude::*;

verus! {

broadcast use {vstd::laws_cmp::group_laws_cmp, vstd::std_specs::btree::group_btree_axioms};

/// What the index points at in one segment.
#[derive(Clone, Copy, Debug, PartialEq, Eq, Structural)]
pub struct SegmentCounter {
    /// The sum of the sizes of the values, which stops at the greatest `u64`
    pub size: u64,
    /// The number of the values, which stops at the greatest `u64`
    pub item_count: u64,
}

impl Default for SegmentCounter {
    fn default() -> (r: Self)
        ensures
            r == (SegmentCounter { size: 0, item_count: 0 }),
    {
        SegmentCounter { size: 0, item_count: 0 }
    }
}

/// The counters of a scan, by segment.
pub type SizeMap = BTreeMap<SegmentId, SegmentCounter>;

/// A sum of two counts that stops at the greatest `u64`.
pub open spec fn add_clamped(a: u64, b: u64) -> u64 {
    if a + b > u64::MAX {
        u64::MAX
    } else {
        (a + b) as u64
    }
}

/// The counters after one more value of `size` bytes was seen in the
/// segment `id`.
pub open spec fn observed(map: Map<SegmentId, SegmentCounter>, id: SegmentId, size: u32) -> Map<
    SegmentId,
    SegmentCounter,
> {
    if map.contains_key(id) {
        map.insert(
            id,
            SegmentCounter {
                size: add_clamped(map[id].size, size as u64),
                item_count: add_clamped(map[id].item_count, 1),
            },
        )
    } else {
        map.insert(id, SegmentCounter { size: size as u64, item_count: 1 })
    }
}

/// The counters after the values of `items` were seen, the first one first.
pub open spec fn scanned(map: Map<SegmentId, SegmentCounter>, items: Seq<(ValueHandle, u32)>) -> Map<
    SegmentId,
    SegmentCounter,
>
    decreases items.len(),
{
    if items.len() == 0 {
        map
    } else {
        observed(scanned(map, items.drop_last()), items.last().0.segment_id, items.last().1)
    }
}

/// The counters with which a scan of the segments `ids` starts: one for
/// each, and nothing counted.
pub open spec fn initial_counters(ids: Seq<SegmentId>) -> Map<SegmentId, SegmentCounter> {
    Map::new(|id: SegmentId| ids.contains(id), |id: SegmentId| SegmentCounter { size: 0, item_count: 0 })
}

/// A scan of one more segment starts with one more counter.
pub proof fn lemma_initial_counters_push(ids: Seq<SegmentId>, id: SegmentId)
    ensures
        initial_counters(ids.push(id)) == initial_counters(ids).insert(
            id,
            SegmentCounter { size: 0, item_count: 0 },
        ),
{
    assert forall|x: SegmentId| #[trigger] ids.push(id).contains(x) <==> ids.contains(x) || x == id by {
        vstd::seq_lib::lemma_seq_contains_after_push(ids, id, x);
    }
    assert(initial_counters(ids.push(id)) =~= initial_counters(ids).insert(
        id,
        SegmentCounter { size: 0, item_count: 0 },
    ));
}

/// The entries before the first one at which the index failed.
pub open spec fn entries_read(entries: Seq<std::io::Result<(ValueHandle, u32)>>) -> Seq<
    (ValueHandle, u32),
>
    decreases entries.len(),
{
    if entries.len() == 0 {
        Seq::empty()
    } else {
        match entries[0] {
            Ok(pair) => seq![pair] + entries_read(entries.skip(1)),
            Err(_) => Seq::empty(),
        }
    }
}

/// Whether the index failed at one of the entries.
pub open spec fn index_failed(entries: Seq<std::io::Result<(ValueHandle, u32)>>) -> bool {
    exists|i: int| 0 <= i < entries.len() && (#[trigger] entries[i]) is Err
}

/// The counter of a segment, if the scan has one for it.
pub fn counter_of(size_map: &SizeMap, id: SegmentId) -> (r: Option<SegmentCounter>)
    ensures
        match r {
            Some(counter) => size_map@.contains_key(id) && size_map@[id] == counter,
            None => !size_map@.contains_key(id),
        },
{
    match size_map.get(&id) {
        Some(counter) => Some(*counter),
        None => None,
    }
}

/// Scans a value log, building a size map for the GC report
pub struct Scanner {
    size_map: SizeMap,
}

impl View for Scanner {
    type V = Map<SegmentId, SegmentCounter>;

    closed spec fn view(&self) -> Map<SegmentId, SegmentCounter> {
        self.size_map@
    }
}

impl Scanner {
    /// Starts a scan of the segments `ids`: each gets a counter, with
    /// nothing counted.
    pub fn new(ids: &[SegmentId]) -> (r: Self)
        ensures
            r@ == initial_counters(ids@),
    {
        let mut size_map: SizeMap = BTreeMap::new();
        let mut i: usize = 0;
        while i < ids.len()
            invariant
                i <= ids@.len(),
                size_map@ == initial_counters(ids@.take(i as int)),
            decreases ids@.len() - i,
        {
            proof {
                lemma_initial_counters_push(ids@.take(i as int), ids@[i as int]);
                assert(ids@.take(i + 1) =~= ids@.take(i as int).push(ids@[i as int]));
            }
            size_map.insert(ids[i], SegmentCounter::default());
            i = i + 1;
        }
        assert(ids@.take(i as int) =~= ids@);
        Scanner { size_map }
    }

    /// Ends the scan and hands out its counters.
    pub fn finish(self) -> (r: SizeMap)
        ensures
            r@ == self@,
    {
        self.size_map
    }

    /// Counts one value of `size` bytes that the index points at.
    pub fn observe(&mut self, vhandle: &ValueHandle, size: u32)
        ensures
            final(self)@ == observed(old(self)@, vhandle.segment_id, size),
    {
        let counter = match self.size_map.get(&vhandle.segment_id) {
            Some(counter) => SegmentCounter {
                size: counter.size.saturating_add(size as u64),
                item_count: counter.item_count.saturating_add(1),
            },
            None => SegmentCounter { size: size as u64, item_count: 1 },
        };
        self.size_map.insert(vhandle.segment_id, counter);
    }

    /// Counts the values that the index points at, one entry after the
    /// other. At the first entry at which the index failed the scan stops
    /// with an I/O error, and has counted the entries before it.
    pub fn scan(&mut self, entries: &[std::io::Result<(ValueHandle, u32)>]) -> (r: Result<(), Error>)
        ensures
            final(self)@ == scanned(old(self)@, entries_read(entries@)),
            match r {
                Ok(_) => !index_failed(entries@),
                Err(e) => index_failed(entries@) && e is Io,
            },
    {
        let ghost start = self@;
        let mut i: usize = 0;
        assert(entries@.skip(0) =~= entries@);
        let ghost mut read: Seq<(ValueHandle, u32)> = Seq::empty();
        while i < entries.len()
            invariant
                i <= entries@.len(),
                start == old(self)@,
                forall|j: int| 0 <= j < i ==> (#[trigger] entries@[j]) is Ok,
                entries_read(entries@) == read + entries_read(entries@.skip(i as int)),
                self@ == scanned(start, read),
            decreases entries@.len() - i,
        {
            assert(entries@.skip(i as int)[0] == entries@[i as int]);
            assert(entries@.skip(i as int).skip(1) =~= entries@.skip(i + 1));
            match &entries[i] {
                Ok((vhandle, size)) => {
                    self.observe(vhandle, *size);
                    proof {
                        let next = read.push((*vhandle, *size));
                        assert(next.drop_last() =~= read);
                        assert(read + (seq![(*vhandle, *size)] + entries_read(
                            entries@.skip(i + 1),
                        )) =~= next + entries_read(entries@.skip(i + 1)));
                        read = next;
                    }
                },
                Err(_) => {
                    assert(entries@[i as int] is Err);
                    assert(entries_read(entries@.skip(i as int)) =~= Seq::<
                        (ValueHandle, u32),
                    >::empty());
                    assert(read + Seq::<(ValueHandle, u32)>::empty() =~= read);
                    return Err(Error::Io(crate::coding::io_error("Index returned error")));
                },
            }
            i = i + 1;
        }
        assert(read + Seq::<(ValueHandle, u32)>::empty() =~= read);
        Ok(())
    }
}

} // verus!
