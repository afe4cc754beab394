//! The merge of several blob files into one stream, sorted by key.

use crate::coding::Fault;
use crate::compression::Compressor;
use crate::error::Error;
use crate::id::SegmentId;
use crate::segment::reader::parse_record;
use crate::segment::reader::Reader;
use crate::segment::reader::ReaderView;
use crate::segment::reader::RecordView;
use crate::segment::reader::Scan;
use crate::value::UserKey;
use crate::value::UserValue;
use vstd::multiset::Multiset;
use vstd::prelude::*;

verus! {

/// An item of the heap: a key, the rank of its segment among segments with
/// that key, and the place of its reader.
pub type HeapItem = (Seq<u8>, u64, usize);

/// Whether `a` comes before `b` or is `b`, byte by byte: the order of byte
/// strings.
pub open spec fn bytes_le(a: Seq<u8>, b: Seq<u8>) -> bool
    decreases a.len(),
{
    if a.len() == 0 {
        true
    } else if b.len() == 0 {
        false
    } else {
        a[0] < b[0] || (a[0] == b[0] && bytes_le(a.skip(1), b.skip(1)))
    }
}

/// Whether `a` comes before `b` or is `b`: by the key, then by the rank,
/// then by the place. This is the order that the standard library gives
/// to tuples of a byte vector and two integers, by which the heap goes.
pub open spec fn item_le(a: HeapItem, b: HeapItem) -> bool {
    if a.0 != b.0 {
        bytes_le(a.0, b.0)
    } else if a.1 != b.1 {
        a.1 < b.1
    } else {
        a.2 <= b.2
    }
}

/// Two byte strings that come before each other are one.
pub proof fn lemma_bytes_le_antisymmetric(a: Seq<u8>, b: Seq<u8>)
    requires
        bytes_le(a, b),
        bytes_le(b, a),
    ensures
        a == b,
    decreases a.len(),
{
    if a.len() == 0 || b.len() == 0 {
        assert(a =~= b);
    } else {
        lemma_bytes_le_antisymmetric(a.skip(1), b.skip(1));
        assert(a =~= seq![a[0]] + a.skip(1));
        assert(b =~= seq![b[0]] + b.skip(1));
    }
}

/// Of two byte strings one comes before the other.
pub proof fn lemma_bytes_le_total(a: Seq<u8>, b: Seq<u8>)
    ensures
        bytes_le(a, b) || bytes_le(b, a),
    decreases a.len(),
{
    if a.len() > 0 && b.len() > 0 {
        lemma_bytes_le_total(a.skip(1), b.skip(1));
    }
}

/// The order of byte strings is transitive.
pub proof fn lemma_bytes_le_transitive(a: Seq<u8>, b: Seq<u8>, c: Seq<u8>)
    requires
        bytes_le(a, b),
        bytes_le(b, c),
    ensures
        bytes_le(a, c),
    decreases a.len(),
{
    if a.len() > 0 && b.len() > 0 && c.len() > 0 {
        if a[0] == b[0] && b[0] == c[0] {
            lemma_bytes_le_transitive(a.skip(1), b.skip(1), c.skip(1));
        }
    }
}

/// The heap of the `interval_heap` crate over tuples of a key, a rank and
/// a place; opaque to the proofs.
#[verifier::external_body]
pub struct MergeHeap {
    inner: interval_heap::IntervalHeap<(Vec<u8>, u64, usize)>,
}

/// The items that a heap holds.
pub uninterp spec fn heap_items(heap: MergeHeap) -> Multiset<HeapItem>;

/// Calls `IntervalHeap::with_capacity`: an empty heap.
#[verifier::external_body]
fn heap_with_capacity(capacity: usize) -> (r: MergeHeap)
    ensures
        heap_items(r) == Multiset::<HeapItem>::empty(),
{
    MergeHeap { inner: interval_heap::IntervalHeap::with_capacity(capacity) }
}

/// Calls `IntervalHeap::is_empty`: whether the heap holds no item.
#[verifier::external_body]
fn heap_is_empty(heap: &MergeHeap) -> (r: bool)
    ensures
        r == (heap_items(*heap).len() == 0),
{
    heap.inner.is_empty()
}

/// Calls `IntervalHeap::push`: the heap holds one more item.
#[verifier::external_body]
fn heap_push(heap: &mut MergeHeap, key: Vec<u8>, rank: u64, place: usize)
    ensures
        heap_items(*final(heap)) == heap_items(*old(heap)).insert((key@, rank, place)),
{
    heap.inner.push((key, rank, place))
}

/// Calls `IntervalHeap::pop_min`: an empty heap gives nothing and stays;
/// else one of the items that come before all others leaves the heap and
/// is handed out.
#[verifier::external_body]
fn heap_pop_min(heap: &mut MergeHeap) -> (r: Option<(Vec<u8>, u64, usize)>)
    ensures
        match r {
            Some(item) => {
                let found = (item.0@, item.1, item.2);
                &&& heap_items(*old(heap)).contains(found)
                &&& heap_items(*final(heap)) == heap_items(*old(heap)).remove(found)
                &&& forall|other: HeapItem| #[trigger]
                    heap_items(*old(heap)).contains(other) ==> item_le(found, other)
            },
            None => heap_items(*old(heap)).len() == 0 && heap_items(*final(heap)) == heap_items(
                *old(heap),
            ),
        },
{
    heap.inner.pop_min()
}

/// One entry of a merge: a record, and the segment that it comes from.
pub struct EntryView {
    pub key: Seq<u8>,
    /// The value as it is stored
    pub value: Seq<u8>,
    pub segment_id: SegmentId,
    pub checksum: u64,
}

/// What is left of one blob file in a merge: the records that have not
/// been handed out, and what ends them where it is not the metadata
/// block.
pub struct Lane {
    pub entries: Seq<EntryView>,
    pub fault: Option<Fault>,
}

/// The records that can be read from `position` on, up to the metadata
/// block or to what cannot be read.
pub open spec fn records_from(source: Seq<u8>, position: nat) -> Seq<RecordView>
    decreases source.len() - position,
{
    match parse_record(source.skip(position as int)) {
        Scan::Record(record, len) => if position < source.len() && len > 0 {
            seq![record] + records_from(source, position + len)
        } else {
            Seq::empty()
        },
        _ => Seq::empty(),
    }
}

/// What ends the records that can be read from `position` on, where it is
/// not the metadata block.
pub open spec fn fault_from(source: Seq<u8>, position: nat) -> Option<Fault>
    decreases source.len() - position,
{
    match parse_record(source.skip(position as int)) {
        Scan::Record(record, len) => if position < source.len() && len > 0 {
            fault_from(source, position + len)
        } else {
            None
        },
        Scan::End => None,
        Scan::Failed(fault) => Some(fault),
    }
}

/// The entry that a record of a segment makes.
pub open spec fn entry_of(record: RecordView, segment_id: SegmentId) -> EntryView {
    EntryView { key: record.key, value: record.value, segment_id, checksum: record.checksum }
}

/// What a reader has left to give.
pub open spec fn lane_of(reader: ReaderView) -> Lane {
    if reader.terminated {
        Lane { entries: Seq::empty(), fault: None }
    } else {
        Lane {
            entries: records_from(reader.source, reader.position).map_values(
                |r: RecordView| entry_of(r, reader.segment_id),
            ),
            fault: fault_from(reader.source, reader.position),
        }
    }
}

/// The rank of a segment among the segments that hold a key: the newest
/// segment, which has the greatest ID, has the smallest rank.
spec fn rank_of(segment_id: SegmentId) -> u64 {
    (u64::MAX - segment_id) as u64
}

/// The heap item that stands for the first entry of the lane at `place`.
spec fn front_item(lanes: Seq<Lane>, place: int) -> HeapItem {
    (
        lanes[place].entries[0].key,
        rank_of(lanes[place].entries[0].segment_id),
        place as usize,
    )
}

/// Whether the first entry of the lane at `a` comes before that of the
/// lane at `b`, or is it: by the key, then the newest segment first, then
/// the lane of the lowest place.
pub open spec fn front_le(lanes: Seq<Lane>, a: int, b: int) -> bool {
    let x = lanes[a].entries[0];
    let y = lanes[b].entries[0];
    if x.key != y.key {
        bytes_le(x.key, y.key)
    } else if x.segment_id != y.segment_id {
        x.segment_id > y.segment_id
    } else {
        a <= b
    }
}

/// Whether the lane at `place` has an entry, and its first entry comes
/// before the first entry of every other lane.
pub open spec fn is_best(lanes: Seq<Lane>, place: int) -> bool {
    &&& 0 <= place < lanes.len()
    &&& lanes[place].entries.len() > 0
    &&& forall|other: int|
        0 <= other < lanes.len() && (#[trigger] lanes[other]).entries.len() > 0 ==> front_le(
            lanes,
            place,
            other,
        )
}

/// Whether a lane has an entry.
pub open spec fn any_entry(lanes: Seq<Lane>) -> bool {
    exists|i: int| 0 <= i < lanes.len() && (#[trigger] lanes[i]).entries.len() > 0
}

/// The place of the lane whose first entry comes first.
pub open spec fn best(lanes: Seq<Lane>) -> int {
    choose|place: int| is_best(lanes, place)
}

/// At most one lane is the best one.
pub proof fn lemma_best_unique(lanes: Seq<Lane>, a: int, b: int)
    requires
        is_best(lanes, a),
        is_best(lanes, b),
    ensures
        a == b,
{
    assert(front_le(lanes, a, b) && front_le(lanes, b, a));
    if lanes[a].entries[0].key != lanes[b].entries[0].key {
        lemma_bytes_le_antisymmetric(lanes[a].entries[0].key, lanes[b].entries[0].key);
    }
}

/// Whether a lane stalls: it has no entry left, and what ends it is not
/// the metadata block.
pub open spec fn stalled(lane: Lane) -> bool {
    lane.entries.len() == 0 && lane.fault is Some
}

/// Whether `e` is the error of a reader that has found `fault`: an I/O
/// error for a record that is cut off, and else the decoding error that
/// names the fault.
pub open spec fn told(e: Error, fault: Fault) -> bool {
    match fault {
        Fault::Truncated => e is Io,
        _ => e matches Error::Decode(d) && d.fault() == fault,
    }
}

/// Whether `e` is the error of one of the lanes: of what ends its
/// records.
pub open spec fn failed_with(lanes: Seq<Lane>, e: Error) -> bool {
    exists|i: int|
        {
            &&& 0 <= i < lanes.len()
            &&& (#[trigger] lanes[i]).fault matches Some(f) && told(e, f)
        }
}

/// Whether the lanes end as the lanes `first` do, one by one.
pub open spec fn same_faults(lanes: Seq<Lane>, first: Seq<Lane>) -> bool {
    &&& lanes.len() == first.len()
    &&& forall|i: int| 0 <= i < lanes.len() ==> (#[trigger] lanes[i]).fault == first[i].fault
}

/// The lanes with the first entry of the lane at `place` taken away.
pub open spec fn without_front(lanes: Seq<Lane>, place: int) -> Seq<Lane> {
    lanes.update(place, Lane { entries: lanes[place].entries.skip(1), ..lanes[place] })
}

/// The number of the entries of all lanes.
pub open spec fn entry_count(lanes: Seq<Lane>) -> nat
    decreases lanes.len(),
{
    if lanes.len() == 0 {
        0
    } else {
        entry_count(lanes.drop_last()) + lanes.last().entries.len()
    }
}

/// Taking the first entry of a lane away leaves one entry less.
pub proof fn lemma_without_front_count(lanes: Seq<Lane>, place: int)
    requires
        0 <= place < lanes.len(),
        lanes[place].entries.len() > 0,
    ensures
        entry_count(without_front(lanes, place)) + 1 == entry_count(lanes),
    decreases lanes.len(),
{
    let after = without_front(lanes, place);
    if place == lanes.len() - 1 {
        assert(after.drop_last() =~= lanes.drop_last());
    } else {
        lemma_without_front_count(lanes.drop_last(), place);
        assert(after.drop_last() =~= without_front(lanes.drop_last(), place));
    }
}

/// The lanes after the entries with `key` that come first were passed
/// over, one after the other, as long as one of them is the best entry.
/// There are none where a lane stalls on the way.
pub open spec fn settled(lanes: Seq<Lane>, key: Seq<u8>) -> Option<Seq<Lane>>
    decreases entry_count(lanes),
    via settled_ends
{
    if any_entry(lanes) && is_best(lanes, best(lanes)) && lanes[best(lanes)].entries[0].key == key {
        let place = best(lanes);
        let rest = without_front(lanes, place);
        if stalled(rest[place]) {
            None
        } else {
            settled(rest, key)
        }
    } else {
        Some(lanes)
    }
}

#[via_fn]
proof fn settled_ends(lanes: Seq<Lane>, key: Seq<u8>) {
    if any_entry(lanes) && is_best(lanes, best(lanes)) {
        lemma_without_front_count(lanes, best(lanes));
    }
}

/// What one step of a merge gives.
pub enum Step {
    /// No lane has an entry left
    Done,
    /// The next entry, and the lanes after it
    Yield(EntryView, Seq<Lane>),
    /// A lane has stalled
    Failed,
}

/// One step of a merge: where a lane has stalled the merge fails; where
/// no lane has an entry it is done. Else the best entry is handed out, and
/// the entries with its key that then come first are passed over.
pub open spec fn step(lanes: Seq<Lane>) -> Step {
    if exists|i: int| 0 <= i < lanes.len() && stalled(#[trigger] lanes[i]) {
        Step::Failed
    } else if !any_entry(lanes) {
        Step::Done
    } else {
        let place = best(lanes);
        let head = lanes[place].entries[0];
        let rest = without_front(lanes, place);
        if stalled(rest[place]) {
            Step::Failed
        } else {
            match settled(rest, head.key) {
                Some(after) => Step::Yield(head, after),
                None => Step::Failed,
            }
        }
    }
}

/// Passing entries over leaves as many lanes, and no more entries.
pub proof fn lemma_settled_count(lanes: Seq<Lane>, key: Seq<u8>)
    ensures
        settled(lanes, key) matches Some(after) ==> after.len() == lanes.len() && entry_count(
            after,
        ) <= entry_count(lanes),
    decreases entry_count(lanes),
{
    if any_entry(lanes) && is_best(lanes, best(lanes)) && lanes[best(lanes)].entries[0].key == key {
        let place = best(lanes);
        let rest = without_front(lanes, place);
        lemma_without_front_count(lanes, place);
        if !stalled(rest[place]) {
            lemma_settled_count(rest, key);
        }
    }
}

/// A step that hands out an entry leaves as many lanes, and fewer entries.
pub proof fn lemma_step_count(lanes: Seq<Lane>)
    ensures
        step(lanes) matches Step::Yield(_, after) ==> after.len() == lanes.len() && entry_count(
            after,
        ) < entry_count(lanes),
{
    if step(lanes) is Yield {
        lemma_best_exists(lanes);
        let place = best(lanes);
        let rest = without_front(lanes, place);
        lemma_without_front_count(lanes, place);
        lemma_settled_count(rest, lanes[place].entries[0].key);
    }
}

/// Where a lane has an entry, one lane is the best one.
pub proof fn lemma_best_exists(lanes: Seq<Lane>)
    requires
        any_entry(lanes),
    ensures
        is_best(lanes, best(lanes)),
    decreases lanes.len(),
{
    let head = lanes.drop_last();
    let last = lanes.len() - 1;
    if any_entry(head) {
        lemma_best_exists(head);
        let b = best(head);
        assert(head[b] == lanes[b]);
        if lanes[last].entries.len() > 0 && !front_le(lanes, b, last) {
            lemma_front_le_total(lanes, b, last);
            assert forall|other: int|
                0 <= other < lanes.len() && (#[trigger] lanes[other]).entries.len()
                    > 0 implies front_le(lanes, last, other) by {
                if other < last {
                    assert(head[other] == lanes[other]);
                    assert(front_le(head, b, other));
                    lemma_front_le_transitive(lanes, last, b, other);
                } else {
                    lemma_front_le_total(lanes, last, last);
                }
            }
            assert(is_best(lanes, last));
        } else {
            assert forall|other: int|
                0 <= other < lanes.len() && (#[trigger] lanes[other]).entries.len()
                    > 0 implies front_le(lanes, b, other) by {
                if other < last {
                    assert(head[other] == lanes[other]);
                    assert(front_le(head, b, other));
                }
            }
            assert(is_best(lanes, b));
        }
    } else {
        let i = choose|i: int| 0 <= i < lanes.len() && (#[trigger] lanes[i]).entries.len() > 0;
        if i < last {
            assert(head[i] == lanes[i]);
            assert(false);
        }
        assert forall|other: int|
            0 <= other < lanes.len() && (#[trigger] lanes[other]).entries.len() > 0 implies front_le(
            lanes,
            last,
            other,
        ) by {
            if other < last {
                assert(head[other] == lanes[other]);
                assert(false);
            }
            lemma_front_le_total(lanes, last, last);
        }
        assert(is_best(lanes, last));
    }
}

/// Of the first entries of two lanes one comes before the other.
pub proof fn lemma_front_le_total(lanes: Seq<Lane>, a: int, b: int)
    ensures
        front_le(lanes, a, b) || front_le(lanes, b, a),
{
    lemma_bytes_le_total(lanes[a].entries[0].key, lanes[b].entries[0].key);
}

/// The order of the first entries is transitive.
pub proof fn lemma_front_le_transitive(lanes: Seq<Lane>, a: int, b: int, c: int)
    requires
        front_le(lanes, a, b),
        front_le(lanes, b, c),
    ensures
        front_le(lanes, a, c),
{
    let x = lanes[a].entries[0].key;
    let y = lanes[b].entries[0].key;
    let z = lanes[c].entries[0].key;
    if x != y && y != z {
        lemma_bytes_le_transitive(x, y, z);
        if x == z {
            lemma_bytes_le_antisymmetric(x, y);
        }
    }
}

/// Whether `a` comes before `b` and is not `b`.
pub open spec fn bytes_lt(a: Seq<u8>, b: Seq<u8>) -> bool {
    bytes_le(a, b) && a != b
}

/// The entry at place `i` of the lane at place `l`.
pub open spec fn entry_at(lanes: Seq<Lane>, l: int, i: int) -> EntryView {
    lanes[l].entries[i]
}

/// Whether `(l, i)` is the place of an entry.
pub open spec fn is_place(lanes: Seq<Lane>, l: int, i: int) -> bool {
    0 <= l < lanes.len() && 0 <= i < lanes[l].entries.len()
}

/// Whether the keys of a lane ascend: each key comes once, behind the
/// smaller ones.
pub open spec fn ascending(lane: Lane) -> bool {
    forall|i: int, j: int|
        0 <= i < j < lane.entries.len() ==> bytes_lt(
            (#[trigger] lane.entries[i]).key,
            (#[trigger] lane.entries[j]).key,
        )
}

/// Whether every lane is that of a sorted file that can be read to its
/// end: its keys ascend, and the metadata block ends it.
pub open spec fn sorted_lanes(lanes: Seq<Lane>) -> bool {
    forall|l: int|
        0 <= l < lanes.len() ==> (#[trigger] lanes[l]).fault is None && ascending(lanes[l])
}

/// Whether no key of the lanes comes before `key`.
pub open spec fn all_from(lanes: Seq<Lane>, key: Seq<u8>) -> bool {
    forall|l: int, i: int|
        is_place(lanes, l, i) ==> bytes_le(key, (#[trigger] entry_at(lanes, l, i)).key)
}

/// Whether every key of the lanes comes behind `key`.
pub open spec fn all_behind(lanes: Seq<Lane>, key: Seq<u8>) -> bool {
    forall|l: int, i: int|
        is_place(lanes, l, i) ==> bytes_lt(key, (#[trigger] entry_at(lanes, l, i)).key)
}

/// A lane without its first entry, where that entry has the key `key`.
pub open spec fn strip(lane: Lane, key: Seq<u8>) -> Lane {
    if lane.entries.len() > 0 && lane.entries[0].key == key {
        Lane { entries: lane.entries.skip(1), ..lane }
    } else {
        lane
    }
}

/// The lanes without their first entries with the key `key`.
pub open spec fn stripped(lanes: Seq<Lane>, key: Seq<u8>) -> Seq<Lane> {
    lanes.map_values(|lane: Lane| strip(lane, key))
}

/// Whether `e` is an entry of a lane.
pub open spec fn is_entry(lanes: Seq<Lane>, e: EntryView) -> bool {
    exists|l: int, i: int| is_place(lanes, l, i) && #[trigger] entry_at(lanes, l, i) == e
}

/// Whether `out` holds an entry with the key of `e`, from a segment whose
/// ID is not smaller than that of `e`.
pub open spec fn is_covered(out: Seq<EntryView>, e: EntryView) -> bool {
    exists|a: int|
        0 <= a < out.len() && (#[trigger] out[a]).key == e.key && out[a].segment_id >= e.segment_id
}

/// All the entries that a merge hands out, in their order. There are none
/// where the merge fails.
pub open spec fn merged(lanes: Seq<Lane>) -> Option<Seq<EntryView>>
    decreases entry_count(lanes),
    via merged_ends
{
    match step(lanes) {
        Step::Done => Some(Seq::empty()),
        Step::Failed => None,
        Step::Yield(entry, after) => match merged(after) {
            Some(rest) => Some(seq![entry] + rest),
            None => None,
        },
    }
}

#[via_fn]
proof fn merged_ends(lanes: Seq<Lane>) {
    lemma_step_count(lanes);
}

/// The first entry of the best lane has the smallest key of all.
pub proof fn lemma_best_is_least(lanes: Seq<Lane>, place: int)
    requires
        sorted_lanes(lanes),
        is_best(lanes, place),
    ensures
        all_from(lanes, lanes[place].entries[0].key),
{
    let key = lanes[place].entries[0].key;
    assert forall|l: int, i: int| is_place(lanes, l, i) implies bytes_le(
        key,
        (#[trigger] entry_at(lanes, l, i)).key,
    ) by {
        let front = lanes[l].entries[0].key;
        assert(front_le(lanes, place, l));
        lemma_bytes_le_total(key, key);
        assert(bytes_le(key, front));
        if i > 0 {
            assert(bytes_lt(lanes[l].entries[0].key, lanes[l].entries[i].key));
            lemma_bytes_le_transitive(key, front, lanes[l].entries[i].key);
        }
    }
}

/// The number of the entries of all lanes is 0 exactly where no lane has
/// an entry.
pub proof fn lemma_entry_count_zero(lanes: Seq<Lane>)
    ensures
        entry_count(lanes) == 0 <==> !any_entry(lanes),
    decreases lanes.len(),
{
    if lanes.len() > 0 {
        let head = lanes.drop_last();
        lemma_entry_count_zero(head);
        if any_entry(lanes) {
            let i = choose|i: int| 0 <= i < lanes.len() && (#[trigger] lanes[i]).entries.len() > 0;
            if i < head.len() {
                assert(head[i] == lanes[i]);
            }
        }
        if any_entry(head) {
            let i = choose|i: int| 0 <= i < head.len() && (#[trigger] head[i]).entries.len() > 0;
            assert(lanes[i] == head[i]);
        }
        if lanes.last().entries.len() > 0 {
            assert(lanes[lanes.len() - 1].entries.len() > 0);
        }
    }
}

/// Among sorted lanes whose keys do not come before `key`, the entries
/// with `key` that come first are passed over in every lane: what is left
/// are the lanes without their first entries with that key.
pub proof fn lemma_settled_sorted(lanes: Seq<Lane>, key: Seq<u8>)
    requires
        sorted_lanes(lanes),
        all_from(lanes, key),
    ensures
        settled(lanes, key) == Some(stripped(lanes, key)),
    decreases entry_count(lanes),
{
    if any_entry(lanes) {
        lemma_best_exists(lanes);
    }
    if any_entry(lanes) && lanes[best(lanes)].entries[0].key == key {
        let place = best(lanes);
        let rest = without_front(lanes, place);
        lemma_without_front_count(lanes, place);
        assert forall|l: int| 0 <= l < rest.len() implies (#[trigger] rest[l]).fault is None
            && ascending(rest[l]) by {
            assert(lanes[l].fault is None && ascending(lanes[l]));
            if l == place {
                assert forall|i: int, j: int| 0 <= i < j < rest[l].entries.len() implies bytes_lt(
                    (#[trigger] rest[l].entries[i]).key,
                    (#[trigger] rest[l].entries[j]).key,
                ) by {
                    assert(bytes_lt(lanes[l].entries[i + 1].key, lanes[l].entries[j + 1].key));
                }
            }
        }
        assert forall|l: int, i: int| is_place(rest, l, i) implies bytes_le(
            key,
            (#[trigger] entry_at(rest, l, i)).key,
        ) by {
            if l == place {
                assert(is_place(lanes, l, i + 1));
                assert(entry_at(rest, l, i) == entry_at(lanes, l, i + 1));
            } else {
                assert(is_place(lanes, l, i));
                assert(entry_at(rest, l, i) == entry_at(lanes, l, i));
            }
        }
        lemma_settled_sorted(rest, key);
        assert(stripped(rest, key) =~= stripped(lanes, key)) by {
            assert forall|l: int| 0 <= l < lanes.len() implies strip(rest[l], key) == strip(
                lanes[l],
                key,
            ) by {
                if l == place {
                    if rest[l].entries.len() > 0 {
                        assert(rest[l].entries[0] == lanes[l].entries[1]);
                        assert(bytes_lt(lanes[l].entries[0].key, lanes[l].entries[1].key));
                    }
                }
            }
        }
    } else {
        assert(stripped(lanes, key) =~= lanes) by {
            assert forall|l: int| 0 <= l < lanes.len() implies strip(lanes[l], key) == lanes[l] by {
                if lanes[l].entries.len() > 0 && lanes[l].entries[0].key == key {
                    let b = best(lanes);
                    assert(front_le(lanes, b, l));
                    assert(is_place(lanes, b, 0));
                    assert(bytes_le(key, entry_at(lanes, b, 0).key));
                    lemma_bytes_le_antisymmetric(key, lanes[b].entries[0].key);
                }
            }
        }
    }
}

/// One step of a merge of sorted lanes hands out the entry with the
/// smallest key, from the newest segment that holds that key, and leaves
/// the lanes without that key.
pub proof fn lemma_step_sorted(lanes: Seq<Lane>)
    requires
        sorted_lanes(lanes),
        any_entry(lanes),
    ensures
        ({
            let head = lanes[best(lanes)].entries[0];
            &&& is_best(lanes, best(lanes))
            &&& step(lanes) == Step::Yield(head, stripped(lanes, head.key))
            &&& all_from(lanes, head.key)
            &&& sorted_lanes(stripped(lanes, head.key))
            &&& all_behind(stripped(lanes, head.key), head.key)
            &&& entry_count(stripped(lanes, head.key)) < entry_count(lanes)
            &&& forall|l: int, i: int|
                is_place(lanes, l, i) && (#[trigger] entry_at(lanes, l, i)).key == head.key
                    ==> entry_at(lanes, l, i).segment_id <= head.segment_id
        }),
{
    lemma_best_exists(lanes);
    let place = best(lanes);
    let head = lanes[place].entries[0];
    let key = head.key;
    let rest = without_front(lanes, place);
    let after = stripped(lanes, key);
    lemma_best_is_least(lanes, place);
    lemma_without_front_count(lanes, place);
    assert forall|l: int| 0 <= l < lanes.len() implies !stalled(#[trigger] lanes[l]) by {}
    assert forall|l: int| 0 <= l < rest.len() implies (#[trigger] rest[l]).fault is None
        && ascending(rest[l]) by {
        assert(lanes[l].fault is None && ascending(lanes[l]));
        if l == place {
            assert forall|i: int, j: int| 0 <= i < j < rest[l].entries.len() implies bytes_lt(
                (#[trigger] rest[l].entries[i]).key,
                (#[trigger] rest[l].entries[j]).key,
            ) by {
                assert(bytes_lt(lanes[l].entries[i + 1].key, lanes[l].entries[j + 1].key));
            }
        }
    }
    assert forall|l: int, i: int| is_place(rest, l, i) implies bytes_le(
        key,
        (#[trigger] entry_at(rest, l, i)).key,
    ) by {
        if l == place {
            assert(is_place(lanes, l, i + 1));
            assert(entry_at(rest, l, i) == entry_at(lanes, l, i + 1));
        } else {
            assert(is_place(lanes, l, i));
            assert(entry_at(rest, l, i) == entry_at(lanes, l, i));
        }
    }
    lemma_settled_sorted(rest, key);
    lemma_settled_count(rest, key);
    assert(stripped(rest, key) =~= after) by {
        assert forall|l: int| 0 <= l < lanes.len() implies strip(rest[l], key) == strip(
            lanes[l],
            key,
        ) by {
            if l == place {
                if rest[l].entries.len() > 0 {
                    assert(rest[l].entries[0] == lanes[l].entries[1]);
                    assert(bytes_lt(lanes[l].entries[0].key, lanes[l].entries[1].key));
                }
            }
        }
    }
    assert forall|l: int| 0 <= l < after.len() implies (#[trigger] after[l]).fault is None
        && ascending(after[l]) by {
        assert(lanes[l].fault is None && ascending(lanes[l]));
        assert(after[l] == strip(lanes[l], key));
        if after[l] != lanes[l] {
            assert forall|i: int, j: int| 0 <= i < j < after[l].entries.len() implies bytes_lt(
                (#[trigger] after[l].entries[i]).key,
                (#[trigger] after[l].entries[j]).key,
            ) by {
                assert(bytes_lt(lanes[l].entries[i + 1].key, lanes[l].entries[j + 1].key));
            }
        }
    }
    assert forall|l: int, i: int| is_place(after, l, i) implies bytes_lt(
        key,
        (#[trigger] entry_at(after, l, i)).key,
    ) by {
        assert(after[l] == strip(lanes[l], key));
        assert(lanes[l].fault is None && ascending(lanes[l]));
        if after[l] != lanes[l] {
            assert(is_place(lanes, l, i + 1));
            assert(entry_at(after, l, i) == entry_at(lanes, l, i + 1));
            assert(bytes_lt(lanes[l].entries[0].key, lanes[l].entries[i + 1].key));
        } else {
            assert(is_place(lanes, l, i));
            assert(entry_at(after, l, i) == entry_at(lanes, l, i));
            assert(is_place(lanes, l, 0));
            assert(bytes_le(key, entry_at(lanes, l, 0).key));
            if i > 0 {
                assert(bytes_lt(lanes[l].entries[0].key, lanes[l].entries[i].key));
                lemma_bytes_le_transitive(key, lanes[l].entries[0].key, lanes[l].entries[i].key);
                if key == lanes[l].entries[i].key {
                    lemma_bytes_le_antisymmetric(key, lanes[l].entries[0].key);
                }
            }
        }
    }
    assert forall|l: int, i: int|
        is_place(lanes, l, i) && (#[trigger] entry_at(lanes, l, i)).key == key implies entry_at(
        lanes,
        l,
        i,
    ).segment_id <= head.segment_id by {
        assert(lanes[l].fault is None && ascending(lanes[l]));
        if i > 0 {
            assert(is_place(lanes, l, 0));
            assert(bytes_le(key, entry_at(lanes, l, 0).key));
            assert(bytes_lt(lanes[l].entries[0].key, lanes[l].entries[i].key));
            lemma_bytes_le_antisymmetric(key, lanes[l].entries[0].key);
        }
        assert(front_le(lanes, place, l));
    }
}

/// A merge of sorted files hands out one entry for each key, and takes
/// it from the newest file that holds the key.
///
/// For lanes whose keys ascend and that end with the metadata block, the
/// merge does not fail; the keys of its entries ascend, so that none
/// comes twice; each of its entries is an entry of a lane; and for each
/// entry of a lane it hands out an entry with that key, from a segment
/// whose ID is not smaller.
pub proof fn lemma_merge_yields_newest_once(lanes: Seq<Lane>)
    requires
        sorted_lanes(lanes),
    ensures
        merged(lanes) is Some,
        forall|a: int, b: int|
            0 <= a < b < merged(lanes)->Some_0.len() ==> bytes_lt(
                (#[trigger] merged(lanes)->Some_0[a]).key,
                (#[trigger] merged(lanes)->Some_0[b]).key,
            ),
        forall|a: int|
            0 <= a < merged(lanes)->Some_0.len() ==> is_entry(
                lanes,
                #[trigger] merged(lanes)->Some_0[a],
            ),
        forall|l: int, i: int|
            is_place(lanes, l, i) ==> is_covered(
                merged(lanes)->Some_0,
                #[trigger] entry_at(lanes, l, i),
            ),
    decreases entry_count(lanes),
{
    lemma_entry_count_zero(lanes);
    if any_entry(lanes) {
        lemma_step_sorted(lanes);
        let place = best(lanes);
        let head = lanes[place].entries[0];
        let after = stripped(lanes, head.key);
        lemma_merge_yields_newest_once(after);
        let rest = merged(after)->Some_0;
        let out = seq![head] + rest;
        assert(merged(lanes) == Some(out));
        assert forall|a: int| 0 <= a < out.len() implies is_entry(lanes, #[trigger] out[a]) by {
            if a == 0 {
                assert(is_place(lanes, place, 0) && entry_at(lanes, place, 0) == out[0]);
            } else {
                assert(out[a] == rest[a - 1]);
                assert(is_entry(after, rest[a - 1]));
                let (l, i) = choose|l: int, i: int|
                    is_place(after, l, i) && #[trigger] entry_at(after, l, i) == rest[a - 1];
                assert(after[l] == strip(lanes[l], head.key));
                if after[l] != lanes[l] {
                    assert(is_place(lanes, l, i + 1) && entry_at(lanes, l, i + 1) == out[a]);
                } else {
                    assert(is_place(lanes, l, i) && entry_at(lanes, l, i) == out[a]);
                }
            }
        }
        assert forall|a: int, b: int| 0 <= a < b < out.len() implies bytes_lt(
            (#[trigger] out[a]).key,
            (#[trigger] out[b]).key,
        ) by {
            assert(out[b] == rest[b - 1]);
            if a == 0 {
                assert(is_entry(after, rest[b - 1]));
                let (l, i) = choose|l: int, i: int|
                    is_place(after, l, i) && #[trigger] entry_at(after, l, i) == rest[b - 1];
                assert(bytes_lt(head.key, entry_at(after, l, i).key));
            } else {
                assert(out[a] == rest[a - 1]);
            }
        }
        assert forall|l: int, i: int| is_place(lanes, l, i) implies is_covered(
            out,
            #[trigger] entry_at(lanes, l, i),
        ) by {
            let e = entry_at(lanes, l, i);
            if e.key == head.key {
                assert(out[0].key == e.key && out[0].segment_id >= e.segment_id);
            } else {
                assert(after[l] == strip(lanes[l], head.key));
                let j = if after[l] != lanes[l] { i - 1 } else { i };
                if after[l] != lanes[l] && i == 0 {
                    assert(false);
                }
                assert(is_place(after, l, j) && entry_at(after, l, j) == e);
                assert(is_covered(rest, entry_at(after, l, j)));
                let a = choose|a: int|
                    0 <= a < rest.len() && (#[trigger] rest[a]).key == e.key && rest[a].segment_id
                        >= e.segment_id;
                assert(out[a + 1] == rest[a]);
            }
        }
    } else {
        assert forall|l: int| 0 <= l < lanes.len() implies !stalled(#[trigger] lanes[l]) by {}
        assert(step(lanes) == Step::Done);
    }
}

/// A record that lies in the heap: the key, the stored value, the
/// checksum.
type Front = Option<(UserKey, UserValue, u64)>;

/// What a front holds, as plain values.
spec fn front_view(front: Front) -> Option<RecordView> {
    match front {
        Some(f) => Some(RecordView { key: f.0@, value: f.1@, checksum: f.2 }),
        None => None,
    }
}

/// The lane of a reader whose next record may lie in the heap.
spec fn lane_at(reader: ReaderView, front: Option<RecordView>) -> Lane {
    let rest = lane_of(reader);
    Lane {
        entries: match front {
            Some(record) => seq![entry_of(record, reader.segment_id)] + rest.entries,
            None => rest.entries,
        },
        fault: rest.fault,
    }
}

/// A record has at least 18 bytes, and lies within the bytes that it was
/// read from.
pub proof fn lemma_record_bounds(bytes: Seq<u8>)
    ensures
        parse_record(bytes) matches Scan::Record(_, len) ==> 18 <= len <= bytes.len(),
{
}

/// A reader that finds a record has a lane that starts with it; one that
/// finds the end has an empty lane that does not stall; one that finds
/// nothing readable has a lane that stalls.
pub proof fn lemma_lane_of_step(reader: ReaderView)
    requires
        !reader.terminated,
        reader.position <= reader.source.len(),
    ensures
        match reader.step() {
            Scan::Record(record, len) => {
                let moved = ReaderView { position: reader.position + len, ..reader };
                &&& lane_of(reader).entries == seq![entry_of(record, reader.segment_id)] + lane_of(
                    moved,
                ).entries
                &&& lane_of(reader).fault == lane_of(moved).fault
            },
            Scan::End => lane_of(reader).entries.len() == 0 && lane_of(reader).fault is None,
            Scan::Failed(_) => stalled(lane_of(reader)),
        },
{
    lemma_record_bounds(reader.rest());
    match reader.step() {
        Scan::Record(record, len) => {
            let moved = ReaderView { position: reader.position + len, ..reader };
            let f = |r: RecordView| entry_of(r, reader.segment_id);
            assert((seq![record] + records_from(reader.source, reader.position + len)).map_values(f)
                =~= seq![entry_of(record, reader.segment_id)] + records_from(
                reader.source,
                reader.position + len,
            ).map_values(f));
        },
        _ => {},
    }
}

/// Interleaves multiple segment readers into a single, sorted stream
pub struct MergeReader<'a, C: Compressor> {
    readers: Vec<Reader<'a, C>>,
    heap: MergeHeap,
    fronts: Vec<Front>,
    failed: bool,
}

/// The views of some readers.
pub open spec fn reader_views<'a, C: Compressor>(readers: Seq<Reader<'a, C>>) -> Seq<ReaderView> {
    readers.map_values(|r: Reader<'a, C>| r@)
}

/// The lanes of some readers and the records of theirs that lie in the
/// heap.
spec fn lanes_from(readers: Seq<ReaderView>, fronts: Seq<Front>) -> Seq<Lane> {
    Seq::new(readers.len(), |i: int| lane_at(readers[i], front_view(fronts[i])))
}

/// How often an item lies in the heap of a merge with these readers and
/// fronts: once where it stands for the front of its place, else not at
/// all.
spec fn expected_count(readers: Seq<ReaderView>, fronts: Seq<Front>, item: HeapItem) -> nat {
    if item.2 < fronts.len() && (fronts[item.2 as int] matches Some(f) && f.0@ == item.0)
        && item.1 == rank_of(readers[item.2 as int].segment_id) {
        1
    } else {
        0
    }
}

/// Whether the heap holds the fronts, and nothing else.
spec fn heap_holds(heap: MergeHeap, readers: Seq<ReaderView>, fronts: Seq<Front>) -> bool {
    forall|item: HeapItem| #[trigger]
        heap_items(heap).count(item) == expected_count(readers, fronts, item)
}

/// Whether every reader without a front has nothing left to give.
spec fn all_loaded(readers: Seq<ReaderView>, fronts: Seq<Front>) -> bool {
    forall|i: int|
        0 <= i < readers.len() && (#[trigger] fronts[i]) is None ==> lane_of(
            readers[i],
        ).entries.len() == 0 && lane_of(readers[i]).fault is None
}

/// An empty heap means that no reader has a front.
proof fn lemma_empty_heap(heap: MergeHeap, readers: Seq<ReaderView>, fronts: Seq<Front>)
    requires
        heap_holds(heap, readers, fronts),
        heap_items(heap).len() == 0,
        fronts.len() == readers.len() <= usize::MAX,
    ensures
        forall|i: int| 0 <= i < fronts.len() ==> (#[trigger] fronts[i]) is None,
{
    broadcast use vstd::multiset::group_multiset_axioms;

    assert forall|i: int| 0 <= i < fronts.len() implies (#[trigger] fronts[i]) is None by {
        if fronts[i] is Some {
            let item = (fronts[i]->Some_0.0@, rank_of(readers[i].segment_id), i as usize);
            assert(expected_count(readers, fronts, item) == 1);
            assert(heap_items(heap).count(item) == 1);
        }
    }
}

/// Where every reader is loaded, no lane stalls, and a lane has an entry
/// exactly where its reader has a front.
proof fn lemma_loaded_lanes(readers: Seq<ReaderView>, fronts: Seq<Front>)
    requires
        all_loaded(readers, fronts),
        fronts.len() == readers.len(),
    ensures
        forall|i: int|
            0 <= i < readers.len() ==> !stalled(#[trigger] lanes_from(readers, fronts)[i]),
        forall|i: int|
            0 <= i < readers.len() ==> ((#[trigger] lanes_from(readers, fronts)[i]).entries.len()
                > 0 <==> fronts[i] is Some),
{
    let lanes = lanes_from(readers, fronts);
    assert forall|i: int| 0 <= i < readers.len() implies !stalled(#[trigger] lanes[i]) && (
    lanes[i].entries.len() > 0 <==> fronts[i] is Some) by {
        assert(lanes[i] == lane_at(readers[i], front_view(fronts[i])));
        if fronts[i] is None {
            assert(lane_of(readers[i]).entries.len() == 0);
        }
    }
}

/// The item that leaves the heap first stands for the best lane.
proof fn lemma_popped_is_best(
    heap: MergeHeap,
    readers: Seq<ReaderView>,
    fronts: Seq<Front>,
    item: HeapItem,
)
    requires
        heap_holds(heap, readers, fronts),
        all_loaded(readers, fronts),
        fronts.len() == readers.len() <= usize::MAX,
        heap_items(heap).contains(item),
        forall|other: HeapItem| #[trigger] heap_items(heap).contains(other) ==> item_le(item, other),
    ensures
        item.2 < fronts.len(),
        fronts[item.2 as int] matches Some(f) && f.0@ == item.0,
        any_entry(lanes_from(readers, fronts)),
        is_best(lanes_from(readers, fronts), item.2 as int),
        best(lanes_from(readers, fronts)) == item.2,
{
    broadcast use vstd::multiset::group_multiset_axioms;

    let lanes = lanes_from(readers, fronts);
    let place = item.2 as int;
    assert(heap_items(heap).count(item) == expected_count(readers, fronts, item));
    lemma_loaded_lanes(readers, fronts);
    assert(lanes[place] == lane_at(readers[place], front_view(fronts[place])));
    assert(front_item(lanes, place) == item);
    assert forall|other: int|
        0 <= other < lanes.len() && (#[trigger] lanes[other]).entries.len() > 0 implies front_le(
        lanes,
        place,
        other,
    ) by {
        assert(lanes[other] == lane_at(readers[other], front_view(fronts[other])));
        let o = (fronts[other]->Some_0.0@, rank_of(readers[other].segment_id), other as usize);
        assert(expected_count(readers, fronts, o) == 1);
        assert(heap_items(heap).count(o) == 1);
        assert(heap_items(heap).contains(o));
        assert(front_item(lanes, other) == o);
        assert(item_le(item, o));
    }
    assert(is_best(lanes, place));
    lemma_best_unique(lanes, best(lanes), place);
}

/// Taking the front of a reader away takes the first entry of its lane
/// away.
proof fn lemma_front_taken(readers: Seq<ReaderView>, fronts: Seq<Front>, place: int)
    requires
        0 <= place < readers.len(),
        fronts.len() == readers.len(),
        fronts[place] is Some,
    ensures
        lanes_from(readers, fronts.update(place, None)) == without_front(
            lanes_from(readers, fronts),
            place,
        ),
{
    let lanes = lanes_from(readers, fronts);
    let after = lanes_from(readers, fronts.update(place, None));
    assert(lanes[place].entries.skip(1) =~= lane_of(readers[place]).entries);
    assert(after =~= without_front(lanes, place));
}

impl<'a, C: Compressor> View for MergeReader<'a, C> {
    type V = Seq<Lane>;

    closed spec fn view(&self) -> Seq<Lane> {
        lanes_from(reader_views(self.readers@), self.fronts@)
    }
}

impl<'a, C: Compressor> MergeReader<'a, C> {
    /// Whether an earlier step has failed: the merge is over then.
    pub closed spec fn has_failed(&self) -> bool {
        self.failed
    }

    /// What holds of every merge reader that this module hands out.
    pub closed spec fn wf(&self) -> bool {
        &&& self.fronts@.len() == self.readers@.len()
        &&& heap_holds(self.heap, reader_views(self.readers@), self.fronts@)
        &&& !self.failed && heap_items(self.heap).len() > 0 ==> all_loaded(
            reader_views(self.readers@),
            self.fronts@,
        )
    }

    /// Initializes a new merging reader
    pub fn new(readers: Vec<Reader<'a, C>>) -> (r: Self)
        ensures
            r.wf(),
            !r.has_failed(),
            r@ == reader_views(readers@).map_values(|v: ReaderView| lane_of(v)),
    {
        let heap = heap_with_capacity(readers.len());
        let mut fronts: Vec<Front> = Vec::new();
        let mut i: usize = 0;
        while i < readers.len()
            invariant
                i <= readers@.len(),
                fronts@.len() == i,
                forall|j: int| 0 <= j < i ==> (#[trigger] fronts@[j]) is None,
            decreases readers@.len() - i,
        {
            fronts.push(None);
            i = i + 1;
        }
        let r = MergeReader { readers, heap, fronts, failed: false };
        proof {
            broadcast use vstd::multiset::group_multiset_axioms;

            assert(r@ =~= reader_views(readers@).map_values(|v: ReaderView| lane_of(v)));
        }
        r
    }

    /// The number of the lanes: that of the readers.
    pub fn len(&self) -> (r: usize)
        ensures
            r == self@.len(),
    {
        self.readers.len()
    }

    /// Reads the next record of the reader at `place` into the heap. The
    /// lanes stay as they are; where the lane has stalled, the reading
    /// fails.
    fn advance_reader(&mut self, place: usize) -> (r: Result<(), Error>)
        requires
            old(self).fronts@.len() == old(self).readers@.len(),
            place < old(self).readers@.len(),
            old(self).fronts@[place as int] is None,
            heap_holds(old(self).heap, reader_views(old(self).readers@), old(self).fronts@),
        ensures
            final(self).fronts@.len() == final(self).readers@.len(),
            final(self).readers@.len() == old(self).readers@.len(),
            final(self).failed == old(self).failed,
            heap_holds(final(self).heap, reader_views(final(self).readers@), final(self).fronts@),
            forall|i: int|
                0 <= i < old(self).readers@.len() && i != place ==> {
                    &&& #[trigger] final(self).fronts@[i] == old(self).fronts@[i]
                    &&& final(self).readers@[i]@ == old(self).readers@[i]@
                },
            match r {
                Ok(_) => {
                    &&& final(self)@ == old(self)@
                    &&& heap_items(final(self).heap).len() >= heap_items(old(self).heap).len()
                    &&& final(self).fronts@[place as int] is None ==> {
                        &&& lane_of(final(self).readers@[place as int]@).entries.len() == 0
                        &&& lane_of(final(self).readers@[place as int]@).fault is None
                        &&& heap_items(final(self).heap) == heap_items(old(self).heap)
                    }
                    &&& final(self).fronts@[place as int] is Some ==> {
                        heap_items(final(self).heap).len() > 0
                    }
                },
                Err(e) => {
                    &&& stalled(old(self)@[place as int])
                    &&& final(self)@ == old(self)@
                    &&& e is Io || e is Decode
                    &&& old(self)@[place as int].fault matches Some(f) && told(e, f)
                },
            },
    {
        broadcast use vstd::multiset::group_multiset_axioms;

        let ghost before = *self;
        let ghost views = reader_views(self.readers@);
        let mut reader = self.readers.remove(place);
        let ghost was = reader@;
        assert(was == views[place as int]);
        // The reader stands within its file
        let _ = reader.get_offset();
        proof {
            if !was.terminated {
                lemma_lane_of_step(was);
            }
        }
        let segment_id: SegmentId = reader.segment_id();
        let item = reader.next_stored();
        let ghost now = reader@;
        self.readers.insert(place, reader);
        assert(reader_views(self.readers@) =~= views.update(place as int, now));
        match item {
            Some(Ok((key, value, checksum))) => {
                let bytes = key.to_vec();
                heap_push(&mut self.heap, bytes, u64::MAX - segment_id, place);
                self.fronts.set(place, Some((key, value, checksum)));
                proof {
                    let t = (key@, rank_of(segment_id), place);
                    assert forall|other: HeapItem| #[trigger]
                        heap_items(self.heap).count(other) == expected_count(
                            reader_views(self.readers@),
                            self.fronts@,
                            other,
                        ) by {
                        assert(heap_items(before.heap).count(other) == expected_count(
                            views,
                            before.fronts@,
                            other,
                        ));
                    }
                    assert(heap_items(self.heap).count(t) > 0);
                    assert(self@ =~= before@);
                }
                Ok(())
            },
            Some(Err(e)) => {
                proof {
                    assert forall|other: HeapItem| #[trigger]
                        heap_items(self.heap).count(other) == expected_count(
                            reader_views(self.readers@),
                            self.fronts@,
                            other,
                        ) by {
                        assert(heap_items(before.heap).count(other) == expected_count(
                            views,
                            before.fronts@,
                            other,
                        ));
                    }
                    assert(self@ =~= before@);
                }
                Err(e)
            },
            None => {
                proof {
                    assert forall|other: HeapItem| #[trigger]
                        heap_items(self.heap).count(other) == expected_count(
                            reader_views(self.readers@),
                            self.fronts@,
                            other,
                        ) by {
                        assert(heap_items(before.heap).count(other) == expected_count(
                            views,
                            before.fronts@,
                            other,
                        ));
                    }
                    assert(lane_of(was).entries =~= lane_of(now).entries);
                    assert(lane_of(was) == lane_of(now));
                    assert(self@ =~= before@);
                }
                Ok(())
            },
        }
    }

    /// Reads the next record of every reader into the heap. The lanes stay
    /// as they are; where one of them has stalled, the reading fails.
    fn push_next(&mut self) -> (r: Result<(), Error>)
        requires
            old(self).fronts@.len() == old(self).readers@.len(),
            forall|i: int| 0 <= i < old(self).fronts@.len() ==> (#[trigger] old(self).fronts@[i]) is None,
            heap_holds(old(self).heap, reader_views(old(self).readers@), old(self).fronts@),
        ensures
            final(self).fronts@.len() == final(self).readers@.len(),
            final(self).readers@.len() == old(self).readers@.len(),
            final(self).failed == old(self).failed,
            heap_holds(final(self).heap, reader_views(final(self).readers@), final(self).fronts@),
            final(self)@ == old(self)@,
            match r {
                Ok(_) => all_loaded(reader_views(final(self).readers@), final(self).fronts@),
                Err(e) => {
                    &&& exists|i: int| 0 <= i < old(self)@.len() && stalled(#[trigger] old(self)@[i])
                    &&& e is Io || e is Decode
                    &&& failed_with(old(self)@, e)
                },
            },
    {
        let ghost lanes = self@;
        let mut idx: usize = 0;
        while idx < self.readers.len()
            invariant
                idx <= self.readers@.len(),
                self.fronts@.len() == self.readers@.len(),
                self.readers@.len() == old(self).readers@.len(),
                self.failed == old(self).failed,
                heap_holds(self.heap, reader_views(self.readers@), self.fronts@),
                self@ == lanes,
                lanes == old(self)@,
                forall|i: int| idx <= i < self.fronts@.len() ==> (#[trigger] self.fronts@[i]) is None,
                forall|i: int|
                    0 <= i < idx && (#[trigger] self.fronts@[i]) is None ==> lane_of(
                        self.readers@[i]@,
                    ).entries.len() == 0 && lane_of(self.readers@[i]@).fault is None,
            decreases self.readers@.len() - idx,
        {
            match self.advance_reader(idx) {
                Ok(_) => {},
                Err(e) => {
                    return Err(e);
                },
            }
            idx = idx + 1;
        }
        Ok(())
    }

    /// Hands out the next entry of the merge: the one that comes first by
    /// its key, and among entries with one key the one of the newest
    /// segment. The entries with that key that then come first are passed
    /// over.
    ///
    /// The result is what `step` says of the lanes: `None` where no lane
    /// has an entry left, and an error where a lane has stalled: the error
    /// of the reader of a stalled lane, an I/O error for a record that is
    /// cut off and a decoding error for a bad header. After an error the
    /// merge is over: every later call gives `None`.
    pub fn next(&mut self) -> (r: Option<Result<(UserKey, UserValue, SegmentId, u64), Error>>)
        requires
            old(self).wf(),
        ensures
            final(self).wf(),
            old(self).has_failed() ==> r is None && final(self).has_failed(),
            !old(self).has_failed() ==> match step(old(self)@) {
                Step::Done => r is None && final(self)@ == old(self)@ && !final(self).has_failed(),
                Step::Yield(entry, lanes) => {
                    &&& r matches Some(Ok(item))
                    &&& item.0@ == entry.key
                    &&& item.1@ == entry.value
                    &&& item.2 == entry.segment_id
                    &&& item.3 == entry.checksum
                    &&& final(self)@ == lanes
                    &&& !final(self).has_failed()
                },
                Step::Failed => {
                    &&& r matches Some(Err(e))
                    &&& e is Io || e is Decode
                    &&& failed_with(old(self)@, e)
                    &&& final(self).has_failed()
                },
            },
    {
        broadcast use vstd::multiset::group_multiset_axioms;

        if self.failed {
            return None;
        }
        let ghost start = self@;
        let count: usize = self.readers.len();
        if heap_is_empty(&self.heap) {
            proof {
                lemma_empty_heap(self.heap, reader_views(self.readers@), self.fronts@);
            }
            match self.push_next() {
                Ok(_) => {},
                Err(e) => {
                    self.failed = true;
                    return Some(Err(e));
                },
            }
        }
        proof {
            lemma_loaded_lanes(reader_views(self.readers@), self.fronts@);
        }
        let ghost heap_before = self.heap;
        let (place, head_key, head_value, head_checksum) = match heap_pop_min(&mut self.heap) {
            None => {
                proof {
                    lemma_empty_heap(self.heap, reader_views(self.readers@), self.fronts@);
                    assert(!any_entry(start));
                }
                return None;
            },
            Some((_, _, place)) => {
                proof {
                    let t = choose|t: HeapItem|
                        heap_items(heap_before).contains(t) && t.2 == place && heap_items(
                            self.heap,
                        ) == heap_items(heap_before).remove(t) && forall|other: HeapItem| #[trigger]
                            heap_items(heap_before).contains(other) ==> item_le(t, other);
                    lemma_popped_is_best(
                        heap_before,
                        reader_views(self.readers@),
                        self.fronts@,
                        t,
                    );
                }
                match &self.fronts[place] {
                    Some(f) => (place, f.0.clone(), f.1.clone(), f.2),
                    None => {
                        return None;
                    },
                }
            },
        };
        let segment_id: SegmentId = self.readers[place].segment_id();
        proof {
            lemma_front_taken(reader_views(self.readers@), self.fronts@, place as int);
        }
        let ghost fronts_before = self.fronts@;
        self.fronts.set(place, None);
        let ghost rest = self@;
        assert(rest == without_front(start, place as int));
        assert(heap_holds(self.heap, reader_views(self.readers@), self.fronts@)) by {
            assert forall|other: HeapItem| #[trigger]
                heap_items(self.heap).count(other) == expected_count(
                    reader_views(self.readers@),
                    self.fronts@,
                    other,
                ) by {
                assert(heap_items(heap_before).count(other) == expected_count(
                    reader_views(self.readers@),
                    fronts_before,
                    other,
                ));
            }
        }
        match self.advance_reader(place) {
            Ok(_) => {},
            Err(e) => {
                self.failed = true;
                return Some(Err(e));
            },
        }
        let ghost key = head_key@;
        let ghost head = start[place as int].entries[0];
        proof {
            lemma_loaded_lanes(reader_views(self.readers@), self.fronts@);
            assert(!stalled(rest[place as int]));
        }
        loop
            invariant
                !self.failed,
                !old(self).has_failed(),
                step(old(self)@) == (match settled(rest, key) {
                    Some(after) => Step::Yield(head, after),
                    None => Step::Failed,
                }),
                count == self.readers@.len(),
                self.fronts@.len() == self.readers@.len(),
                heap_holds(self.heap, reader_views(self.readers@), self.fronts@),
                all_loaded(reader_views(self.readers@), self.fronts@),
                key == head_key@,
                settled(rest, key) == settled(self@, key),
                start == old(self)@,
                same_faults(self@, start),
            ensures
                !self.failed,
                self.fronts@.len() == self.readers@.len(),
                heap_holds(self.heap, reader_views(self.readers@), self.fronts@),
                all_loaded(reader_views(self.readers@), self.fronts@),
                settled(rest, key) == Some(self@),
            decreases entry_count(self@),
        {
            let ghost lanes = self@;
            let ghost heap_then = self.heap;
            proof {
                lemma_loaded_lanes(reader_views(self.readers@), self.fronts@);
            }
            match heap_pop_min(&mut self.heap) {
                None => {
                    proof {
                        lemma_empty_heap(self.heap, reader_views(self.readers@), self.fronts@);
                        assert(!any_entry(lanes));
                    }
                    break;
                },
                Some((bytes, rank, next)) => {
                    proof {
                        lemma_popped_is_best(
                            heap_then,
                            reader_views(self.readers@),
                            self.fronts@,
                            (bytes@, rank, next),
                        );
                    }
                    let same = match &self.fronts[next] {
                        Some(f) => f.0 == head_key,
                        None => false,
                    };
                    if same {
                        let ghost fronts_then = self.fronts@;
                        proof {
                            lemma_front_taken(reader_views(self.readers@), self.fronts@, next as int);
                            lemma_without_front_count(lanes, next as int);
                        }
                        self.fronts.set(next, None);
                        assert(heap_holds(self.heap, reader_views(self.readers@), self.fronts@)) by {
                            assert forall|other: HeapItem| #[trigger]
                                heap_items(self.heap).count(other) == expected_count(
                                    reader_views(self.readers@),
                                    self.fronts@,
                                    other,
                                ) by {
                                assert(heap_items(heap_then).count(other) == expected_count(
                                    reader_views(self.readers@),
                                    fronts_then,
                                    other,
                                ));
                            }
                        }
                        assert(same_faults(self@, start)) by {
                            assert(self@ == without_front(lanes, next as int));
                        }
                        match self.advance_reader(next) {
                            Ok(_) => {},
                            Err(e) => {
                                assert(start[next as int].fault == self@[next as int].fault);
                                self.failed = true;
                                return Some(Err(e));
                            },
                        }
                    } else {
                        heap_push(&mut self.heap, bytes, rank, next);
                        assert(heap_items(self.heap) =~= heap_items(heap_then));
                        break;
                    }
                },
            }
        }
        Some(Ok((head_key, head_value, segment_id, head_checksum)))
    }
}

} // verus!
