//! The segment manifest: the set of the live blob files, and its file.

use crate::coding::be_bytes;
use crate::coding::be_value;
use crate::coding::lemma_be_bytes_len;
use crate::coding::lemma_be_round_trip;
use crate::coding::lemma_be_value_bytes;
use crate::coding::lemma_pow256_values;
use crate::coding::put_u64;
use crate::coding::ByteReader;
use crate::compression::Compressor;
use crate::error::Error;
use crate::id::SegmentId;
use crate::ratio::Ratio;
use crate::segment::gc_stats::GcStats;
use crate::segment::multi_writer::writer_views;
use crate::segment::multi_writer::MultiWriter;
use crate::segment::trailer::parse_trailer;
use crate::segment::trailer::SegmentFileTrailer;
use crate::segment::writer::WriterView;
use crate::segment::Segment;
use crate::segment::SegmentView;
use vstd::prelude::*;

verus! {

/// The IDs of a manifest file, one big-endian `u64` each.
pub open spec fn ids_bytes(ids: Seq<SegmentId>) -> Seq<u8>
    decreases ids.len(),
{
    if ids.len() == 0 {
        Seq::empty()
    } else {
        ids_bytes(ids.drop_last()) + be_bytes(ids.last() as nat, 8)
    }
}

/// The manifest file of a set of segments: their number as a big-endian
/// `u64`, then their IDs.
pub open spec fn manifest_bytes(ids: Seq<SegmentId>) -> Seq<u8> {
    be_bytes(ids.len(), 8) + ids_bytes(ids)
}

/// The `i`-th ID of a manifest file.
pub open spec fn id_at(bytes: Seq<u8>, i: int) -> SegmentId {
    be_value(bytes.subrange(8 + 8 * i, 16 + 8 * i)) as u64
}

/// The IDs that a manifest file lists, if it holds as many as it states.
/// What follows them is passed over.
pub open spec fn parse_manifest(bytes: Seq<u8>) -> Option<Seq<SegmentId>> {
    if bytes.len() < 8 {
        None
    } else {
        let count = be_value(bytes.take(8));
        if bytes.len() < 8 + 8 * count {
            None
        } else {
            Some(Seq::new(count, |i: int| id_at(bytes, i)))
        }
    }
}

/// The IDs take eight bytes each.
pub proof fn lemma_ids_bytes_len(ids: Seq<SegmentId>)
    ensures
        ids_bytes(ids).len() == 8 * ids.len(),
    decreases ids.len(),
{
    if ids.len() > 0 {
        lemma_ids_bytes_len(ids.drop_last());
        lemma_be_bytes_len(ids.last() as nat, 8);
    }
}

/// The `i`-th group of eight bytes holds the `i`-th ID.
pub proof fn lemma_ids_bytes_index(ids: Seq<SegmentId>, i: int)
    requires
        0 <= i < ids.len(),
    ensures
        ids_bytes(ids).subrange(8 * i, 8 * i + 8) == be_bytes(ids[i] as nat, 8),
    decreases ids.len(),
{
    let head = ids.drop_last();
    lemma_ids_bytes_len(head);
    lemma_be_bytes_len(ids.last() as nat, 8);
    if i == ids.len() - 1 {
        assert(ids_bytes(ids).subrange(8 * i, 8 * i + 8) =~= be_bytes(ids[i] as nat, 8));
    } else {
        lemma_ids_bytes_index(head, i);
        assert(ids_bytes(ids).subrange(8 * i, 8 * i + 8) =~= ids_bytes(head).subrange(
            8 * i,
            8 * i + 8,
        ));
    }
}

/// A manifest file that was written for some IDs lists those IDs, whatever
/// follows it.
pub proof fn lemma_manifest_round_trip(ids: Seq<SegmentId>, tail: Seq<u8>)
    requires
        ids.len() <= u64::MAX,
    ensures
        parse_manifest(manifest_bytes(ids) + tail) == Some(ids),
{
    let all = manifest_bytes(ids) + tail;
    lemma_be_bytes_len(ids.len(), 8);
    lemma_ids_bytes_len(ids);
    lemma_pow256_values();
    lemma_be_round_trip(ids.len(), 8);
    assert(all.take(8) =~= be_bytes(ids.len(), 8));
    let parsed = Seq::new(ids.len(), |i: int| id_at(all, i));
    assert forall|i: int| 0 <= i < ids.len() implies parsed[i] == ids[i] by {
        lemma_ids_bytes_index(ids, i);
        assert(all.subrange(8 + 8 * i, 16 + 8 * i) =~= ids_bytes(ids).subrange(8 * i, 8 * i + 8));
        lemma_be_round_trip(ids[i] as nat, 8);
    }
    assert(parsed =~= ids);
}

/// Writing the IDs that a manifest file lists gives the file back, up to
/// where its IDs end: a recovery that finds nothing to change leaves the
/// file as it is.
pub proof fn lemma_manifest_rewrite(bytes: Seq<u8>)
    requires
        parse_manifest(bytes) is Some,
    ensures
        manifest_bytes(parse_manifest(bytes)->Some_0) == bytes.take(
            8 + 8 * (parse_manifest(bytes)->Some_0.len() as int),
        ),
{
    let ids = parse_manifest(bytes)->Some_0;
    lemma_be_value_bytes(bytes.take(8));
    lemma_manifest_rewrite_ids(bytes, ids.len());
    assert(Seq::new(ids.len(), |i: int| id_at(bytes, i)) =~= ids);
    lemma_ids_bytes_len(ids);
    assert(manifest_bytes(ids) =~= bytes.take(8 + 8 * (ids.len() as int)));
}

/// Writing the first `n` IDs of a manifest file gives its bytes back.
proof fn lemma_manifest_rewrite_ids(bytes: Seq<u8>, n: nat)
    requires
        bytes.len() >= 8 + 8 * n,
    ensures
        ids_bytes(Seq::new(n, |i: int| id_at(bytes, i))) == bytes.subrange(8, 8 + 8 * (n as int)),
    decreases n,
{
    let ids = Seq::new(n, |i: int| id_at(bytes, i));
    if n == 0 {
        assert(ids_bytes(ids) =~= bytes.subrange(8, 8));
    } else {
        let m = (n - 1) as nat;
        lemma_manifest_rewrite_ids(bytes, m);
        assert(ids.drop_last() =~= Seq::new(m, |i: int| id_at(bytes, i)));
        let last = bytes.subrange(8 + 8 * (m as int), 16 + 8 * (m as int));
        lemma_be_value_bytes(last);
        lemma_pow256_values();
        assert(ids.last() == be_value(last) as u64);
        assert(ids_bytes(ids) =~= bytes.subrange(8, 8 + 8 * (n as int)));
    }
}

/// The bytes of the manifest file that lists `ids`.
pub fn encode_ids(ids: &[SegmentId]) -> (r: Vec<u8>)
    ensures
        r@ == manifest_bytes(ids@),
{
    let mut bytes: Vec<u8> = Vec::new();
    put_u64(&mut bytes, ids.len() as u64);
    let mut i: usize = 0;
    while i < ids.len()
        invariant
            i <= ids@.len(),
            bytes@ == be_bytes(ids@.len(), 8) + ids_bytes(ids@.take(i as int)),
        decreases ids@.len() - i,
    {
        let ghost before = bytes@;
        put_u64(&mut bytes, ids[i]);
        proof {
            let next = ids@.take(i + 1);
            assert(next.drop_last() =~= ids@.take(i as int));
            assert(bytes@ =~= be_bytes(ids@.len(), 8) + ids_bytes(next));
        }
        i = i + 1;
    }
    assert(ids@.take(i as int) =~= ids@);
    bytes
}

/// Parses segment IDs from the bytes of a manifest file. A file that ends
/// before its IDs do gives an I/O error.
pub fn load_ids(bytes: &[u8]) -> (r: Result<Vec<SegmentId>, Error>)
    ensures
        match r {
            Ok(ids) => parse_manifest(bytes@) == Some(ids@),
            Err(e) => parse_manifest(bytes@) is None && e is Io,
        },
{
    let mut cursor = ByteReader::new(bytes);
    assert(cursor.rest() =~= bytes@);
    let count: u64 = match cursor.read_u64() {
        Ok(count) => count,
        Err(_) => { return Err(Error::Io(crate::coding::unexpected_eof())); },
    };
    let mut ids: Vec<SegmentId> = Vec::new();
    let mut i: u64 = 0;
    while i < count
        invariant
            i <= count,
            count == be_value(bytes@.take(8)),
            bytes@.len() >= 8 + 8 * i,
            cursor.source() == bytes@,
            cursor.offset() == 8 + 8 * i,
            ids@ == Seq::new(i as nat, |j: int| id_at(bytes@, j)),
        decreases count - i,
    {
        let ghost rest = cursor.rest();
        let id: u64 = match cursor.read_u64() {
            Ok(id) => id,
            Err(_) => { return Err(Error::Io(crate::coding::unexpected_eof())); },
        };
        assert(rest.take(8) =~= bytes@.subrange(8 + 8 * i, 16 + 8 * i));
        ids.push(id);
        i = i + 1;
        assert(ids@ =~= Seq::new(i as nat, |j: int| id_at(bytes@, j)));
    }
    Ok(ids)
}

/// The segment that a finished writer leaves: its ID, the metadata of
/// what it wrote, and no stale item yet.
pub open spec fn segment_of(w: WriterView) -> SegmentView {
    SegmentView {
        id: w.segment_id,
        meta: w.metadata(),
        gc_stats: GcStats { stale_items: 0, stale_bytes: 0 },
    }
}

/// Whether a segment with this ID is among `segs`.
pub open spec fn has_id(segs: Seq<SegmentView>, id: SegmentId) -> bool {
    exists|i: int| 0 <= i < segs.len() && (#[trigger] segs[i]).id == id
}

/// Whether no ID occurs twice among `segs`.
pub open spec fn distinct_ids(segs: Seq<SegmentView>) -> bool {
    forall|i: int, j: int|
        0 <= i < j < segs.len() ==> (#[trigger] segs[i]).id != (#[trigger] segs[j]).id
}

/// The segment with this ID among `segs`, if there is one.
pub open spec fn lookup(segs: Seq<SegmentView>, id: SegmentId) -> Option<SegmentView> {
    if has_id(segs, id) {
        Some(segs[choose|i: int| 0 <= i < segs.len() && (#[trigger] segs[i]).id == id])
    } else {
        None
    }
}

/// Among segments with distinct IDs, the one at `i` is the one that
/// `lookup` finds for its ID.
pub proof fn lemma_lookup(segs: Seq<SegmentView>, i: int)
    requires
        distinct_ids(segs),
        0 <= i < segs.len(),
    ensures
        has_id(segs, segs[i].id),
        lookup(segs, segs[i].id) == Some(segs[i]),
{
    let id = segs[i].id;
    let j = choose|j: int| 0 <= j < segs.len() && (#[trigger] segs[j]).id == id;
    if j < i {
        assert(segs[j].id != segs[i].id);
    } else if i < j {
        assert(segs[i].id != segs[j].id);
    }
}

/// The greatest ID among `segs`, or 0 where there is no segment.
pub open spec fn highest_of(segs: Seq<SegmentView>) -> SegmentId
    decreases segs.len(),
{
    if segs.len() == 0 {
        0
    } else if segs.last().id > highest_of(segs.drop_last()) {
        segs.last().id
    } else {
        highest_of(segs.drop_last())
    }
}

/// No segment has an ID above the greatest one.
pub proof fn lemma_highest_of(segs: Seq<SegmentView>, i: int)
    requires
        0 <= i < segs.len(),
    ensures
        segs[i].id <= highest_of(segs),
    decreases segs.len(),
{
    if i < segs.len() - 1 {
        lemma_highest_of(segs.drop_last(), i);
    }
}

/// Whether the ID of every segment is below `id`.
pub open spec fn ids_below(segs: Seq<SegmentView>, id: SegmentId) -> bool {
    forall|i: int| 0 <= i < segs.len() ==> (#[trigger] segs[i]).id < id
}

/// Segments and writers with IDs below a bound leave segments with IDs
/// below it.
pub proof fn lemma_registered_below(segs: Seq<SegmentView>, writers: Seq<WriterView>, id: SegmentId)
    requires
        ids_below(segs, id),
        forall|i: int| 0 <= i < writers.len() ==> (#[trigger] writers[i]).segment_id < id,
    ensures
        ids_below(registered(segs, writers), id),
    decreases writers.len(),
{
    if writers.len() > 0 {
        let head = writers.drop_last();
        assert forall|i: int| 0 <= i < head.len() implies (#[trigger] head[i]).segment_id < id by {
            assert(head[i] == writers[i]);
        }
        lemma_registered_below(segs, head, id);
        let before = registered(segs, head);
        let w = writers[writers.len() - 1];
        assert forall|i: int| 0 <= i < registered(segs, writers).len() implies (
        #[trigger] registered(segs, writers)[i]).id < id by {
            if i < before.len() {
                assert(before[i].id < id);
            }
        }
    }
}

/// What is left after a drop has IDs below every bound of the IDs before.
pub proof fn lemma_without_below(segs: Seq<SegmentView>, ids: Seq<SegmentId>, id: SegmentId)
    requires
        ids_below(segs, id),
    ensures
        ids_below(without(segs, ids), id),
{
    lemma_without(segs, ids);
    let left = without(segs, ids);
    assert forall|i: int| 0 <= i < left.len() implies (#[trigger] left[i]).id < id by {
        assert(left.contains(left[i]));
        let k = choose|k: int| 0 <= k < segs.len() && segs[k] == left[i];
        assert(segs[k].id < id);
    }
}

/// The IDs of some segments, in order.
pub open spec fn ids_of(segs: Seq<SegmentView>) -> Seq<SegmentId> {
    segs.map_values(|s: SegmentView| s.id)
}

/// `segs` with `seg` in the place of the segment of the same ID, or
/// behind the others where there is none.
pub open spec fn put_segment(segs: Seq<SegmentView>, seg: SegmentView) -> Seq<SegmentView> {
    if has_id(segs, seg.id) {
        segs.map_values(
            |s: SegmentView|
                if s.id == seg.id {
                    seg
                } else {
                    s
                },
        )
    } else {
        segs.push(seg)
    }
}

/// `segs` after the writers were registered, the first one first: each
/// writer that holds an item leaves its segment, and one without items
/// leaves nothing.
pub open spec fn registered(segs: Seq<SegmentView>, writers: Seq<WriterView>) -> Seq<SegmentView>
    decreases writers.len(),
{
    if writers.len() == 0 {
        segs
    } else {
        let before = registered(segs, writers.drop_last());
        if writers.last().item_count > 0 {
            put_segment(before, segment_of(writers.last()))
        } else {
            before
        }
    }
}

/// The blob files that the writers leave: the ID and the bytes of each
/// writer that holds an item.
pub open spec fn files_of(writers: Seq<WriterView>) -> Seq<(SegmentId, Seq<u8>)>
    decreases writers.len(),
{
    if writers.len() == 0 {
        Seq::empty()
    } else {
        let before = files_of(writers.drop_last());
        if writers.last().item_count > 0 {
            before.push((writers.last().segment_id, writers.last().bytes))
        } else {
            before
        }
    }
}

/// `segs` without the segments whose IDs are among `ids`.
pub open spec fn without(segs: Seq<SegmentView>, ids: Seq<SegmentId>) -> Seq<SegmentView>
    decreases segs.len(),
{
    if segs.len() == 0 {
        segs
    } else {
        let head = without(segs.drop_last(), ids);
        if ids.contains(segs.last().id) {
            head
        } else {
            head.push(segs.last())
        }
    }
}

/// What is left after a drop are the segments whose IDs were not named,
/// and where the IDs were distinct they still are.
pub proof fn lemma_without(segs: Seq<SegmentView>, ids: Seq<SegmentId>)
    ensures
        forall|s: SegmentView| #[trigger]
            without(segs, ids).contains(s) <==> segs.contains(s) && !ids.contains(s.id),
        distinct_ids(segs) ==> distinct_ids(without(segs, ids)),
        without(segs, ids).len() <= segs.len(),
    decreases segs.len(),
{
    if segs.len() > 0 {
        let head = segs.drop_last();
        let last = segs.last();
        lemma_without(head, ids);
        let left = without(head, ids);
        assert forall|s: SegmentView| #[trigger]
            without(segs, ids).contains(s) <==> segs.contains(s) && !ids.contains(s.id) by {
            if without(segs, ids).contains(s) {
                let i = choose|i: int|
                    0 <= i < without(segs, ids).len() && without(segs, ids)[i] == s;
                if i < left.len() {
                    assert(left[i] == s);
                    assert(left.contains(s));
                    let k = choose|k: int| 0 <= k < head.len() && head[k] == s;
                    assert(segs[k] == s);
                } else {
                    assert(s == last);
                    assert(segs[segs.len() - 1] == s);
                }
            }
            if segs.contains(s) && !ids.contains(s.id) {
                let k = choose|k: int| 0 <= k < segs.len() && segs[k] == s;
                if k < head.len() {
                    assert(head[k] == s);
                    assert(head.contains(s));
                    assert(left.contains(s));
                    let i = choose|i: int| 0 <= i < left.len() && left[i] == s;
                    assert(without(segs, ids)[i] == s);
                } else {
                    assert(without(segs, ids)[left.len() as int] == s);
                }
            }
        }
        if distinct_ids(segs) {
            assert(distinct_ids(head));
            let all = without(segs, ids);
            assert forall|i: int, j: int| 0 <= i < j < all.len() implies (#[trigger] all[i]).id
                != (#[trigger] all[j]).id by {
                if j < left.len() {
                    assert(left[i].id != left[j].id);
                } else {
                    assert(left[i] == all[i]);
                    assert(left.contains(all[i]));
                    assert(head.contains(all[i]));
                    let k = choose|k: int| 0 <= k < head.len() && head[k] == all[i];
                    assert(segs[k].id != segs[segs.len() - 1].id);
                }
            }
        }
    }
}

/// `segs` with the segments whose IDs are among `ids` marked as fully
/// stale.
pub open spec fn marked_stale(segs: Seq<SegmentView>, ids: Seq<SegmentId>) -> Seq<SegmentView> {
    segs.map_values(
        |s: SegmentView|
            if ids.contains(s.id) {
                s.marked_stale()
            } else {
                s
            },
    )
}

/// The sum of some counts.
pub open spec fn sum(counts: Seq<u64>) -> nat
    decreases counts.len(),
{
    if counts.len() == 0 {
        0
    } else {
        sum(counts.drop_last()) + counts.last() as nat
    }
}

/// A count that stops at the greatest `u64`.
pub open spec fn clamp(n: nat) -> u64 {
    if n > u64::MAX {
        u64::MAX
    } else {
        n as u64
    }
}

/// Counts that are all `v` sum up to their number times `v`.
pub proof fn lemma_sum_constant(counts: Seq<u64>, v: u64)
    requires
        forall|i: int| 0 <= i < counts.len() ==> #[trigger] counts[i] == v,
    ensures
        sum(counts) == counts.len() * v,
    decreases counts.len(),
{
    if counts.len() > 0 {
        lemma_sum_constant(counts.drop_last(), v);
        assert(sum(counts.drop_last()) + v == counts.len() * v) by (nonlinear_arith)
            requires
                sum(counts.drop_last()) == (counts.len() - 1) * v,
        ;
    } else {
        assert(0 == counts.len() * v) by (nonlinear_arith)
            requires
                counts.len() == 0,
        ;
    }
}

/// Where no segment holds a stale byte, and there is a byte at all, the
/// space amplification is 1 and the share of stale bytes is 0, however
/// many segments there are.
pub proof fn lemma_nothing_stale(segs: Seq<SegmentView>)
    requires
        forall|i: int| 0 <= i < segs.len() ==> (#[trigger] segs[i]).gc_stats.stale_bytes == 0,
        total_bytes_of(segs) > 0,
    ensures
        space_amp_of(clamp(total_bytes_of(segs)), clamp(stale_bytes_of(segs))).is_whole(1),
        stale_ratio_of(clamp(total_bytes_of(segs)), clamp(stale_bytes_of(segs))) == Ratio::zero(),
{
    lemma_sum_constant(segs.map_values(|s: SegmentView| s.gc_stats.stale_bytes), 0);
}

/// Where `n` segments hold `v` bytes each, and all but the last one are
/// stale as a whole, the space amplification is `n`: so it is where one
/// key was written `n` times, into `n` files.
pub proof fn lemma_space_amp_of_overwrites(segs: Seq<SegmentView>, v: u64)
    requires
        segs.len() >= 1,
        v > 0,
        segs.len() * v <= u64::MAX,
        forall|i: int| 0 <= i < segs.len() ==> (#[trigger] segs[i]).meta.total_uncompressed_bytes == v,
        forall|i: int| 0 <= i < segs.len() - 1 ==> (#[trigger] segs[i]).gc_stats.stale_bytes == v,
        segs.last().gc_stats.stale_bytes == 0,
    ensures
        space_amp_of(clamp(total_bytes_of(segs)), clamp(stale_bytes_of(segs))).is_whole(segs.len()),
{
    let n = segs.len();
    let totals = segs.map_values(|s: SegmentView| s.meta.total_uncompressed_bytes);
    let stales = segs.map_values(|s: SegmentView| s.gc_stats.stale_bytes);
    lemma_sum_constant(totals, v);
    lemma_sum_constant(stales.drop_last(), v);
    assert(sum(stales) == (n - 1) * v);
    assert(n * v - (n - 1) * v == v && (n - 1) * v < n * v && (n - 1) * v >= 0) by (nonlinear_arith)
        requires
            n >= 1,
            v > 0,
    ;
}

/// The bytes that the values of `segs` take on disk.
pub open spec fn disk_space_of(segs: Seq<SegmentView>) -> nat {
    sum(segs.map_values(|s: SegmentView| s.meta.compressed_bytes))
}

/// The bytes of the values of `segs` as they were given.
pub open spec fn total_bytes_of(segs: Seq<SegmentView>) -> nat {
    sum(segs.map_values(|s: SegmentView| s.meta.total_uncompressed_bytes))
}

/// The stale bytes of `segs`.
pub open spec fn stale_bytes_of(segs: Seq<SegmentView>) -> nat {
    sum(segs.map_values(|s: SegmentView| s.gc_stats.stale_bytes))
}

/// The share of stale bytes: 0 where there are no bytes or no stale ones,
/// else the stale bytes over all bytes.
pub open spec fn stale_ratio_of(total: u64, stale: u64) -> Ratio {
    if total == 0 || stale == 0 {
        Ratio::zero()
    } else {
        Ratio { num: stale, den: total }
    }
}

/// The space amplification: all bytes over the live ones, and 0 where
/// there are no bytes or no live ones.
pub open spec fn space_amp_of(total: u64, stale: u64) -> Ratio {
    if total == 0 || stale >= total {
        Ratio::zero()
    } else {
        Ratio { num: total, den: (total - stale) as u64 }
    }
}

/// Whether `id` is among `ids`.
pub fn contains_id(ids: &[SegmentId], id: SegmentId) -> (r: bool)
    ensures
        r == ids@.contains(id),
{
    let mut i: usize = 0;
    while i < ids.len()
        invariant
            i <= ids@.len(),
            forall|j: int| 0 <= j < i ==> ids@[j] != id,
        decreases ids@.len() - i,
    {
        if ids[i] == id {
            return true;
        }
        i = i + 1;
    }
    false
}

/// A blob file that is to be written: its ID and its bytes.
#[derive(Debug)]
pub struct BlobFile {
    /// The ID of the segment, which names the file
    pub id: SegmentId,
    /// The bytes of the file
    pub bytes: Vec<u8>,
}

impl View for BlobFile {
    type V = (SegmentId, Seq<u8>);

    open spec fn view(&self) -> (SegmentId, Seq<u8>) {
        (self.id, self.bytes@)
    }
}

/// The views of some blob files.
pub open spec fn file_views(files: Seq<BlobFile>) -> Seq<(SegmentId, Seq<u8>)> {
    files.map_values(|f: BlobFile| f@)
}

/// The views of some segments.
pub open spec fn segment_views(segments: Seq<Segment>) -> Seq<SegmentView> {
    segments.map_values(|s: Segment| s@)
}

/// Putting a segment in a place changes the view in that place.
pub proof fn lemma_views_update(segments: Seq<Segment>, i: int, segment: Segment)
    requires
        0 <= i < segments.len(),
    ensures
        segment_views(segments.update(i, segment)) == segment_views(segments).update(i, segment@),
{
    assert(segment_views(segments.update(i, segment)) =~= segment_views(segments).update(
        i,
        segment@,
    ));
}

/// A blob file as it is found on disk: the ID that its name states, and
/// its bytes.
#[derive(Debug)]
pub struct SegmentFile<'a> {
    /// The ID that the name of the file states
    pub id: SegmentId,
    /// The bytes of the file
    pub data: &'a [u8],
}

impl<'a> View for SegmentFile<'a> {
    type V = (SegmentId, Seq<u8>);

    open spec fn view(&self) -> (SegmentId, Seq<u8>) {
        (self.id, self.data@)
    }
}

/// The views of some files found on disk.
pub open spec fn found_views(files: Seq<SegmentFile>) -> Seq<(SegmentId, Seq<u8>)> {
    files.map_values(|f: SegmentFile| f@)
}

/// The bytes of the first file with this ID, if there is one.
pub open spec fn find_file(files: Seq<(SegmentId, Seq<u8>)>, id: SegmentId) -> Option<Seq<u8>>
    decreases files.len(),
{
    if files.len() == 0 {
        None
    } else if files[0].0 == id {
        Some(files[0].1)
    } else {
        find_file(files.skip(1), id)
    }
}

/// The segment that is recovered for an ID: the metadata that the trailer
/// of its file points at, and no stale item. There is none where the file
/// is missing or its trailer or metadata cannot be read.
pub open spec fn recovered_segment(files: Seq<(SegmentId, Seq<u8>)>, id: SegmentId) -> Option<
    SegmentView,
> {
    match find_file(files, id) {
        Some(data) => match parse_trailer(data) {
            Ok(found) => Some(
                SegmentView {
                    id,
                    meta: found.0,
                    gc_stats: GcStats { stale_items: 0, stale_bytes: 0 },
                },
            ),
            Err(_) => None,
        },
        None => None,
    }
}

/// The segments that are recovered for the IDs of a manifest file, in
/// their order. There are none where an ID occurs twice or has no segment.
pub open spec fn recovered(ids: Seq<SegmentId>, files: Seq<(SegmentId, Seq<u8>)>) -> Option<
    Seq<SegmentView>,
>
    decreases ids.len(),
{
    if ids.len() == 0 {
        Some(Seq::empty())
    } else {
        match recovered(ids.drop_last(), files) {
            Some(segs) => if has_id(segs, ids.last()) {
                None
            } else {
                match recovered_segment(files, ids.last()) {
                    Some(seg) => Some(segs.push(seg)),
                    None => None,
                }
            },
            None => None,
        }
    }
}

/// Where the first `k` IDs cannot be recovered, the IDs cannot.
pub proof fn lemma_recovered_prefix(ids: Seq<SegmentId>, files: Seq<(SegmentId, Seq<u8>)>, k: int)
    requires
        0 <= k <= ids.len(),
        recovered(ids.take(k), files) is None,
    ensures
        recovered(ids, files) is None,
    decreases ids.len() - k,
{
    if k < ids.len() {
        assert(ids.take(k + 1).drop_last() =~= ids.take(k));
        lemma_recovered_prefix(ids, files, k + 1);
    } else {
        assert(ids.take(k) =~= ids);
    }
}

/// The recovered segments have the IDs of the manifest file.
pub proof fn lemma_recovered_ids(ids: Seq<SegmentId>, files: Seq<(SegmentId, Seq<u8>)>)
    requires
        recovered(ids, files) is Some,
    ensures
        ids_of(recovered(ids, files)->Some_0) == ids,
        distinct_ids(recovered(ids, files)->Some_0),
    decreases ids.len(),
{
    if ids.len() > 0 {
        lemma_recovered_ids(ids.drop_last(), files);
        let head = recovered(ids.drop_last(), files)->Some_0;
        let all = recovered(ids, files)->Some_0;
        assert(ids_of(all) =~= ids_of(head).push(ids.last()));
        assert(ids_of(head).push(ids.last()) =~= ids);
        assert forall|i: int, j: int| 0 <= i < j < all.len() implies (#[trigger] all[i]).id != (
        #[trigger] all[j]).id by {
            if j < head.len() {
                assert(head[i].id != head[j].id);
            } else {
                assert(head[i].id == all[i].id);
            }
        }
    } else {
        assert(ids_of(recovered(ids, files)->Some_0) =~= ids);
    }
}

/// The number that decimal digits denote.
pub open spec fn digits_value(digits: Seq<u8>) -> nat
    decreases digits.len(),
{
    if digits.len() == 0 {
        0
    } else {
        digits_value(digits.drop_last()) * 10 + (digits.last() - 0x30) as nat
    }
}

/// Whether every byte is a decimal digit.
pub open spec fn all_digits(digits: Seq<u8>) -> bool {
    forall|i: int| 0 <= i < digits.len() ==> 0x30 <= #[trigger] digits[i] <= 0x39
}

/// The ID that a file name states: one or more decimal digits that denote a
/// `u64`, with or without a plus sign before them.
pub open spec fn parse_decimal(name: Seq<u8>) -> Option<SegmentId> {
    let digits = if name.len() > 0 && name[0] == 0x2b {
        name.skip(1)
    } else {
        name
    };
    if digits.len() > 0 && all_digits(digits) && digits_value(digits) <= u64::MAX {
        Some(digits_value(digits) as u64)
    } else {
        None
    }
}

/// More digits do not denote less.
pub proof fn lemma_digits_grow(digits: Seq<u8>, k: int)
    requires
        0 <= k <= digits.len(),
        all_digits(digits),
    ensures
        digits_value(digits.take(k)) <= digits_value(digits),
    decreases digits.len() - k,
{
    if k < digits.len() {
        assert(digits.take(k + 1).drop_last() =~= digits.take(k));
        lemma_digits_grow(digits, k + 1);
        assert(0x30 <= digits[k] <= 0x39);
    } else {
        assert(digits.take(k) =~= digits);
    }
}

/// Reads the ID that a file name states.
pub fn parse_segment_id(name: &[u8]) -> (r: Option<SegmentId>)
    ensures
        r == parse_decimal(name@),
{
    let start: usize = if name.len() > 0 && name[0] == 0x2b { 1 } else { 0 };
    let ghost digits = name@.skip(start as int);
    if name.len() == start {
        return None;
    }
    let mut value: u64 = 0;
    let mut i: usize = start;
    assert(digits.take(0) =~= Seq::<u8>::empty());
    assert(name@.skip(0) =~= name@);
    while i < name.len()
        invariant
            start <= i <= name@.len(),
            start < name@.len(),
            start == if name@.len() > 0 && name@[0] == 0x2b { 1usize } else { 0usize },
            digits == name@.skip(start as int),
            all_digits(digits.take(i - start)),
            value == digits_value(digits.take(i - start)),
        decreases name@.len() - i,
    {
        let c: u8 = name[i];
        let ghost k = i - start;
        assert(digits[k] == c);
        assert(digits.take(k + 1).drop_last() =~= digits.take(k));
        if c < 0x30 || c > 0x39 {
            return None;
        }
        let digit: u64 = (c - 0x30) as u64;
        if value > (u64::MAX - digit) / 10 {
            proof {
                assert(digits.take(k + 1).last() == c);
                assert(digits_value(digits.take(k + 1)) == value * 10 + digit);
                assert(value * 10 + digit > u64::MAX);
                assert(name@.skip(0) =~= name@);
                if all_digits(digits) {
                    lemma_digits_grow(digits, k + 1);
                }
            }
            return None;
        }
        value = value * 10 + digit;
        i = i + 1;
        assert forall|j: int| 0 <= j < digits.take(k + 1).len() implies 0x30
            <= #[trigger] digits.take(k + 1)[j] <= 0x39 by {
            if j < k {
                assert(digits.take(k)[j] == digits.take(k + 1)[j]);
            }
        }
    }
    assert(digits.take(i - start) =~= digits);
    Some(value)
}

/// The places of the files that no segment of the manifest owns: those
/// whose name states an ID that is not among `ids`. A file whose name
/// states no ID is none of them.
pub open spec fn unfinished(names: Seq<Seq<u8>>, ids: Seq<SegmentId>) -> Seq<usize>
    decreases names.len(),
{
    if names.len() == 0 {
        Seq::empty()
    } else {
        let before = unfinished(names.drop_last(), ids);
        match parse_decimal(names.last()) {
            Some(id) => if ids.contains(id) {
                before
            } else {
                before.push((names.len() - 1) as usize)
            },
            None => before,
        }
    }
}

/// A file is named for removal exactly where its name states an ID that is
/// not in the manifest: so a file that states none, such as `.DS_Store`,
/// never is.
pub proof fn lemma_unfinished(names: Seq<Seq<u8>>, ids: Seq<SegmentId>, i: int)
    requires
        0 <= i < names.len() <= usize::MAX,
    ensures
        unfinished(names, ids).contains(i as usize) <==> (parse_decimal(names[i]) matches Some(id)
            && !ids.contains(id)),
        forall|k: int|
            0 <= k < unfinished(names, ids).len() ==> (#[trigger] unfinished(names, ids)[k])
                < names.len(),
    decreases names.len(),
{
    let head = names.drop_last();
    let before = unfinished(head, ids);
    let all = unfinished(names, ids);
    if names.len() > 1 {
        lemma_unfinished(head, ids, 0);
    }
    if i < names.len() - 1 {
        lemma_unfinished(head, ids, i);
        if before.contains(i as usize) {
            let k = choose|k: int| 0 <= k < before.len() && before[k] == i as usize;
            assert(all[k] == i as usize);
        }
        if all.contains(i as usize) {
            let k = choose|k: int| 0 <= k < all.len() && all[k] == i as usize;
            if k < before.len() {
                assert(before[k] == i as usize);
            }
        }
    } else {
        if all.contains(i as usize) {
            let k = choose|k: int| 0 <= k < all.len() && all[k] == i as usize;
            if k < before.len() {
                assert(before[k] < head.len());
            }
        }
        if parse_decimal(names[i]) matches Some(id) && !ids.contains(id) {
            assert(all[before.len() as int] == i as usize);
        }
    }
}

/// The name `.DS_Store`, under which a file browser keeps its notes.
pub open spec fn ds_store_name() -> Seq<u8> {
    seq![0x2eu8, 0x44u8, 0x53u8, 0x5fu8, 0x53u8, 0x74u8, 0x6fu8, 0x72u8, 0x65u8]
}

/// A file with the name `.DS_Store` is never named for removal: its name
/// states no ID.
pub proof fn lemma_ds_store_is_kept(names: Seq<Seq<u8>>, ids: Seq<SegmentId>, i: int)
    requires
        0 <= i < names.len() <= usize::MAX,
        names[i] == ds_store_name(),
    ensures
        !unfinished(names, ids).contains(i as usize),
{
    lemma_unfinished(names, ids, i);
    assert(names[i][0] == 0x2e);
}

/// A file whose name states an ID that the manifest does not list is
/// named for removal.
pub proof fn lemma_orphan_is_removed(names: Seq<Seq<u8>>, ids: Seq<SegmentId>, i: int)
    requires
        0 <= i < names.len() <= usize::MAX,
        parse_decimal(names[i]) matches Some(id) && !ids.contains(id),
    ensures
        unfinished(names, ids).contains(i as usize),
{
    lemma_unfinished(names, ids, i);
}

/// The views of some file names.
pub open spec fn name_views(names: Seq<Vec<u8>>) -> Seq<Seq<u8>> {
    names.map_values(|n: Vec<u8>| n@)
}

/// Picks the files of the segments folder that recovery removes, by their
/// places in `names`: the names of the regular files in the folder.
pub fn unfinished_segments(names: &[Vec<u8>], registered_ids: &[SegmentId]) -> (r: Vec<usize>)
    ensures
        r@ == unfinished(name_views(names@), registered_ids@),
{
    let ghost all = name_views(names@);
    let mut picked: Vec<usize> = Vec::new();
    let mut i: usize = 0;
    assert(all.take(0) =~= Seq::<Seq<u8>>::empty());
    while i < names.len()
        invariant
            i <= names@.len(),
            all == name_views(names@),
            picked@ == unfinished(all.take(i as int), registered_ids@),
        decreases names@.len() - i,
    {
        assert(all.take(i + 1).drop_last() =~= all.take(i as int));
        assert(all.take(i + 1).last() == names@[i as int]@);
        match parse_segment_id(names[i].as_slice()) {
            Some(id) => {
                if !contains_id(registered_ids, id) {
                    picked.push(i);
                }
            },
            None => {},
        }
        i = i + 1;
    }
    assert(all.take(i as int) =~= all);
    picked
}

/// The set of the live segments of a value log.
#[derive(Debug)]
pub struct SegmentManifest {
    segments: Vec<Segment>,
}

impl View for SegmentManifest {
    type V = Seq<SegmentView>;

    closed spec fn view(&self) -> Seq<SegmentView> {
        segment_views(self.segments@)
    }
}

impl Clone for SegmentManifest {
    fn clone(&self) -> (r: Self)
        ensures
            r@ == self@,
    {
        SegmentManifest { segments: clone_segments(&self.segments) }
    }
}

/// Copies of some segments.
fn clone_segments(segments: &Vec<Segment>) -> (r: Vec<Segment>)
    ensures
        segment_views(r@) == segment_views(segments@),
{
    let mut copies: Vec<Segment> = Vec::new();
    let mut i: usize = 0;
    while i < segments.len()
        invariant
            i <= segments@.len(),
            copies@.len() == i,
            forall|j: int| 0 <= j < i ==> (#[trigger] copies@[j])@ == segments@[j]@,
        decreases segments@.len() - i,
    {
        copies.push(segments[i].clone());
        i = i + 1;
    }
    assert(segment_views(copies@) =~= segment_views(segments@));
    copies
}

/// The bytes of the first file with this ID, if there is one.
pub fn file_of<'a>(files: &[SegmentFile<'a>], id: SegmentId) -> (r: Option<&'a [u8]>)
    ensures
        match r {
            Some(data) => find_file(found_views(files@), id) == Some(data@),
            None => find_file(found_views(files@), id) is None,
        },
{
    let ghost found = found_views(files@);
    let mut i: usize = 0;
    assert(found.skip(0) =~= found);
    while i < files.len()
        invariant
            i <= files@.len(),
            found == found_views(files@),
            find_file(found, id) == find_file(found.skip(i as int), id),
        decreases files@.len() - i,
    {
        assert(found.skip(i as int)[0] == files@[i as int]@);
        assert(found.skip(i as int).skip(1) =~= found.skip(i + 1));
        if files[i].id == id {
            return Some(files[i].data);
        }
        i = i + 1;
    }
    None
}

/// Recovers the segment with this ID from the files found on disk.
fn recover_segment(files: &[SegmentFile], id: SegmentId) -> (r: Option<Segment>)
    ensures
        match r {
            Some(s) => recovered_segment(found_views(files@), id) == Some(s@),
            None => recovered_segment(found_views(files@), id) is None,
        },
{
    match file_of(files, id) {
        Some(data) => match SegmentFileTrailer::from_file(data) {
            Ok(trailer) => Some(Segment { id, meta: trailer.metadata, gc_stats: GcStats::default() }),
            Err(_) => None,
        },
        None => None,
    }
}

impl SegmentManifest {
    /// What holds of every manifest: no ID occurs twice.
    pub open spec fn wf(&self) -> bool {
        distinct_ids(self@)
    }

    /// A manifest without segments.
    pub fn create_new() -> (r: Self)
        ensures
            r.wf(),
            r@ == Seq::<SegmentView>::empty(),
    {
        let r = SegmentManifest { segments: Vec::new() };
        assert(r@ =~= Seq::<SegmentView>::empty());
        r
    }

    /// Recovers the manifest from the bytes of its file, the names that
    /// were found in the segments folder and the blob files among them.
    ///
    /// A manifest file that ends before its IDs do gives an I/O error. An ID
    /// that it lists twice, or whose file is missing or has no readable
    /// trailer and metadata, gives `Unrecoverable`.
    ///
    /// Returns the manifest, and the places, among the names, of the files
    /// that are to be removed: those of segments that the manifest file
    /// does not list.
    pub fn recover(manifest: &[u8], names: &[Vec<u8>], files: &[SegmentFile]) -> (r: Result<
        (Self, Vec<usize>),
        Error,
    >)
        ensures
            match r {
                Ok((m, unlink)) => {
                    &&& m.wf()
                    &&& parse_manifest(manifest@) matches Some(ids)
                    &&& recovered(ids, found_views(files@)) == Some(m@)
                    &&& unlink@ == unfinished(name_views(names@), ids)
                },
                Err(e) => match parse_manifest(manifest@) {
                    Some(ids) => recovered(ids, found_views(files@)) is None && e is Unrecoverable,
                    None => e is Io,
                },
            },
    {
        let ids = load_ids(manifest)?;
        let ghost found = found_views(files@);
        let mut m = SegmentManifest::create_new();
        let mut i: usize = 0;
        assert(ids@.take(0) =~= Seq::<SegmentId>::empty());
        while i < ids.len()
            invariant
                i <= ids@.len(),
                found == found_views(files@),
                parse_manifest(manifest@) == Some(ids@),
                m.wf(),
                recovered(ids@.take(i as int), found) == Some(m@),
            decreases ids@.len() - i,
        {
            let id: SegmentId = ids[i];
            proof {
                assert(ids@.take(i + 1).drop_last() =~= ids@.take(i as int));
                assert(ids@.take(i + 1).last() == id);
            }
            if m.position(id).is_some() {
                proof {
                    assert(has_id(m@, id));
                    assert(recovered(ids@.take(i + 1), found) is None);
                    lemma_recovered_prefix(ids@, found, i + 1);
                }
                return Err(Error::Unrecoverable);
            }
            let segment = match recover_segment(files, id) {
                Some(segment) => segment,
                None => {
                    proof {
                        assert(recovered(ids@.take(i + 1), found) is None);
                        lemma_recovered_prefix(ids@, found, i + 1);
                    }
                    return Err(Error::Unrecoverable);
                },
            };
            m.insert(segment);
            i = i + 1;
        }
        assert(ids@.take(i as int) =~= ids@);
        let unlink = unfinished_segments(names, ids.as_slice());
        Ok((m, unlink))
    }

    /// The greatest ID of a segment, or 0 where there is no segment.
    pub fn highest_id(&self) -> (r: SegmentId)
        ensures
            r == highest_of(self@),
    {
        let mut highest: SegmentId = 0;
        let mut i: usize = 0;
        assert(self@.take(0) =~= Seq::<SegmentView>::empty());
        while i < self.segments.len()
            invariant
                i <= self.segments@.len(),
                highest == highest_of(self@.take(i as int)),
            decreases self.segments@.len() - i,
        {
            assert(self@.take(i + 1).drop_last() =~= self@.take(i as int));
            if self.segments[i].id > highest {
                highest = self.segments[i].id;
            }
            i = i + 1;
        }
        assert(self@.take(i as int) =~= self@);
        highest
    }

    /// The place of the segment with this ID, if there is one.
    fn position(&self, id: SegmentId) -> (r: Option<usize>)
        ensures
            match r {
                Some(i) => i < self@.len() && self@[i as int].id == id,
                None => !has_id(self@, id),
            },
    {
        let mut i: usize = 0;
        while i < self.segments.len()
            invariant
                i <= self.segments@.len(),
                forall|j: int| 0 <= j < i ==> (#[trigger] self@[j]).id != id,
            decreases self.segments@.len() - i,
        {
            if self.segments[i].id == id {
                return Some(i);
            }
            i = i + 1;
        }
        None
    }

    /// Puts `segment` in the place of the segment of the same ID, or behind
    /// the others where there is none.
    pub fn insert(&mut self, segment: Segment)
        requires
            old(self).wf(),
        ensures
            final(self).wf(),
            final(self)@ == put_segment(old(self)@, segment@),
    {
        let ghost before = self@;
        match self.position(segment.id) {
            Some(i) => {
                let ghost list = self.segments@;
                proof {
                    lemma_lookup(before, i as int);
                    lemma_views_update(list, i as int, segment);
                }
                self.segments.set(i, segment);
                assert forall|j: int| 0 <= j < before.len() implies #[trigger] self@[j]
                    == put_segment(before, segment@)[j] by {
                    if j < i {
                        assert(before[j].id != before[i as int].id);
                    } else if j > i {
                        assert(before[i as int].id != before[j].id);
                    }
                }
                assert(self@ =~= put_segment(before, segment@));
            },
            None => {
                self.segments.push(segment);
                assert(self@ =~= put_segment(before, segment@));
            },
        }
    }

    /// Registers the files of a writer: it is finished, and each of its
    /// files that holds an item joins the manifest. Returns those files,
    /// which are to be written.
    pub fn register<C: Compressor + Clone>(&mut self, writer: MultiWriter<C>) -> (r: Result<
        Vec<BlobFile>,
        Error,
    >)
        requires
            old(self).wf(),
            writer.wf(),
        ensures
            final(self).wf(),
            r matches Ok(files) && file_views(files@) == files_of(writer@.finished()),
            final(self)@ == registered(old(self)@, writer@.finished()),
            forall|i: int|
                0 <= i < writer@.finished().len() ==> (#[trigger] writer@.finished()[i]).wf(),
    {
        let ghost all = writer@.finished();
        let ghost start = self@;
        let mut writers = writer.finish()?;
        let mut files: Vec<BlobFile> = Vec::new();
        let ghost mut done: int = 0;
        assert(all.take(0) =~= Seq::<WriterView>::empty());
        assert(file_views(files@) =~= Seq::<(SegmentId, Seq<u8>)>::empty());
        assert forall|j: int| 0 <= j < writers@.len() implies (#[trigger] writers@[j])@
            == all[j] by {
            assert(writer_views(writers@)[j] == all[j]);
        }
        while writers.len() > 0
            invariant
                0 <= done <= all.len(),
                self.wf(),
                forall|i: int| 0 <= i < all.len() ==> (#[trigger] all[i]).wf(),
                writers@.len() + done == all.len(),
                forall|j: int| 0 <= j < writers@.len() ==> (#[trigger] writers@[j])@ == all[done + j],
                self@ == registered(start, all.take(done)),
                file_views(files@) == files_of(all.take(done)),
            decreases writers@.len(),
        {
            let ghost queue = writers@;
            let w = writers.remove(0);
            proof {
                assert(w@ == queue[0]@);
                assert forall|j: int| 0 <= j < writers@.len() implies (#[trigger] writers@[j])@
                    == all[done + 1 + j] by {
                    assert(writers@[j] == queue[j + 1]);
                }
                assert(all.take(done + 1).drop_last() =~= all.take(done));
                assert(all.take(done + 1).last() == all[done]);
                done = done + 1;
            }
            if w.item_count() > 0 {
                let segment = Segment {
                    id: w.segment_id(),
                    meta: w.metadata(),
                    gc_stats: GcStats::default(),
                };
                self.insert(segment);
                let ghost before = files@;
                files.push(BlobFile { id: w.segment_id(), bytes: w.into_bytes() });
                assert(file_views(files@) =~= file_views(before).push((w@.segment_id, w@.bytes)));
            }
        }
        assert(all.take(done) =~= all);
        Ok(files)
    }

    /// Drops all segments.
    ///
    /// This does not delete the files from disk, but just un-refs them from the manifest.
    pub fn clear(&mut self)
        ensures
            final(self).wf(),
            final(self)@ == Seq::<SegmentView>::empty(),
    {
        self.segments.clear();
        assert(self@ =~= Seq::<SegmentView>::empty());
    }

    /// Drops the given segments.
    ///
    /// This does not delete the files from disk, but just un-refs them from the manifest.
    pub fn drop_segments(&mut self, ids: &[SegmentId])
        requires
            old(self).wf(),
        ensures
            final(self).wf(),
            final(self)@ == without(old(self)@, ids@),
    {
        let ghost before = self@;
        let mut kept: Vec<Segment> = Vec::new();
        let mut i: usize = 0;
        assert(segment_views(kept@) =~= without(before.take(0), ids@));
        while i < self.segments.len()
            invariant
                i <= self.segments@.len(),
                self@ == before,
                segment_views(kept@) == without(before.take(i as int), ids@),
            decreases self.segments@.len() - i,
        {
            assert(before.take(i + 1).drop_last() =~= before.take(i as int));
            if !contains_id(ids, self.segments[i].id) {
                let ghost k = kept@;
                kept.push(self.segments[i].clone());
                assert(segment_views(kept@) =~= segment_views(k).push(before[i as int]));
            }
            i = i + 1;
        }
        assert(before.take(i as int) =~= before);
        self.segments = kept;
        proof {
            lemma_without(before, ids@);
        }
    }

    /// Gets a segment
    pub fn get_segment(&self, id: SegmentId) -> (r: Option<&Segment>)
        requires
            self.wf(),
        ensures
            match r {
                Some(s) => lookup(self@, id) == Some(s@) && s@.id == id,
                None => lookup(self@, id) is None,
            },
    {
        match self.position(id) {
            Some(i) => {
                proof {
                    lemma_lookup(self@, i as int);
                }
                Some(&self.segments[i])
            },
            None => None,
        }
    }

    /// Lists all segment IDs
    pub fn list_segment_ids(&self) -> (r: Vec<SegmentId>)
        ensures
            r@ == ids_of(self@),
    {
        let mut ids: Vec<SegmentId> = Vec::new();
        let mut i: usize = 0;
        while i < self.segments.len()
            invariant
                i <= self.segments@.len(),
                ids@ == ids_of(self@.take(i as int)),
            decreases self.segments@.len() - i,
        {
            ids.push(self.segments[i].id);
            i = i + 1;
            assert(ids@ =~= ids_of(self@.take(i as int)));
        }
        assert(self@.take(i as int) =~= self@);
        ids
    }

    /// Lists all segments
    pub fn list_segments(&self) -> (r: Vec<Segment>)
        ensures
            segment_views(r@) == self@,
    {
        clone_segments(&self.segments)
    }

    /// Counts segments
    pub fn len(&self) -> (r: usize)
        ensures
            r == self@.len(),
    {
        self.segments.len()
    }

    /// The bytes of the manifest file that lists the segments.
    pub fn manifest_file(&self) -> (r: Vec<u8>)
        ensures
            r@ == manifest_bytes(ids_of(self@)),
    {
        let ids = self.list_segment_ids();
        encode_ids(ids.as_slice())
    }

    /// Marks the segments with the given IDs as fully stale. An ID that no
    /// segment has is passed over.
    pub fn mark_as_stale(&mut self, ids: &[SegmentId])
        requires
            old(self).wf(),
        ensures
            final(self).wf(),
            final(self)@ == marked_stale(old(self)@, ids@),
    {
        let ghost before = self@;
        let mut i: usize = 0;
        while i < self.segments.len()
            invariant
                i <= self.segments@.len(),
                self@.len() == before.len(),
                forall|j: int| 0 <= j < i ==> #[trigger] self@[j] == marked_stale(before, ids@)[j],
                forall|j: int| i <= j < before.len() ==> #[trigger] self@[j] == before[j],
            decreases self.segments@.len() - i,
        {
            let ghost now = self@;
            assert(now[i as int] == before[i as int]);
            if contains_id(ids, self.segments[i].id) {
                let ghost list = self.segments@;
                let mut segment = self.segments[i].clone();
                segment.mark_as_stale();
                self.segments.set(i, segment);
                proof {
                    lemma_views_update(list, i as int, segment);
                    assert(self@ == now.update(i as int, before[i as int].marked_stale()));
                }
            }
            assert(self@[i as int] == marked_stale(before, ids@)[i as int]);
            i = i + 1;
        }
        assert(self@ =~= marked_stale(before, ids@));
        assert forall|a: int, b: int| 0 <= a < b < self@.len() implies (#[trigger] self@[a]).id != (
        #[trigger] self@[b]).id by {
            assert(before[a].id != before[b].id);
        }
    }

    /// Sets what a scan found out about the segment at `index`.
    pub fn set_gc_stats(&mut self, index: usize, stale_items: u64, stale_bytes: u64)
        requires
            old(self).wf(),
            index < old(self)@.len(),
        ensures
            final(self).wf(),
            final(self)@ == old(self)@.update(
                index as int,
                SegmentView {
                    gc_stats: GcStats { stale_items, stale_bytes },
                    ..old(self)@[index as int]
                },
            ),
    {
        let ghost before = self@;
        let ghost list = self.segments@;
        let mut segment = self.segments[index].clone();
        segment.gc_stats.set_stale_items(stale_items);
        segment.gc_stats.set_stale_bytes(stale_bytes);
        self.segments.set(index, segment);
        proof {
            lemma_views_update(list, index as int, segment);
            assert forall|a: int, b: int| 0 <= a < b < self@.len() implies (#[trigger] self@[a]).id
                != (#[trigger] self@[b]).id by {
                assert(before[a].id != before[b].id);
            }
        }
        assert(self@ =~= before.update(
            index as int,
            SegmentView { gc_stats: GcStats { stale_items, stale_bytes }, ..before[index as int] },
        ));
    }

    /// The segment at `index`, in the order of `list_segments`.
    pub fn segment_at(&self, index: usize) -> (r: &Segment)
        requires
            index < self@.len(),
        ensures
            r@ == self@[index as int],
    {
        &self.segments[index]
    }

    /// Returns the amount of bytes on disk that are occupied by blobs.
    /// The sum stops at the greatest `u64`.
    pub fn disk_space_used(&self) -> (r: u64)
        ensures
            r == clamp(disk_space_of(self@)),
    {
        let ghost counts = self@.map_values(|s: SegmentView| s.meta.compressed_bytes);
        let mut total: u64 = 0;
        let mut i: usize = 0;
        while i < self.segments.len()
            invariant
                i <= self.segments@.len(),
                counts == self@.map_values(|s: SegmentView| s.meta.compressed_bytes),
                total == clamp(sum(counts.take(i as int))),
            decreases self.segments@.len() - i,
        {
            assert(counts.take(i + 1).drop_last() =~= counts.take(i as int));
            total = total.saturating_add(self.segments[i].meta.compressed_bytes);
            i = i + 1;
        }
        assert(counts.take(i as int) =~= counts);
        total
    }

    /// Returns the amount of bytes of the values as they were given.
    /// The sum stops at the greatest `u64`.
    pub fn total_bytes(&self) -> (r: u64)
        ensures
            r == clamp(total_bytes_of(self@)),
    {
        let ghost counts = self@.map_values(|s: SegmentView| s.meta.total_uncompressed_bytes);
        let mut total: u64 = 0;
        let mut i: usize = 0;
        while i < self.segments.len()
            invariant
                i <= self.segments@.len(),
                counts == self@.map_values(|s: SegmentView| s.meta.total_uncompressed_bytes),
                total == clamp(sum(counts.take(i as int))),
            decreases self.segments@.len() - i,
        {
            assert(counts.take(i + 1).drop_last() =~= counts.take(i as int));
            total = total.saturating_add(self.segments[i].meta.total_uncompressed_bytes);
            i = i + 1;
        }
        assert(counts.take(i as int) =~= counts);
        total
    }

    /// Returns the amount of stale bytes. The sum stops at the greatest
    /// `u64`.
    pub fn stale_bytes(&self) -> (r: u64)
        ensures
            r == clamp(stale_bytes_of(self@)),
    {
        let ghost counts = self@.map_values(|s: SegmentView| s.gc_stats.stale_bytes);
        let mut total: u64 = 0;
        let mut i: usize = 0;
        while i < self.segments.len()
            invariant
                i <= self.segments@.len(),
                counts == self@.map_values(|s: SegmentView| s.gc_stats.stale_bytes),
                total == clamp(sum(counts.take(i as int))),
            decreases self.segments@.len() - i,
        {
            assert(counts.take(i + 1).drop_last() =~= counts.take(i as int));
            total = total.saturating_add(self.segments[i].gc_stats.stale_bytes());
            i = i + 1;
        }
        assert(counts.take(i as int) =~= counts);
        total
    }

    /// Returns the share of dead bytes (uncompressed) in the value log
    pub fn stale_ratio(&self) -> (r: Ratio)
        ensures
            r == stale_ratio_of(clamp(total_bytes_of(self@)), clamp(stale_bytes_of(self@))),
    {
        let total_bytes: u64 = self.total_bytes();
        if total_bytes == 0 {
            return Ratio::new(0, 1);
        }
        let stale_bytes: u64 = self.stale_bytes();
        if stale_bytes == 0 {
            return Ratio::new(0, 1);
        }
        Ratio::new(stale_bytes, total_bytes)
    }

    /// Returns the approximate space amplification
    ///
    /// Returns 0 if there are no items or the entire value log is stale.
    pub fn space_amp(&self) -> (r: Ratio)
        ensures
            r == space_amp_of(clamp(total_bytes_of(self@)), clamp(stale_bytes_of(self@))),
    {
        let total_bytes: u64 = self.total_bytes();
        if total_bytes == 0 {
            return Ratio::new(0, 1);
        }
        let stale_bytes: u64 = self.stale_bytes();
        if stale_bytes >= total_bytes {
            return Ratio::new(0, 1);
        }
        Ratio::new(total_bytes, total_bytes - stale_bytes)
    }
}

} // verus!
