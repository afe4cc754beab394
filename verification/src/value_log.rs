//! The value log: its life cycle, its reads and its garbage collection.

use crate::blob_cache::BlobCache;
use crate::blob_cache::ValueLogId;
use crate::compression::Compressor;
use crate::config::Config;
use crate::error::Error;
use crate::id::succ_id;
use crate::id::IdGenerator;
use crate::id::SegmentId;
use crate::manifest::clamp;
use crate::manifest::disk_space_of;
use crate::manifest::file_views;
use crate::manifest::files_of;
use crate::manifest::found_views;
use crate::manifest::highest_of;
use crate::manifest::ids_below;
use crate::manifest::ids_of;
use crate::manifest::manifest_bytes;
use crate::manifest::marked_stale;
use crate::manifest::name_views;
use crate::manifest::parse_manifest;
use crate::manifest::recovered;
use crate::manifest::registered;
use crate::manifest::space_amp_of;
use crate::manifest::stale_bytes_of;
use crate::manifest::sum;
use crate::manifest::total_bytes_of;
use crate::manifest::unfinished;
use crate::manifest::without;
use crate::manifest::BlobFile;
use crate::manifest::SegmentFile;
use crate::manifest::SegmentManifest;
use crate::gc::report::GcReport;
use crate::gc::sub_clamped;
use crate::ratio::Ratio;
use crate::gc::GcStrategy;
use crate::index::Reader as IndexReader;
use crate::index::Writer as IndexWriter;
use crate::manifest::file_of;
use crate::manifest::find_file;
use crate::manifest::has_id;
use crate::segment::merge::entry_count;
use crate::segment::merge::failed_with;
use crate::segment::merge::lane_of;
use crate::segment::merge::lemma_step_count;
use crate::segment::merge::reader_views;
use crate::segment::merge::step;
use crate::segment::merge::Lane;
use crate::segment::merge::MergeReader;
use crate::segment::merge::Step;
use crate::segment::reader::ReaderView;
use crate::coding::EncodeError;
use crate::segment::merge::EntryView;
use crate::segment::multi_writer::stored_given;
use crate::segment::writer::checksum;
use crate::segment::writer::compressed_to;
use crate::segment::writer::reports;
use crate::segment::writer::stored_at;
use crate::segment::writer::write_fault;
use crate::slice::slice_len_ok;
use crate::slice::Slice;
use crate::segment::writer::checksum_of;
use crate::segment::writer::WriterView;
use crate::coding::ByteReader;
use crate::coding::Fault;
use crate::manifest::lookup;
use crate::segment::meta::CompressionType;
use crate::segment::reader::parse_record;
use crate::segment::reader::unpack;
use crate::segment::reader::unpacks_to;
use crate::segment::reader::Reader;
use crate::segment::reader::Scan;
use crate::segment::Segment;
use crate::value::UserKey;
use crate::value::UserValue;
use crate::handle::ValueHandle;
use crate::scanner::add_clamped;
use crate::scanner::counter_of;
use crate::scanner::entries_read;
use crate::scanner::index_failed;
use crate::scanner::initial_counters;
use crate::scanner::scanned;
use crate::scanner::Scanner;
use crate::scanner::SegmentCounter;
use crate::scanner::SizeMap;
use crate::segment::gc_stats::GcStats;
use crate::manifest::lemma_registered_below;
use crate::manifest::lemma_without_below;
use crate::segment::multi_writer::fresh_writer;
use crate::segment::multi_writer::highest_writer_id;
use crate::segment::multi_writer::lemma_highest_writer_id;
use crate::segment::multi_writer::MultiWriter;
use crate::segment::multi_writer::MultiWriterView;
use crate::segment::SegmentView;
use crate::version::file_header;
use crate::version::parsed_header;
use crate::version::Version;
use vstd::prelude::*;

verus! {

/// Hands out a unique (monotonically increasing) value log ID: the next
/// number of the counter that the process keeps for them.
pub fn get_next_vlog_id(counter: &mut IdGenerator) -> (id: ValueLogId)
    ensures
        id == old(counter)@,
        final(counter)@ == succ_id(old(counter)@),
{
    counter.next()
}

/// What is found on disk where a value log was created before.
pub struct Disk<'a> {
    /// The bytes of the marker file `.vlog`
    pub marker: &'a [u8],
    /// The bytes of the manifest file `vlog_manifest`
    pub manifest: &'a [u8],
    /// The names of the regular files in the folder `segments`
    pub names: Vec<Vec<u8>>,
    /// The blob files of that folder whose names state an ID
    pub segments: Vec<SegmentFile<'a>>,
}

/// What is to be written for a new value log.
#[derive(Debug)]
pub struct NewFiles {
    /// The bytes of the marker file `.vlog`
    pub marker: Vec<u8>,
    /// The bytes of the manifest file `vlog_manifest`
    pub manifest: Vec<u8>,
}

/// What is to be done on disk after a change of the segments.
#[derive(Debug)]
pub struct Changes {
    /// The blob files that are to be written, before the manifest file
    pub files: Vec<BlobFile>,
    /// The bytes of the manifest file, which is to be rewritten
    pub manifest: Vec<u8>,
    /// The IDs of the blob files that are to be removed, after the manifest
    /// file was rewritten
    pub unlink: Vec<SegmentId>,
}

/// The IDs of the segments that are fully stale, in their order.
pub open spec fn stale_ids(segs: Seq<SegmentView>) -> Seq<SegmentId>
    decreases segs.len(),
{
    if segs.len() == 0 {
        Seq::empty()
    } else {
        let before = stale_ids(segs.drop_last());
        if segs.last().is_stale() {
            before.push(segs.last().id)
        } else {
            before
        }
    }
}

/// The bytes that the values of the fully stale segments take on disk.
pub open spec fn stale_disk_space(segs: Seq<SegmentView>) -> nat
    decreases segs.len(),
{
    if segs.len() == 0 {
        0
    } else {
        stale_disk_space(segs.drop_last()) + if segs.last().is_stale() {
            segs.last().meta.compressed_bytes as nat
        } else {
            0
        }
    }
}

/// A segment after a scan was consumed. One that the scan has no counter
/// for is left as it is. One of which the index points at an item has as
/// many stale items and bytes as the index does not point at. One of which
/// the index points at nothing is fully stale.
pub open spec fn judged(s: SegmentView, counters: Map<SegmentId, SegmentCounter>) -> SegmentView {
    if !counters.contains_key(s.id) {
        s
    } else if counters[s.id].item_count > 0 {
        SegmentView {
            gc_stats: GcStats {
                stale_items: sub_clamped(s.meta.item_count, counters[s.id].item_count),
                stale_bytes: sub_clamped(s.meta.total_uncompressed_bytes, counters[s.id].size),
            },
            ..s
        }
    } else {
        s.marked_stale()
    }
}

/// The segments after a scan was consumed.
pub open spec fn consumed(segs: Seq<SegmentView>, counters: Map<SegmentId, SegmentCounter>) -> Seq<
    SegmentView,
> {
    segs.map_values(|s: SegmentView| judged(s, counters))
}

/// The report of a scan over the first segments of a value log with
/// `segment_count` segments: the segments that the scan has a counter for
/// are counted, with their bytes and items, and the stale ones of them as
/// `judged` finds them. Every sum stops at the greatest `u64`.
pub open spec fn report_of(
    segs: Seq<SegmentView>,
    counters: Map<SegmentId, SegmentCounter>,
    segment_count: usize,
) -> GcReport
    decreases segs.len(),
{
    if segs.len() == 0 {
        GcReport {
            segment_count,
            stale_segment_count: 0,
            total_bytes: 0,
            stale_bytes: 0,
            total_blobs: 0,
            stale_blobs: 0,
        }
    } else {
        let before = report_of(segs.drop_last(), counters, segment_count);
        let s = segs.last();
        if !counters.contains_key(s.id) {
            before
        } else {
            let after = judged(s, counters);
            GcReport {
                segment_count,
                stale_segment_count: if counters[s.id].item_count > 0 {
                    before.stale_segment_count
                } else {
                    (before.stale_segment_count + 1) as usize
                },
                total_bytes: add_clamped(before.total_bytes, s.meta.total_uncompressed_bytes),
                stale_bytes: add_clamped(before.stale_bytes, after.gc_stats.stale_bytes),
                total_blobs: add_clamped(before.total_blobs, s.meta.item_count),
                stale_blobs: add_clamped(before.stale_blobs, after.gc_stats.stale_items),
            }
        }
    }
}

/// A report counts at most as many stale segments as it was made over.
pub proof fn lemma_report_of(
    segs: Seq<SegmentView>,
    counters: Map<SegmentId, SegmentCounter>,
    segment_count: usize,
)
    ensures
        report_of(segs, counters, segment_count).stale_segment_count <= segs.len(),
        report_of(segs, counters, segment_count).segment_count == segment_count,
    decreases segs.len(),
{
    if segs.len() > 0 {
        lemma_report_of(segs.drop_last(), counters, segment_count);
    }
}

/// What a value log knows of a handle before it reads a file.
pub enum Lookup {
    /// The value lies in the blob cache
    Hit(UserValue),
    /// No segment has the ID of the handle
    Unknown,
    /// The value is to be read from the file of this segment
    Load(SegmentId),
}

/// What stands in a blob file at an offset. An offset beyond the file
/// counts as its end.
pub open spec fn record_at(file: Seq<u8>, offset: u64) -> Scan {
    parse_record(file.skip(start_of(file, offset) as int))
}

/// The place in a file that an offset names: the end of the file for an
/// offset beyond it.
pub open spec fn start_of(file: Seq<u8>, offset: u64) -> nat {
    if offset > file.len() {
        file.len()
    } else {
        offset as nat
    }
}

/// What stops a prefetch of `count` records from `position` on with an
/// error, if anything does: a block that is neither a record nor the
/// metadata block. The end of the file and the metadata block stop it
/// without an error.
pub open spec fn prefetch_fault(file: Seq<u8>, position: nat, count: nat) -> Option<Fault>
    decreases count,
{
    if count == 0 {
        None
    } else {
        match parse_record(file.skip(position as int)) {
            Scan::Record(_, len) => prefetch_fault(file, position + len, (count - 1) as nat),
            Scan::End => None,
            Scan::Failed(Fault::Truncated) => None,
            Scan::Failed(fault) => Some(fault),
        }
    }
}

/// What a blob file has to give to a merge, from its start.
pub open spec fn file_lane(id: SegmentId, data: Seq<u8>) -> Lane {
    lane_of(
        ReaderView { segment_id: id, source: data, position: 0, terminated: false, compressed: false },
    )
}

/// The lanes of the files of the segments `ids`, in their order. There are
/// none where the file of a segment is missing.
pub open spec fn lanes_for(ids: Seq<SegmentId>, files: Seq<(SegmentId, Seq<u8>)>) -> Option<
    Seq<Lane>,
>
    decreases ids.len(),
{
    if ids.len() == 0 {
        Some(Seq::empty())
    } else {
        match (lanes_for(ids.drop_last(), files), find_file(files, ids.last())) {
            (Some(lanes), Some(data)) => Some(lanes.push(file_lane(ids.last(), data))),
            _ => None,
        }
    }
}

/// Where the files of the first `k` segments are not all there, the files
/// of the segments are not.
pub proof fn lemma_lanes_for_prefix(ids: Seq<SegmentId>, files: Seq<(SegmentId, Seq<u8>)>, k: int)
    requires
        0 <= k <= ids.len(),
        lanes_for(ids.take(k), files) is None,
    ensures
        lanes_for(ids, files) is None,
    decreases ids.len() - k,
{
    if k < ids.len() {
        assert(ids.take(k + 1).drop_last() =~= ids.take(k));
        lemma_lanes_for_prefix(ids, files, k + 1);
    } else {
        assert(ids.take(k) =~= ids);
    }
}

/// Opens a reader at the start of the file of each segment. A missing file
/// gives an I/O error.
pub fn open_readers<'a, C: Compressor>(ids: &[SegmentId], files: &[SegmentFile<'a>]) -> (r: Result<
    Vec<Reader<'a, C>>,
    Error,
>)
    ensures
        match r {
            Ok(readers) => lanes_for(ids@, found_views(files@)) == Some(
                reader_views(readers@).map_values(|v: ReaderView| lane_of(v)),
            ),
            Err(e) => lanes_for(ids@, found_views(files@)) is None && e is Io,
        },
{
    let ghost found = found_views(files@);
    let mut readers: Vec<Reader<'a, C>> = Vec::new();
    let mut i: usize = 0;
    assert(ids@.take(0) =~= Seq::<SegmentId>::empty());
    assert(reader_views(readers@).map_values(|v: ReaderView| lane_of(v)) =~= Seq::<Lane>::empty());
    while i < ids.len()
        invariant
            i <= ids@.len(),
            found == found_views(files@),
            lanes_for(ids@.take(i as int), found) == Some(
                reader_views(readers@).map_values(|v: ReaderView| lane_of(v)),
            ),
        decreases ids@.len() - i,
    {
        assert(ids@.take(i + 1).drop_last() =~= ids@.take(i as int));
        let data = match file_of(files, ids[i]) {
            Some(data) => data,
            None => {
                proof {
                    lemma_lanes_for_prefix(ids@, found, i + 1);
                }
                return Err(Error::Io(crate::coding::io_error("blob file is missing")));
            },
        };
        let ghost before = reader_views(readers@).map_values(|v: ReaderView| lane_of(v));
        readers.push(Reader::new(data, ids[i]));
        assert(reader_views(readers@).map_values(|v: ReaderView| lane_of(v)) =~= before.push(
            file_lane(ids@[i as int], data@),
        ));
        i = i + 1;
    }
    assert(ids@.take(i as int) =~= ids@);
    Ok(readers)
}

/// How many of the entries that a merge of `lanes` hands out state a
/// checksum that is not that of their stored value. There is no count
/// where the merge fails.
pub open spec fn mismatches(lanes: Seq<Lane>) -> Option<nat>
    decreases entry_count(lanes),
    via mismatches_ends
{
    match step(lanes) {
        Step::Done => Some(0),
        Step::Failed => None,
        Step::Yield(entry, after) => match mismatches(after) {
            Some(n) => Some(
                if checksum_of(entry.value) != entry.checksum {
                    n + 1
                } else {
                    n
                },
            ),
            None => None,
        },
    }
}

#[via_fn]
proof fn mismatches_ends(lanes: Seq<Lane>) {
    lemma_step_count(lanes);
}

/// Whether a record of the segment `source` is live, given the handle that
/// the index has for its key: the index has one, and it points into that
/// segment or into a newer one.
pub open spec fn is_live(found: Option<ValueHandle>, source: SegmentId) -> bool {
    found matches Some(handle) && handle.segment_id >= source
}

/// Whether a record of the segment `source` is live, given the handle that
/// the index has for its key.
pub fn check_live(found: &Option<ValueHandle>, source: SegmentId) -> (r: bool)
    ensures
        r == is_live(*found, source),
{
    match found {
        Some(handle) => handle.segment_id >= source,
        None => false,
    }
}

/// Whether the segment `source` holds its values as a compressor made
/// them.
pub open spec fn is_compressed(segs: Seq<SegmentView>, source: SegmentId) -> bool {
    lookup(segs, source) matches Some(segment) && segment.meta.compression
        == CompressionType::Custom
}

/// The handle of the next record of a writer: the ID of its active file,
/// and the offset at which that file ends.
pub open spec fn next_handle(writer: MultiWriterView) -> ValueHandle {
    ValueHandle {
        segment_id: writer.active().segment_id,
        offset: writer.active().bytes.len() as u64,
    }
}

/// Whether `r` is the plan for rewriting a value: a value of more than
/// 2^32 - 1 bytes is refused; else the value is to be written under the
/// next handle of the writer.
pub open spec fn staged(
    writer: MultiWriterView,
    value: Seq<u8>,
    r: Result<Option<(ValueHandle, UserValue)>, Error>,
) -> bool {
    if value.len() > 0xffff_ffff {
        r matches Err(Error::Encode(EncodeError::ValueLength(n))) && n == value.len()
    } else {
        r matches Ok(Some(p)) && p.0 == next_handle(writer) && p.1@ == value
    }
}

/// Whether `r` is the plan for a record of the segment `source` with the
/// stored bytes `stored`, given the handle that the index has for its key.
///
/// A record that is not live is passed over: there is nothing to do. The
/// value of a live record is its stored bytes, where the segment is not
/// compressed. Where it is, the value is what the compressor gives for
/// the stored bytes; without a compressor, and for bytes that no slice
/// can hold, the plan fails with `Decompress`, and the error of the
/// compressor is handed on. The value is then staged as `staged` says.
pub open spec fn planned<C: Compressor>(
    segs: Seq<SegmentView>,
    compressor: Option<C>,
    writer: MultiWriterView,
    found: Option<ValueHandle>,
    stored: Seq<u8>,
    source: SegmentId,
    r: Result<Option<(ValueHandle, UserValue)>, Error>,
) -> bool {
    if !is_live(found, source) {
        r matches Ok(None)
    } else if is_compressed(segs, source) {
        match compressor {
            None => r matches Err(Error::Decompress),
            Some(c) => exists|bytes: &[u8], given: Result<Vec<u8>, Error>|
                {
                    &&& bytes@ == stored
                    &&& #[trigger] call_ensures(C::decompress, (&c, bytes), given)
                    &&& match given {
                        Ok(data) => if slice_len_ok(data@.len()) {
                            staged(writer, data@, r)
                        } else {
                            r matches Err(Error::Decompress)
                        },
                        Err(e) => r matches Err(handed) && handed == e,
                    }
                },
        }
    } else {
        staged(writer, stored, r)
    }
}

/// Whether the index writer `writer` was handed the binding of `key` to
/// `handle` and `size`, and gave `r` for it.
pub open spec fn index_took<W: IndexWriter>(
    writer: W,
    key: Seq<u8>,
    handle: ValueHandle,
    size: u32,
    r: std::io::Result<()>,
) -> bool {
    exists|k: &[u8], w: &mut W|
        {
            &&& k@ == key
            &&& *w == writer
            &&& #[trigger] call_ensures(W::insert_indirect, (w, k, handle, size), r)
        }
}

/// Whether an index writer, in some state of its batch, was handed the
/// binding of `key` to `handle` and `size`, and gave `r` for it.
pub open spec fn index_was_told<W: IndexWriter>(
    key: Seq<u8>,
    handle: ValueHandle,
    size: u32,
    r: std::io::Result<()>,
) -> bool {
    exists|writer: W| #[trigger] index_took(writer, key, handle, size, r)
}

/// What a rewriting says of the bytes that were stored: their number, or
/// the error.
pub open spec fn stored_len(r: Result<Rewritten, Error>) -> Result<u32, Error> {
    match r {
        Ok(Some(d)) => Ok(d.2),
        Ok(None) => Ok(0),
        Err(e) => Err(e),
    }
}

/// Whether the write of a value went through the compressor of the
/// writer, where it has one and the key and the value can be written:
/// the compressor was handed the value, and what it gave was stored, or
/// its error handed on, as `stored_given` says.
pub open spec fn packed<C: Compressor>(
    compressor: Option<C>,
    w0: MultiWriterView,
    w1: MultiWriterView,
    key: Seq<u8>,
    value: Seq<u8>,
    r: Result<Rewritten, Error>,
) -> bool {
    compressor matches Some(c) ==> write_fault(key.len(), value.len(), 0) is None ==> exists|
        given: Result<Vec<u8>, Error>,
    |
        {
            &&& #[trigger] compressed_to(c, value, given)
            &&& stored_given(w0, w1, key, value.len(), given, stored_len(r))
        }
}

/// Whether `r` is what the rewriting of a record gives after its plan: a
/// plan that has failed gives its error, and a record that is passed
/// over nothing. A record that is to be rewritten was handed to the index
/// writer `index`: its key, the handle of the plan, and the length of its
/// value; and what the index writer gave was followed as `carried` says,
/// with a write that went through `compressor`, the compressor of the
/// writer, where it has one.
pub open spec fn rewritten_by<W: IndexWriter, C: Compressor>(
    plan: Result<Option<(ValueHandle, UserValue)>, Error>,
    index: W,
    compressor: Option<C>,
    w0: MultiWriterView,
    g0: SegmentId,
    w1: MultiWriterView,
    g1: SegmentId,
    key: Seq<u8>,
    r: Result<Rewritten, Error>,
) -> bool {
    match plan {
        Err(e) => r matches Err(x) && x == e && w1 == w0 && g1 == g0,
        Ok(None) => r matches Ok(None) && w1 == w0 && g1 == g0,
        Ok(Some(p)) => exists|inserted: std::io::Result<()>|
            {
                &&& #[trigger] index_took(index, key, p.0, p.1@.len() as u32, inserted)
                &&& carried(w0, g0, w1, g1, key, p.0, p.1, inserted, r)
                &&& inserted is Ok ==> packed(compressor, w0, w1, key, p.1@, r)
            },
    }
}

/// Whether a write of `key` and `value` has led a writer and its generator
/// from `(w0, g0)` to `(w1, g1)`, with `n` bytes stored: the active file
/// has one more record, and is ended where it has reached the target size.
pub open spec fn written_by(
    w0: MultiWriterView,
    g0: SegmentId,
    w1: MultiWriterView,
    g1: SegmentId,
    key: Seq<u8>,
    value: Seq<u8>,
    n: u32,
) -> bool {
    let grown = w1.writers[w0.writers.len() - 1];
    let stored = stored_at(grown.bytes, w0.active().bytes.len(), key.len(), n as nat);
    let written = w0.active().after_write(key, value.len(), stored);
    &&& stored.len() == n
    &&& write_fault(key.len(), value.len(), n as nat) is None
    &&& !w0.compressed ==> stored == value
    &&& w1 == w0.after_write(written, g0)
    &&& g1 == w0.next_id_after(written, g0)
}

/// What a rewriting has done for a record: the handle under which it was
/// staged in the index writer, its value, and the number of bytes stored.
pub type Rewritten = Option<(ValueHandle, UserValue, u32)>;

/// Whether `r` is what follows the staging of a record in the index
/// writer, which gave `inserted`: its error is handed on as an I/O error,
/// and nothing is written; else the record is written, and an error of the
/// write changes nothing.
pub open spec fn carried(
    w0: MultiWriterView,
    g0: SegmentId,
    w1: MultiWriterView,
    g1: SegmentId,
    key: Seq<u8>,
    handle: ValueHandle,
    value: UserValue,
    inserted: std::io::Result<()>,
    r: Result<Rewritten, Error>,
) -> bool {
    match inserted {
        Err(e) => r matches Err(Error::Io(x)) && x == e && w1 == w0 && g1 == g0,
        Ok(_) => match r {
            Ok(done) => done matches Some(d) && d.0 == handle && d.1 == value && written_by(
                w0,
                g0,
                w1,
                g1,
                key,
                value@,
                d.2,
            ),
            Err(e) => {
                &&& w1 == w0 && g1 == g0
                &&& write_fault(key.len(), value@.len(), 0) matches Some(f) ==> reports(e, f)
                &&& !w0.compressed ==> write_fault(key.len(), value@.len(), 0) is Some
            },
        },
    }
}

/// The handle under which the record of the turn `i` is rewritten, where
/// it is: the next handle of the writer after the turns before it.
pub open spec fn turn_handle(w: MultiWriterView, g: SegmentId, turns: Seq<Turn>, i: int) -> ValueHandle {
    next_handle(replayed(w, g, turns.take(i)).0)
}

/// Whether the index writer, which went through the states `states`, was
/// told of the turn `i`: for a live record it was handed, in the state in
/// which the turn found it, the key of the entry, the handle under which
/// the record is rewritten, and the length of its value, and took them;
/// a turn whose record is not live has left it as it was.
pub open spec fn turn_took<W: IndexWriter>(
    w: MultiWriterView,
    g: SegmentId,
    turns: Seq<Turn>,
    states: Seq<W>,
    i: int,
) -> bool {
    if is_live(turns[i].found, turns[i].entry.segment_id) {
        index_took(
            states[i],
            turns[i].entry.key,
            turn_handle(w, g, turns, i),
            turns[i].value.len() as u32,
            Ok(()),
        )
    } else {
        states[i + 1] == states[i]
    }
}

/// Whether the index writer went through the states `states` in the
/// turns of a rollover, one state before each turn and one after the last,
/// beginning with the state `index`, and was told of each turn as
/// `turn_took` says.
pub open spec fn told_in_turn<W: IndexWriter>(
    w: MultiWriterView,
    g: SegmentId,
    turns: Seq<Turn>,
    index: W,
    states: Seq<W>,
) -> bool {
    &&& states.len() == turns.len() + 1
    &&& states[0] == index
    &&& forall|i: int| 0 <= i < turns.len() ==> #[trigger] turn_took(w, g, turns, states, i)
}

/// One turn of a rollover: an entry of the merge, the handle that the
/// index had for its key, and, for a live record, its value and the bytes
/// that were stored for it.
pub struct Turn {
    pub entry: EntryView,
    pub found: Option<ValueHandle>,
    pub value: Seq<u8>,
    pub stored: Seq<u8>,
}

/// A writer and its generator after a turn: a live record was written, and
/// one that is not live was passed over.
pub open spec fn turned(w: MultiWriterView, g: SegmentId, t: Turn) -> (MultiWriterView, SegmentId) {
    if is_live(t.found, t.entry.segment_id) {
        let written = w.active().after_write(t.entry.key, t.value.len(), t.stored);
        (w.after_write(written, g), w.next_id_after(written, g))
    } else {
        (w, g)
    }
}

/// A writer and its generator after some turns, the first one first.
pub open spec fn replayed(w: MultiWriterView, g: SegmentId, turns: Seq<Turn>) -> (
    MultiWriterView,
    SegmentId,
)
    decreases turns.len(),
{
    if turns.len() == 0 {
        (w, g)
    } else {
        let before = replayed(w, g, turns.drop_last());
        turned(before.0, before.1, turns.last())
    }
}

/// Whether the bytes of a turn are those of a rewriting: the record could
/// be written; its value is the stored one where its segment is not
/// compressed; and what was stored is the value where the writer does not
/// compress.
pub open spec fn turn_fits(segs: Seq<SegmentView>, compressed: bool, t: Turn) -> bool {
    is_live(t.found, t.entry.segment_id) ==> {
        &&& write_fault(t.entry.key.len(), t.value.len(), t.stored.len()) is None
        &&& !is_compressed(segs, t.entry.segment_id) ==> t.value == t.entry.value
        &&& !compressed ==> t.stored == t.value
    }
}

/// Whether the bytes that a turn has stored came from a compressor, where
/// the value log has one: for a live record, a compressor was handed the
/// value, and the bytes that it gave are the ones that were stored.
pub open spec fn turn_packed<C: Compressor>(compressed: bool, t: Turn) -> bool {
    is_live(t.found, t.entry.segment_id) && compressed ==> exists|
        c: C,
        given: Result<Vec<u8>, Error>,
    |
        {
            &&& #[trigger] compressed_to(c, t.value, given)
            &&& given matches Ok(data) && data@ == t.stored
        }
}

/// Whether the index reader gave `answer` for a key.
pub open spec fn index_said<R: IndexReader>(
    reader: R,
    key: Seq<u8>,
    answer: std::io::Result<Option<ValueHandle>>,
) -> bool {
    exists|bytes: &[u8]| bytes@ == key && #[trigger] call_ensures(R::get, (&reader, bytes), answer)
}

/// Whether a merge of `lanes` hands out `entries`, one after the other,
/// and then has the lanes `rest` left.
pub open spec fn continues(lanes: Seq<Lane>, entries: Seq<EntryView>, rest: Seq<Lane>) -> bool
    decreases entries.len(),
{
    if entries.len() == 0 {
        lanes == rest
    } else {
        step(lanes) matches Step::Yield(entry, after) && entry == entries[0] && continues(
            after,
            entries.skip(1),
            rest,
        )
    }
}

/// A merge that goes on with one more step has handed out one more entry.
pub proof fn lemma_continues_push(
    lanes: Seq<Lane>,
    entries: Seq<EntryView>,
    rest: Seq<Lane>,
    entry: EntryView,
    after: Seq<Lane>,
)
    requires
        continues(lanes, entries, rest),
        step(rest) == Step::Yield(entry, after),
    ensures
        continues(lanes, entries.push(entry), after),
    decreases entries.len(),
{
    let more = entries.push(entry);
    if entries.len() == 0 {
        assert(more.skip(1) =~= Seq::<EntryView>::empty());
        assert(continues(after, more.skip(1), after));
    } else {
        let next = step(lanes)->Yield_1;
        lemma_continues_push(next, entries.skip(1), rest, entry, after);
        assert(more.skip(1) =~= entries.skip(1).push(entry));
        assert(more[0] == entries[0]);
    }
}

/// The entries of some turns.
pub open spec fn entries_of(turns: Seq<Turn>) -> Seq<EntryView> {
    turns.map_values(|t: Turn| t.entry)
}

/// The next ID of a generator after writers were registered: as it was
/// where their IDs are below it, and else the one behind the greatest ID
/// of theirs.
pub open spec fn raised(next_id: SegmentId, writers: Seq<WriterView>) -> SegmentId {
    if highest_writer_id(writers) < next_id {
        next_id
    } else {
        (highest_writer_id(writers) + 1) as u64
    }
}

/// Whether every ID is that of a segment.
pub open spec fn all_known(segs: Seq<SegmentView>, ids: Seq<SegmentId>) -> bool {
    forall|i: int| 0 <= i < ids.len() ==> has_id(segs, #[trigger] ids[i])
}

/// Whether `r` is what the rollover of the segments `ids` gives, up to
/// the finishing of the index writer, and `after` the segments that it
/// leaves.
///
/// Nothing is done where no ID is given, or one of them is not that of a
/// segment. Nothing but an I/O error comes where the file of one of them
/// is missing, or no segment ID is left for a new file.
///
/// Else the files of the segments are merged, and there is one turn for
/// each entry that the merge has handed out: the index reader was asked
/// for the key of the entry, and a live record was handed to the index
/// writer, under its new handle, and rewritten; the index writer, which
/// was in the state `index` before, is handed nothing else, and is in the
/// state `index_after` after a rollover without an error. The new
/// writer has written what the turns say, one after the other, beginning
/// with the file of the next segment ID; its files are registered, and
/// are to be written to disk with the manifest file. No segment is marked
/// as stale.
///
/// The result is `Ok` where the merge has come to its end. It is an error
/// where the merge has failed, with the error of the merge; or where, for
/// the next entry of the merge, the index reader was asked and has failed,
/// or the rewriting of the record has failed, as `stopped` says.
pub open spec fn rolled<R: IndexReader, W: IndexWriter, C: Compressor>(
    before: Seq<SegmentView>,
    next_id: SegmentId,
    after: Seq<SegmentView>,
    next_id_after: SegmentId,
    target_size: u64,
    compressor: Option<C>,
    ids: Seq<SegmentId>,
    files: Seq<(SegmentId, Seq<u8>)>,
    reader: R,
    index: W,
    index_after: W,
    r: Rollover,
) -> bool {
    &&& r.ids@ == ids
    &&& r.size_before == clamp(disk_space_of(before))
    &&& if ids.len() == 0 || !all_known(before, ids) {
        &&& r.result is Ok
        &&& r.changes is None
        &&& after == before
        &&& next_id_after == next_id
        &&& index_after == index
    } else if lanes_for(ids, files) is None || next_id == u64::MAX {
        &&& r.result matches Err(e)
        &&& e is Io
        &&& r.changes is None
        &&& after == before
        &&& next_id_after == next_id
        &&& index_after == index
    } else {
        let lanes = lanes_for(ids, files)->Some_0;
        let turns = r.turns@;
        let rest = r.rest@;
        let compressed = compressor is Some;
        let first = MultiWriterView {
            target_size,
            writers: seq![fresh_writer(next_id, compressed)],
            compressed,
        };
        let last = replayed(first, (next_id + 1) as u64, turns);
        &&& continues(lanes, entries_of(turns), rest)
        &&& forall|i: int|
            0 <= i < turns.len() ==> index_said(
                reader,
                (#[trigger] turns[i]).entry.key,
                Ok(turns[i].found),
            )
        &&& forall|i: int| 0 <= i < turns.len() ==> turn_fits(before, compressed, #[trigger] turns[i])
        &&& forall|i: int|
            0 <= i < turns.len() ==> turn_packed::<C>(compressed, #[trigger] turns[i])
        &&& exists|states: Seq<W>|
            {
                &&& #[trigger] told_in_turn(first, (next_id + 1) as u64, turns, index, states)
                &&& match r.result {
                    Ok(_) => step(rest) is Done && states[turns.len() as int] == index_after,
                    Err(e) => stopped::<R, W, C>(
                        rest,
                        reader,
                        states[turns.len() as int],
                        before,
                        compressor,
                        last.0,
                        last.1,
                        e,
                    ),
                }
            }
        &&& r.writers@ == last.0.finished()
        &&& next_id_after == last.1
        &&& forall|i: int| 0 <= i < r.writers@.len() ==> (#[trigger] r.writers@[i]).wf()
        &&& after == registered(before, r.writers@)
        &&& r.changes matches Some(changes)
        &&& file_views(changes.files@) == files_of(r.writers@)
        &&& changes.manifest@ == manifest_bytes(ids_of(after))
        &&& changes.unlink@.len() == 0
        &&& r.result is Ok ==> step(rest) is Done
    }
}

/// What the rewriting of a rollover has done, and what is to be done on
/// disk before the index writer is finished.
pub struct Rollover {
    /// Whether every live record was rewritten, or the error that ended
    /// the rewriting
    pub result: Result<(), Error>,
    /// The new files that are to be written and the manifest file, where
    /// the rollover got as far as to rewrite records
    pub changes: Option<Changes>,
    /// The IDs of the segments that were rolled over
    pub ids: Vec<SegmentId>,
    /// The bytes that the values took on disk before the rollover
    pub size_before: u64,
    /// The writers of the new files, as they were finished
    pub writers: Ghost<Seq<WriterView>>,
    /// The turns of the rewriting
    pub turns: Ghost<Seq<Turn>>,
    /// What the merge had left when the rewriting ended
    pub rest: Ghost<Seq<Lane>>,
}

/// Whether `r` is what the end of a rollover gives, given what the
/// finishing of the index writer gave, and `after` the segments that it
/// leaves. The error of the index writer is handed on as an I/O error, and
/// the segments stay as they are: the old files and the new ones are
/// listed, and none is marked as stale. Else the segments `ids` are marked
/// as stale, and the result is the space that was freed: what the values
/// took on disk before the rollover, less what they take now.
pub open spec fn concluded(
    before: Seq<SegmentView>,
    after: Seq<SegmentView>,
    ids: Seq<SegmentId>,
    finished: std::io::Result<()>,
    size_before: u64,
    r: Result<u64, Error>,
) -> bool {
    match finished {
        Err(e) => r matches Err(Error::Io(x)) && x == e && after == before,
        Ok(_) => {
            &&& after == marked_stale(before, ids)
            &&& r matches Ok(freed)
            &&& freed == sub_clamped(size_before, clamp(disk_space_of(after)))
        },
    }
}

/// A disk-resident value log
pub struct ValueLog<BC: BlobCache, C: Compressor + Clone> {
    /// Unique value log ID
    pub id: ValueLogId,
    /// Value log configuration
    pub config: Config<BC, C>,
    /// Segment manifest
    pub manifest: SegmentManifest,
    /// Generator to get next segment ID
    pub id_generator: IdGenerator,
}

/// A value log that was opened, and what is to be done on disk for it.
pub enum Opened<BC: BlobCache, C: Compressor + Clone> {
    /// A new value log, and the files that are to be written for it
    Created(ValueLog<BC, C>, NewFiles),
    /// A recovered value log, and the places, among the names of the
    /// segments folder, of the files that are to be removed
    Recovered(ValueLog<BC, C>, Vec<usize>),
}

impl<BC: BlobCache, C: Compressor + Clone> ValueLog<BC, C> {
    /// What holds of every value log: its manifest is well-formed, and
    /// the ID of every segment is below the next ID of the generator, so
    /// that a new file never takes the ID of a segment.
    pub open spec fn wf(&self) -> bool {
        self.manifest.wf() && ids_below(self.manifest@, self.id_generator@)
    }

    /// Creates or recovers a value log: it is recovered where a marker
    /// file was found, and created where none was.
    pub fn open(id: ValueLogId, config: Config<BC, C>, disk: Option<&Disk>) -> (r: Result<
        Opened<BC, C>,
        Error,
    >)
        ensures
            match (disk, r) {
                (None, Ok(Opened::Created(log, files))) => {
                    &&& is_created(log, id, config)
                    &&& files.marker@ == file_header(Version::V1)
                    &&& files.manifest@ == manifest_bytes(Seq::empty())
                },
                (Some(found), Ok(Opened::Recovered(log, unlink))) => is_recovered(
                    log,
                    id,
                    config,
                    *found,
                    unlink@,
                ),
                (Some(found), Err(e)) => recovery_fault(*found, e),
                _ => false,
            },
    {
        match disk {
            Some(found) => {
                let (log, unlink) = Self::recover(id, config, found)?;
                Ok(Opened::Recovered(log, unlink))
            },
            None => {
                let (log, files) = Self::create_new(id, config);
                Ok(Opened::Created(log, files))
            },
        }
    }

    /// Creates a new empty value log, and the files that are to be written
    /// for it: the marker with the current version, and the manifest of no
    /// segments.
    pub fn create_new(id: ValueLogId, config: Config<BC, C>) -> (r: (Self, NewFiles))
        ensures
            is_created(r.0, id, config),
            r.1.marker@ == file_header(Version::V1),
            r.1.manifest@ == manifest_bytes(Seq::empty()),
    {
        let mut marker: Vec<u8> = Vec::new();
        let _ = Version::V1.write_file_header(&mut marker);
        let manifest = SegmentManifest::create_new();
        let bytes = manifest.manifest_file();
        assert(ids_of(manifest@) =~= Seq::<SegmentId>::empty());
        let log = ValueLog { id, config, manifest, id_generator: IdGenerator::default() };
        (log, NewFiles { marker, manifest: bytes })
    }

    /// Recovers a value log from what was found on disk, and picks the
    /// files of the segments folder that are to be removed.
    ///
    /// A marker that states no known version gives `InvalidVersion`. The
    /// manifest is recovered as `SegmentManifest::recover` does it, with
    /// its errors. The next segment ID is the one after the greatest ID
    /// of a segment; a segment with the greatest `u64` as its ID, behind
    /// which there is none, gives `Unrecoverable`.
    pub fn recover(id: ValueLogId, config: Config<BC, C>, disk: &Disk) -> (r: Result<
        (Self, Vec<usize>),
        Error,
    >)
        ensures
            match r {
                Ok((log, unlink)) => is_recovered(log, id, config, *disk, unlink@),
                Err(e) => recovery_fault(*disk, e),
            },
    {
        if Version::parse_file_header(disk.marker).is_none() {
            return Err(Error::InvalidVersion(None));
        }
        let (manifest, unlink) = SegmentManifest::recover(
            disk.manifest,
            disk.names.as_slice(),
            disk.segments.as_slice(),
        )?;
        let highest_id: SegmentId = manifest.highest_id();
        if highest_id == u64::MAX {
            return Err(Error::Unrecoverable);
        }
        proof {
            assert forall|i: int| 0 <= i < manifest@.len() implies (#[trigger] manifest@[i]).id
                < highest_id + 1 by {
                crate::manifest::lemma_highest_of(manifest@, i);
            }
        }
        let log = ValueLog { id, config, manifest, id_generator: IdGenerator::new(highest_id + 1) };
        Ok((log, unlink))
    }

    /// Registers a [`MultiWriter`]: its files that hold an item join the
    /// manifest. Returns what is to be done on disk: the files that are to
    /// be written, and the manifest file.
    ///
    /// The generator stays as it is where the writer took its IDs from
    /// it. Where the writer has an ID that is not below the next ID of
    /// the generator, the generator goes on behind that ID.
    pub fn register_writer(&mut self, writer: MultiWriter<C>) -> (r: Result<Changes, Error>)
        requires
            old(self).wf(),
            writer.wf(),
        ensures
            final(self).wf(),
            final(self).id == old(self).id,
            final(self).config == old(self).config,
            final(self).id_generator@ == raised(old(self).id_generator@, writer@.writers),
            final(self).manifest@ == registered(old(self).manifest@, writer@.finished()),
            r matches Ok(changes) && {
                &&& file_views(changes.files@) == files_of(writer@.finished())
                &&& changes.manifest@ == manifest_bytes(ids_of(final(self).manifest@))
                &&& changes.unlink@.len() == 0
            },
    {
        let highest: SegmentId = writer.highest_id();
        let ghost all = writer@.finished();
        proof {
            let bound = raised(self.id_generator@, writer@.writers);
            assert forall|i: int| 0 <= i < all.len() implies (#[trigger] all[i]).segment_id
                < bound by {
                lemma_highest_writer_id(writer@.writers, i);
            }
            lemma_registered_below(self.manifest@, all, bound);
        }
        let files = self.manifest.register(writer)?;
        if highest >= self.id_generator.peek() {
            self.id_generator = IdGenerator::new(highest + 1);
        }
        let manifest = self.manifest.manifest_file();
        Ok(Changes { files, manifest, unlink: Vec::new() })
    }

    /// Returns the amount of segments in the value log.
    pub fn segment_count(&self) -> (r: usize)
        ensures
            r == self.manifest@.len(),
    {
        self.manifest.len()
    }

    /// Initializes a new segment writer, which compresses as the value log
    /// is configured to. Its first file gets the next segment ID. Where
    /// no ID is left, there is no writer, and the error is an I/O error.
    pub fn get_writer(&mut self) -> (r: Result<MultiWriter<C>, Error>)
        ensures
            final(self).id == old(self).id,
            final(self).manifest == old(self).manifest,
            final(self).config == old(self).config,
            old(self).wf() ==> final(self).wf(),
            match r {
                Ok(writer) => {
                    &&& old(self).id_generator@ != u64::MAX
                    &&& final(self).id_generator@ == old(self).id_generator@ + 1
                    &&& writer.wf()
                    &&& writer@ == (MultiWriterView {
                        target_size: old(self).config.segment_size_bytes,
                        writers: seq![
                            fresh_writer(
                                old(self).id_generator@,
                                old(self).config.compression is Some,
                            ),
                        ],
                        compressed: old(self).config.compression is Some,
                    })
                    &&& writer@.below(final(self).id_generator@)
                    &&& writer.compressor() is Some <==> old(self).config.compression is Some
                },
                Err(e) => {
                    &&& old(self).id_generator@ == u64::MAX
                    &&& e is Io
                    &&& final(self).id_generator@ == old(self).id_generator@
                },
            },
    {
        let writer = MultiWriter::new(&mut self.id_generator, self.config.segment_size_bytes)?;
        let compression = match &self.config.compression {
            Some(c) => Some(c.clone()),
            None => None,
        };
        let writer = writer.use_compression(compression);
        assert(writer@.writers =~= seq![
            fresh_writer(old(self).id_generator@, old(self).config.compression is Some),
        ]);
        Ok(writer)
    }

    /// Drops stale segments: the fully stale ones leave the manifest.
    ///
    /// Returns the amount of disk space (compressed data) freed, which
    /// stops at the greatest `u64`, and what is to be done on disk: the
    /// manifest file, and the files that are to be removed after it was
    /// rewritten. Where no segment is stale, nothing is to be done.
    pub fn drop_stale_segments(&mut self) -> (r: Result<(u64, Option<Changes>), Error>)
        requires
            old(self).wf(),
        ensures
            final(self).wf(),
            final(self).id == old(self).id,
            final(self).id_generator@ == old(self).id_generator@,
            final(self).manifest@ == without(old(self).manifest@, stale_ids(old(self).manifest@)),
            r matches Ok((freed, changes)) && {
                &&& freed == clamp(stale_disk_space(old(self).manifest@))
                &&& match changes {
                    Some(c) => {
                        &&& c.unlink@ == stale_ids(old(self).manifest@)
                        &&& c.unlink@.len() > 0
                        &&& c.files@.len() == 0
                        &&& c.manifest@ == manifest_bytes(ids_of(final(self).manifest@))
                    },
                    None => stale_ids(old(self).manifest@).len() == 0,
                }
            },
    {
        let ghost segs = self.manifest@;
        proof {
            lemma_without_below(segs, stale_ids(segs), self.id_generator@);
        }
        let mut ids: Vec<SegmentId> = Vec::new();
        let mut bytes_freed: u64 = 0;
        let mut i: usize = 0;
        assert(segs.take(0) =~= Seq::<SegmentView>::empty());
        while i < self.manifest.len()
            invariant
                i <= segs.len(),
                segs == self.manifest@,
                ids@ == stale_ids(segs.take(i as int)),
                bytes_freed == clamp(stale_disk_space(segs.take(i as int))),
            decreases segs.len() - i,
        {
            assert(segs.take(i + 1).drop_last() =~= segs.take(i as int));
            let segment = self.manifest.segment_at(i);
            if segment.is_stale() {
                ids.push(segment.id);
                bytes_freed = bytes_freed.saturating_add(segment.meta.compressed_bytes);
            }
            i = i + 1;
        }
        assert(segs.take(i as int) =~= segs);
        if ids.len() == 0 {
            proof {
                assert(stale_ids(segs) =~= Seq::<SegmentId>::empty());
                lemma_without_nothing(segs);
            }
            return Ok((bytes_freed, None));
        }
        self.manifest.drop_segments(ids.as_slice());
        let manifest = self.manifest.manifest_file();
        Ok((bytes_freed, Some(Changes { files: Vec::new(), manifest, unlink: ids })))
    }

    /// Drops all segments. Returns what is to be done on disk: the manifest
    /// file of no segments, and the files of the segments, which are to be
    /// removed.
    pub fn clear(&mut self) -> (r: Changes)
        requires
            old(self).wf(),
        ensures
            final(self).wf(),
            final(self).id == old(self).id,
            final(self).id_generator@ == old(self).id_generator@,
            final(self).manifest@ == Seq::<SegmentView>::empty(),
            r.unlink@ == ids_of(old(self).manifest@),
            r.manifest@ == manifest_bytes(Seq::empty()),
            r.files@.len() == 0,
    {
        let unlink = self.manifest.list_segment_ids();
        self.manifest.clear();
        let manifest = self.manifest.manifest_file();
        assert(ids_of(self.manifest@) =~= Seq::<SegmentId>::empty());
        Changes { files: Vec::new(), manifest, unlink }
    }

    /// Marks some segments as stale. An ID that no segment has is passed
    /// over.
    pub fn mark_as_stale(&mut self, ids: &[SegmentId])
        requires
            old(self).wf(),
        ensures
            final(self).wf(),
            final(self).id == old(self).id,
            final(self).id_generator@ == old(self).id_generator@,
            final(self).manifest@ == marked_stale(old(self).manifest@, ids@),
    {
        self.manifest.mark_as_stale(ids);
    }

    /// Looks a handle up without reading a file: in the blob cache first,
    /// then in the manifest.
    pub fn probe(&self, vhandle: &ValueHandle) -> (r: Lookup)
        requires
            self.wf(),
        ensures
            match r {
                Lookup::Hit(_) => true,
                Lookup::Unknown => lookup(self.manifest@, vhandle.segment_id) is None,
                Lookup::Load(id) => id == vhandle.segment_id && lookup(self.manifest@, id) is Some,
            },
            exists|cached: Option<UserValue>|
                {
                    &&& #[trigger] call_ensures(
                        BC::get,
                        (&self.config.blob_cache, self.id, vhandle),
                        cached,
                    )
                    &&& r == classified(cached, self.manifest@, *vhandle)
                },
    {
        let cached = self.config.blob_cache.get(self.id, vhandle);
        let ghost given = cached;
        let r = self.classify(cached, vhandle);
        assert(call_ensures(BC::get, (&self.config.blob_cache, self.id, vhandle), given) && r
            == classified(given, self.manifest@, *vhandle));
        r
    }

    /// Says what is known of a handle, given what the blob cache has for
    /// it: the value that the cache has; else a segment that is to be
    /// read, where the manifest has the segment of the handle; else
    /// nothing.
    pub fn classify(&self, cached: Option<UserValue>, vhandle: &ValueHandle) -> (r: Lookup)
        requires
            self.wf(),
        ensures
            r == classified(cached, self.manifest@, *vhandle),
    {
        match cached {
            Some(value) => Lookup::Hit(value),
            None => match self.manifest.get_segment(vhandle.segment_id) {
                Some(_) => Lookup::Load(vhandle.segment_id),
                None => Lookup::Unknown,
            },
        }
    }

    /// Resolves a value handle.
    ///
    /// `file` holds the bytes of the blob file of the handle's segment.
    /// The blob cache is asked first, and what it gives is handed out;
    /// else the value is read from the file and put into the blob cache.
    pub fn get(&self, vhandle: &ValueHandle, file: &[u8]) -> (r: Result<Option<UserValue>, Error>)
        requires
            self.wf(),
        ensures
            lookup(self.manifest@, vhandle.segment_id) is None ==> r is Ok,
            exists|cached: Option<UserValue>|
                {
                    &&& #[trigger] call_ensures(
                        BC::get,
                        (&self.config.blob_cache, self.id, vhandle),
                        cached,
                    )
                    &&& resolved(
                        self.manifest@,
                        self.config.compression is Some,
                        cached,
                        *vhandle,
                        0,
                        file@,
                        r,
                    )
                    &&& cached is None ==> brought(
                        self.manifest@,
                        self.config.compression,
                        self.config.blob_cache,
                        self.id,
                        *vhandle,
                        0,
                        file@,
                        r,
                    )
                },
    {
        self.get_with_prefetch(vhandle, 0, file)
    }

    /// Resolves a value handle, and prefetches some values after it.
    ///
    /// `file` holds the bytes of the blob file of the handle's segment.
    /// The blob cache is asked first, and what it gives is handed out;
    /// else the value is read as `resolve` reads it, and the blob cache
    /// gets it and the values of the `prefetch_size` records behind it.
    pub fn get_with_prefetch(&self, vhandle: &ValueHandle, prefetch_size: usize, file: &[u8]) -> (r:
        Result<Option<UserValue>, Error>)
        requires
            self.wf(),
        ensures
            lookup(self.manifest@, vhandle.segment_id) is None ==> r is Ok,
            exists|cached: Option<UserValue>|
                {
                    &&& #[trigger] call_ensures(
                        BC::get,
                        (&self.config.blob_cache, self.id, vhandle),
                        cached,
                    )
                    &&& resolved(
                        self.manifest@,
                        self.config.compression is Some,
                        cached,
                        *vhandle,
                        prefetch_size,
                        file@,
                        r,
                    )
                    &&& cached is None ==> brought(
                        self.manifest@,
                        self.config.compression,
                        self.config.blob_cache,
                        self.id,
                        *vhandle,
                        prefetch_size,
                        file@,
                        r,
                    )
                },
    {
        let cached = self.config.blob_cache.get(self.id, vhandle);
        let ghost given = cached;
        let r = self.resolve(cached, vhandle, prefetch_size, file);
        assert(call_ensures(BC::get, (&self.config.blob_cache, self.id, vhandle), given)
            && resolved(
            self.manifest@,
            self.config.compression is Some,
            given,
            *vhandle,
            prefetch_size,
            file@,
            r,
        ) && (given is None ==> brought(
            self.manifest@,
            self.config.compression,
            self.config.blob_cache,
            self.id,
            *vhandle,
            prefetch_size,
            file@,
            r,
        )));
        r
    }

    /// Resolves a value handle, given what the blob cache has for it.
    ///
    /// What the cache has is handed out. Else the values are loaded as
    /// `load` loads them, and all of them are put into the blob cache
    /// under their handles. The error that ended the loading is handed
    /// on; without one, the first value is the value of the handle.
    pub fn resolve(
        &self,
        cached: Option<UserValue>,
        vhandle: &ValueHandle,
        prefetch_size: usize,
        file: &[u8],
    ) -> (r: Result<Option<UserValue>, Error>)
        requires
            self.wf(),
        ensures
            resolved(
                self.manifest@,
                self.config.compression is Some,
                cached,
                *vhandle,
                prefetch_size,
                file@,
                r,
            ),
            cached is None ==> brought(
                self.manifest@,
                self.config.compression,
                self.config.blob_cache,
                self.id,
                *vhandle,
                prefetch_size,
                file@,
                r,
            ),
    {
        match cached {
            Some(value) => {
                return Ok(Some(value));
            },
            None => {},
        }
        let (list, failure) = self.load(vhandle, prefetch_size, file);
        assert(pair_views(list@).len() == list@.len());
        let mut i: usize = 0;
        while i < list.len()
            invariant
                i <= list@.len(),
                forall|j: int|
                    0 <= j < i ==> cache_got(
                        self.config.blob_cache,
                        self.id,
                        (#[trigger] list@[j]).0,
                        list@[j].1@,
                    ),
            decreases list@.len() - i,
        {
            let value = list[i].1.clone();
            self.config.blob_cache.insert(self.id, &list[i].0, value);
            i = i + 1;
        }
        match failure {
            Some(e) => Err(e),
            None => {
                if list.len() == 0 {
                    return Ok(None);
                }
                let value = list[0].1.clone();
                assert(pair_views(list@)[0] == (list@[0].0, list@[0].1@));
                Ok(Some(value))
            },
        }
    }

    /// Loads the value of a handle from the file of its segment, and the
    /// values of up to `prefetch_size` records behind it, each with the
    /// handle of its offset.
    ///
    /// A handle whose segment is not in the manifest brings nothing, and
    /// so does one at whose offset the metadata block stands. A record that
    /// is cut off at the offset gives an I/O error, and a bad header its
    /// decoding error. Behind the first record the end of the file and the
    /// metadata block end the loading, and a bad header fails it.
    ///
    /// In a segment that is not compressed the values are the stored ones.
    /// In a compressed one they are what the compressor makes of them;
    /// without a compressor the loading fails with `Decompress`.
    ///
    /// Returns the values that were loaded, and the error that ended the
    /// loading, if one did.
    pub fn load(&self, vhandle: &ValueHandle, prefetch_size: usize, file: &[u8]) -> (r: (
        Vec<(ValueHandle, UserValue)>,
        Option<Error>,
    ))
        requires
            self.wf(),
        ensures
            loaded(self.manifest@, self.config.compression, *vhandle, prefetch_size, file@, r),
    {
        let mut list: Vec<(ValueHandle, UserValue)> = Vec::new();
        let segment = match self.manifest.get_segment(vhandle.segment_id) {
            Some(segment) => segment,
            None => {
                return (list, None);
            },
        };
        let compressor: Option<&C> = match segment.meta.compression {
            CompressionType::Plain => None,
            CompressionType::Custom => match &self.config.compression {
                Some(c) => Some(c),
                None => {
                    return (list, Some(Error::Decompress));
                },
            },
        };
        let start: usize = if vhandle.offset > file.len() as u64 {
            file.len()
        } else {
            vhandle.offset as usize
        };
        let mut reader: Reader<C> = Reader::with_reader(
            vhandle.segment_id,
            ByteReader::starting_at(file, start),
        );
        let ghost found = record_at(file@, vhandle.offset);
        assert(reader@.rest() == file@.skip(start_of(file@, vhandle.offset) as int));
        let (key, stored, checksum) = match reader.next_stored() {
            Some(Ok(item)) => item,
            Some(Err(e)) => {
                return (list, Some(e));
            },
            None => {
                return (list, None);
            },
        };
        let ghost first = reader@.position;
        let ghost all = seq![(*vhandle, stored@)] + prefetched(
            file@,
            vhandle.segment_id,
            first,
            prefetch_size as nat,
        );
        let ghost mut seen: Seq<(ValueHandle, Seq<u8>)> = seq![(*vhandle, stored@)];
        let value = match compressor {
            Some(c) => match unpack(c, key, stored, checksum) {
                Ok(item) => item.1,
                Err(e) => {
                    assert(unpacks_to(*c, all[0].1, Err(e)));
                    return (list, Some(e));
                },
            },
            None => stored,
        };
        list.push((*vhandle, value));
        let mut left: usize = prefetch_size;
        let mut at_end: bool = false;
        assert(compressor is None ==> pair_views(list@) =~= seen);
        while left > 0 && !at_end
            invariant
                lookup(self.manifest@, vhandle.segment_id) == Some(segment@),
                compressor is None <==> segment@.meta.compression == CompressionType::Plain,
                compressor matches Some(c) ==> self.config.compression == Some(*c),
                found == record_at(file@, vhandle.offset),
                found is Record,
                first == start_of(file@, vhandle.offset) + found->Record_1,
                all == seq![(*vhandle, found->Record_0.value)] + prefetched(
                    file@,
                    vhandle.segment_id,
                    first,
                    prefetch_size as nat,
                ),
                reader@.source == file@,
                reader@.segment_id == vhandle.segment_id,
                at_end ==> prefetch_fault(file@, first, prefetch_size as nat) is None,
                !at_end ==> !reader@.terminated && prefetch_fault(
                    file@,
                    first,
                    prefetch_size as nat,
                ) == prefetch_fault(file@, reader@.position, left as nat),
                if at_end {
                    seen == all
                } else {
                    seen + prefetched(file@, vhandle.segment_id, reader@.position, left as nat)
                        == all
                },
                list@.len() == seen.len(),
                compressor is None ==> pair_views(list@) == seen,
                forall|j: int|
                    0 <= j < seen.len() ==> (#[trigger] list@[j]).0 == seen[j].0 && (
                    compressor matches Some(c) ==> unpacks_to(*c, seen[j].1, Ok(list@[j].1@))),
            decreases left,
        {
            let offset: u64 = reader.get_offset();
            let ghost before = seen;
            let ghost before_list = list@;
            match reader.next_stored() {
                Some(Ok((key, stored, checksum))) => {
                    let value_handle = ValueHandle { segment_id: vhandle.segment_id, offset };
                    proof {
                        let rest = prefetched(
                            file@,
                            vhandle.segment_id,
                            reader@.position,
                            (left - 1) as nat,
                        );
                        seen = before.push((value_handle, stored@));
                        assert(seen + rest =~= before + (seq![(value_handle, stored@)] + rest));
                        assert(all[before.len() as int] == (value_handle, stored@));
                    }
                    let value = match compressor {
                        Some(c) => match unpack(c, key, stored, checksum) {
                            Ok(item) => item.1,
                            Err(e) => {
                                assert(unpacks_to(*c, all[before.len() as int].1, Err(e)));
                                return (list, Some(e));
                            },
                        },
                        None => stored,
                    };
                    list.push((value_handle, value));
                    proof {
                        assert(compressor is None ==> pair_views(list@) =~= seen);
                        assert forall|j: int| 0 <= j < seen.len() implies (#[trigger] list@[j]).0
                            == seen[j].0 && (compressor matches Some(c) ==> unpacks_to(
                            *c,
                            seen[j].1,
                            Ok(list@[j].1@),
                        )) by {
                            if j < before.len() {
                                assert(list@[j] == before_list[j]);
                                assert(seen[j] == before[j]);
                            }
                        }
                    }
                },
                Some(Err(Error::Io(_))) => {
                    proof {
                        assert(before + Seq::<(ValueHandle, Seq<u8>)>::empty() =~= before);
                    }
                    at_end = true;
                },
                Some(Err(e)) => {
                    return (list, Some(e));
                },
                None => {
                    proof {
                        assert(before + Seq::<(ValueHandle, Seq<u8>)>::empty() =~= before);
                    }
                    at_end = true;
                },
            }
            left = left - 1;
        }
        proof {
            if !at_end {
                assert(seen + Seq::<(ValueHandle, Seq<u8>)>::empty() =~= seen);
            }
        }
        (list, None)
    }

    /// Returns a merge of all segments, given their files. A missing file
    /// gives an I/O error.
    pub fn get_reader<'a>(&self, files: &[SegmentFile<'a>]) -> (r: Result<MergeReader<'a, C>, Error>)
        ensures
            match r {
                Ok(reader) => {
                    &&& reader.wf()
                    &&& !reader.has_failed()
                    &&& lanes_for(ids_of(self.manifest@), found_views(files@)) == Some(reader@)
                },
                Err(e) => lanes_for(ids_of(self.manifest@), found_views(files@)) is None && e is Io,
            },
    {
        let ids = self.manifest.list_segment_ids();
        let readers = open_readers(ids.as_slice(), files)?;
        Ok(MergeReader::new(readers))
    }

    /// Counts the records of a merge of all segments whose checksum is not
    /// that of their stored value. The count stops at the greatest `usize`.
    pub fn verify(&self, files: &[SegmentFile]) -> (r: Result<usize, Error>)
        ensures
            match lanes_for(ids_of(self.manifest@), found_views(files@)) {
                Some(lanes) => match mismatches(lanes) {
                    Some(n) => r matches Ok(m) && m == if n > usize::MAX {
                        usize::MAX as nat
                    } else {
                        n
                    },
                    None => r is Err,
                },
                None => r matches Err(e) && e is Io,
            },
    {
        let mut reader = self.get_reader(files)?;
        let ghost lanes = reader@;
        let mut sum: usize = 0;
        let ghost mut seen: nat = 0;
        let mut failure: Option<Error> = None;
        let mut done: bool = false;
        while !done
            invariant
                reader.wf(),
                sum == if seen > usize::MAX { usize::MAX as nat } else { seen },
                !done ==> {
                    &&& !reader.has_failed()
                    &&& failure is None
                    &&& match mismatches(reader@) {
                        Some(n) => mismatches(lanes) == Some(seen + n),
                        None => mismatches(lanes) is None,
                    }
                },
                done ==> match failure {
                    Some(_) => mismatches(lanes) is None,
                    None => mismatches(lanes) == Some(seen),
                },
            decreases (if done { 0int } else { 1int }), entry_count(reader@),
        {
            proof {
                lemma_step_count(reader@);
            }
            match reader.next() {
                Some(Ok((_, value, _, expected_checksum))) => {
                    if checksum(value.as_bytes()) != expected_checksum {
                        sum = sum.saturating_add(1);
                        proof {
                            seen = seen + 1;
                        }
                    }
                },
                Some(Err(e)) => {
                    failure = Some(e);
                    done = true;
                },
                None => {
                    done = true;
                },
            }
        }
        match failure {
            Some(e) => Err(e),
            None => Ok(sum),
        }
    }

    /// Plans the rewriting of one record of a merge, given the handle that
    /// the index has for its key: whether the record is rewritten, and
    /// if so, under which handle and with which value.
    pub fn plan_rewrite(
        &self,
        writer: &MultiWriter<C>,
        found: &Option<ValueHandle>,
        stored: &UserValue,
        source: SegmentId,
    ) -> (r: Result<Option<(ValueHandle, UserValue)>, Error>)
        requires
            self.wf(),
            writer.wf(),
        ensures
            planned(
                self.manifest@,
                self.config.compression,
                writer@,
                *found,
                stored@,
                source,
                r,
            ),
    {
        if !check_live(found, source) {
            return Ok(None);
        }
        let compressed: bool = match self.manifest.get_segment(source) {
            Some(segment) => match segment.meta.compression {
                CompressionType::Custom => true,
                CompressionType::Plain => false,
            },
            None => false,
        };
        let value: UserValue = if compressed {
            match &self.config.compression {
                Some(c) => match unpack(c, Slice::empty(), stored.clone(), 0) {
                    Ok(item) => item.1,
                    Err(e) => {
                        return Err(e);
                    },
                },
                None => {
                    return Err(Error::Decompress);
                },
            }
        } else {
            stored.clone()
        };
        if value.len() > 0xffff_ffff {
            return Err(Error::Encode(EncodeError::ValueLength(value.len())));
        }
        Ok(Some((writer.get_next_value_handle(), value)))
    }

    /// Writes a record that was staged in the index writer, given what the
    /// index writer gave for it.
    pub fn carry_out(
        &mut self,
        writer: &mut MultiWriter<C>,
        key: &UserKey,
        handle: ValueHandle,
        value: UserValue,
        inserted: std::io::Result<()>,
    ) -> (r: Result<Rewritten, Error>)
        requires
            old(self).wf(),
            old(writer).wf(),
        ensures
            final(self).wf(),
            final(writer).wf(),
            final(self).id == old(self).id,
            final(self).config == old(self).config,
            final(self).manifest == old(self).manifest,
            final(self).id_generator@ >= old(self).id_generator@,
            old(writer)@.below(old(self).id_generator@) ==> final(writer)@.below(
                final(self).id_generator@,
            ),
            carried(
                old(writer)@,
                old(self).id_generator@,
                final(writer)@,
                final(self).id_generator@,
                key@,
                handle,
                value,
                inserted,
                r,
            ),
            inserted is Ok ==> packed(
                old(writer).compressor(),
                old(writer)@,
                final(writer)@,
                key@,
                value@,
                r,
            ),
    {
        match inserted {
            Err(e) => Err(Error::Io(e)),
            Ok(_) => match writer.write(&mut self.id_generator, key.as_bytes(), value.as_bytes()) {
                Ok(n) => Ok(Some((handle, value, n))),
                Err(e) => Err(e),
            },
        }
    }

    /// Rewrites one record of a merge, given the handle that the index has
    /// for its key: the rewriting is planned as `plan_rewrite` plans it;
    /// a record that is to be rewritten is staged in the index writer
    /// under the handle of the plan, with the length of its value; and
    /// it is written as `carry_out` writes it.
    pub fn rewrite<W: IndexWriter>(
        &mut self,
        writer: &mut MultiWriter<C>,
        index_writer: &mut W,
        found: Option<ValueHandle>,
        key: &UserKey,
        stored: &UserValue,
        source: SegmentId,
    ) -> (r: Result<Rewritten, Error>)
        requires
            old(self).wf(),
            old(writer).wf(),
        ensures
            final(self).wf(),
            final(writer).wf(),
            final(self).id == old(self).id,
            final(self).config == old(self).config,
            final(self).manifest == old(self).manifest,
            final(self).id_generator@ >= old(self).id_generator@,
            old(writer)@.below(old(self).id_generator@) ==> final(writer)@.below(
                final(self).id_generator@,
            ),
            exists|plan: Result<Option<(ValueHandle, UserValue)>, Error>|
                {
                    &&& #[trigger] planned(
                        old(self).manifest@,
                        old(self).config.compression,
                        old(writer)@,
                        found,
                        stored@,
                        source,
                        plan,
                    )
                    &&& rewritten_by(
                        plan,
                        *old(index_writer),
                        old(writer).compressor(),
                        old(writer)@,
                        old(self).id_generator@,
                        final(writer)@,
                        final(self).id_generator@,
                        key@,
                        r,
                    )
                    &&& !(plan matches Ok(Some(_))) ==> *final(index_writer) == *old(index_writer)
                },
    {
        let plan = self.plan_rewrite(writer, &found, stored, source);
        let ghost given = plan;
        let r = match plan {
            Err(e) => Err(e),
            Ok(None) => Ok(None),
            Ok(Some((handle, value))) => {
                let size = value.len() as u32;
                let inserted = index_writer.insert_indirect(key.as_bytes(), handle, size);
                let ghost gave = inserted;
                assert(index_took(*old(index_writer), key@, handle, size, gave));
                let r = self.carry_out(writer, key, handle, value, inserted);
                assert(carried(
                    old(writer)@,
                    old(self).id_generator@,
                    writer@,
                    self.id_generator@,
                    key@,
                    handle,
                    value,
                    gave,
                    r,
                ));
                assert(gave is Ok ==> packed(
                    old(writer).compressor(),
                    old(writer)@,
                    writer@,
                    key@,
                    value@,
                    r,
                ));
                r
            },
        };
        assert(planned(
            old(self).manifest@,
            old(self).config.compression,
            old(writer)@,
            found,
            stored@,
            source,
            given,
        ) && rewritten_by(
            given,
            *old(index_writer),
            old(writer).compressor(),
            old(writer)@,
            old(self).id_generator@,
            writer@,
            self.id_generator@,
            key@,
            r,
        ) && (!(given matches Ok(Some(_))) ==> *index_writer == *old(index_writer)));
        r
    }

    /// Rewrites some segments into new segment(s), up to the finishing
    /// of the index writer.
    ///
    /// Nothing is done where no ID is given, or one of them is not that of
    /// a segment. A missing file of a segment gives an I/O error, and
    /// nothing is done. Else the files of the segments are merged, and the
    /// records of the merge that are live, as the index reader tells, are
    /// rewritten into new files. The new files are registered, also where
    /// the rewriting has failed.
    ///
    /// What is to be done next: the files and the manifest file are
    /// written to disk; then, where the result is `Ok`, the index writer
    /// is finished; and then `conclude` is told what that gave.
    pub fn rollover<R: IndexReader, W: IndexWriter>(
        &mut self,
        ids: &[SegmentId],
        files: &[SegmentFile],
        index_reader: &R,
        index_writer: &mut W,
    ) -> (r: Rollover)
        requires
            old(self).wf(),
        ensures
            final(self).wf(),
            final(self).id == old(self).id,
            final(self).config == old(self).config,
            rolled::<R, W, C>(
                old(self).manifest@,
                old(self).id_generator@,
                final(self).manifest@,
                final(self).id_generator@,
                old(self).config.segment_size_bytes,
                old(self).config.compression,
                ids@,
                found_views(files@),
                *index_reader,
                *old(index_writer),
                *final(index_writer),
                r,
            ),
    {
        let size_before: u64 = self.manifest.disk_space_used();
        if ids.len() == 0 {
            return Rollover {
                result: Ok(()),
                changes: None,
                ids: vstd::slice::slice_to_vec(ids),
                size_before,
                writers: Ghost(Seq::empty()),
                turns: Ghost(Seq::empty()),
                rest: Ghost(Seq::empty()),
            };
        }
        let mut i: usize = 0;
        while i < ids.len()
            invariant
                i <= ids@.len(),
                self.wf(),
                self.manifest@ == old(self).manifest@,
                size_before == clamp(disk_space_of(old(self).manifest@)),
                forall|j: int| 0 <= j < i ==> has_id(self.manifest@, #[trigger] ids@[j]),
            decreases ids@.len() - i,
        {
            if self.manifest.get_segment(ids[i]).is_none() {
                return Rollover {
                    result: Ok(()),
                    changes: None,
                    ids: vstd::slice::slice_to_vec(ids),
                    size_before,
                    writers: Ghost(Seq::empty()),
                    turns: Ghost(Seq::empty()),
                    rest: Ghost(Seq::empty()),
                };
            }
            i = i + 1;
        }
        let readers = match open_readers(ids, files) {
            Ok(readers) => readers,
            Err(e) => {
                return Rollover {
                    result: Err(e),
                    changes: None,
                    ids: vstd::slice::slice_to_vec(ids),
                    size_before,
                    writers: Ghost(Seq::empty()),
                    turns: Ghost(Seq::empty()),
                    rest: Ghost(Seq::empty()),
                };
            },
        };
        let mut reader: MergeReader<C> = MergeReader::new(readers);
        let ghost lanes = reader@;
        let mut writer = match self.get_writer() {
            Ok(writer) => writer,
            Err(e) => {
                return Rollover {
                    result: Err(e),
                    changes: None,
                    ids: vstd::slice::slice_to_vec(ids),
                    size_before,
                    writers: Ghost(Seq::empty()),
                    turns: Ghost(Seq::empty()),
                    rest: Ghost(Seq::empty()),
                };
            },
        };
        let ghost first = writer@;
        let ghost start = self.id_generator@;
        let ghost segs = self.manifest@;
        let ghost compressed = self.config.compression is Some;
        let ghost mut turns: Seq<Turn> = Seq::empty();
        let ghost mut states: Seq<W> = seq![*index_writer];
        let ghost mut left: Seq<Lane> = lanes;
        let mut failure: Option<Error> = None;
        let mut done: bool = false;
        assert(entries_of(turns) =~= Seq::<EntryView>::empty());
        while !done
            invariant
                self.wf(),
                writer.wf(),
                reader.wf(),
                self.id == old(self).id,
                self.config == old(self).config,
                self.manifest@ == segs,
                segs == old(self).manifest@,
                compressed == (self.config.compression is Some),
                first.compressed == compressed,
                writer@.compressed == compressed,
                writer@.target_size == first.target_size,
                writer@.below(self.id_generator@),
                continues(lanes, entries_of(turns), left),
                !done ==> left == reader@ && !reader.has_failed(),
                forall|i: int|
                    0 <= i < turns.len() ==> index_said(
                        *index_reader,
                        (#[trigger] turns[i]).entry.key,
                        Ok(turns[i].found),
                    ),
                forall|i: int| 0 <= i < turns.len() ==> turn_fits(segs, compressed, #[trigger] turns[i]),
                forall|i: int|
                    0 <= i < turns.len() ==> turn_packed::<C>(compressed, #[trigger] turns[i]),
                told_in_turn(first, start, turns, *old(index_writer), states),
                failure is None ==> states[turns.len() as int] == *index_writer,
                (writer@, self.id_generator@) == replayed(first, start, turns),
                !done ==> failure is None,
                done ==> match failure {
                    None => step(left) is Done,
                    Some(e) => stopped::<R, W, C>(
                        left,
                        *index_reader,
                        states[turns.len() as int],
                        segs,
                        self.config.compression,
                        writer@,
                        self.id_generator@,
                        e,
                    ),
                },
            decreases (if done { 0int } else { 1int }), entry_count(reader@),
        {
            let ghost rest = reader@;
            let ghost w0 = writer@;
            let ghost g0 = self.id_generator@;
            let ghost index = *index_writer;
            let ghost packer = writer.compressor();
            proof {
                lemma_step_count(rest);
                writer.lemma_compressor();
            }
            match reader.next() {
                Some(Ok((key, stored, segment_id, checksum))) => {
                    let ghost entry = EntryView {
                        key: key@,
                        value: stored@,
                        segment_id,
                        checksum,
                    };
                    let answer = index_reader.get(key.as_bytes());
                    let ghost said = answer;
                    assert(index_said(*index_reader, entry.key, said));
                    match answer {
                        Ok(found) => {
                            match self.rewrite(
                                &mut writer,
                                index_writer,
                                found,
                                &key,
                                &stored,
                                segment_id,
                            ) {
                                Ok(rewritten) => {
                                    proof {
                                        let plan = choose|
                                            plan: Result<Option<(ValueHandle, UserValue)>, Error>,
                                        |
                                            #[trigger] planned(
                                                segs,
                                                self.config.compression,
                                                w0,
                                                found,
                                                stored@,
                                                segment_id,
                                                plan,
                                            ) && rewritten_by(
                                                plan,
                                                index,
                                                packer,
                                                w0,
                                                g0,
                                                writer@,
                                                self.id_generator@,
                                                key@,
                                                Ok::<Rewritten, Error>(rewritten),
                                            );
                                        let turn = match rewritten {
                                            Some(d) => Turn {
                                                entry,
                                                found,
                                                value: d.1@,
                                                stored: stored_at(
                                                    writer@.writers[w0.writers.len() - 1].bytes,
                                                    w0.active().bytes.len(),
                                                    key@.len(),
                                                    d.2 as nat,
                                                ),
                                            },
                                            None => Turn {
                                                entry,
                                                found,
                                                value: Seq::empty(),
                                                stored: Seq::empty(),
                                            },
                                        };
                                        let more = turns.push(turn);
                                        assert(more.drop_last() =~= turns);
                                        assert(entries_of(more) =~= entries_of(turns).push(entry));
                                        lemma_continues_push(
                                            lanes,
                                            entries_of(turns),
                                            rest,
                                            entry,
                                            reader@,
                                        );
                                        if rewritten is Some {
                                            assert(plan is Ok && plan->Ok_0 is Some);
                                            assert(is_live(found, segment_id));
                                        } else {
                                            assert(plan is Ok && plan->Ok_0 is None);
                                            assert(!is_live(found, segment_id));
                                        }
                                        assert(turned(w0, g0, turn) == (writer@, self.id_generator@));
                                        assert(replayed(first, start, more) == turned(w0, g0, turn));
                                        assert(turn_fits(segs, compressed, turn));
                                        if rewritten is Some && compressed {
                                            let p = plan->Ok_0->Some_0;
                                            assert(packed(
                                                packer,
                                                w0,
                                                writer@,
                                                key@,
                                                p.1@,
                                                Ok::<Rewritten, Error>(rewritten),
                                            ));
                                            let given = choose|given: Result<Vec<u8>, Error>|
                                                #[trigger] compressed_to(
                                                    packer->Some_0,
                                                    p.1@,
                                                    given,
                                                ) && stored_given(
                                                    w0,
                                                    writer@,
                                                    key@,
                                                    p.1@.len(),
                                                    given,
                                                    stored_len(Ok::<Rewritten, Error>(rewritten)),
                                                );
                                            assert(compressed_to(packer->Some_0, turn.value, given));
                                            assert(given is Ok && given->Ok_0@ == turn.stored);
                                        }
                                        assert(turn_packed::<C>(compressed, turn));
                                        let grown = states.push(*index_writer);
                                        assert forall|i: int| 0 <= i < more.len() implies #[trigger] turn_took(
                                            first,
                                            start,
                                            more,
                                            grown,
                                            i,
                                        ) by {
                                            if i < turns.len() {
                                                assert(more.take(i) =~= turns.take(i));
                                                assert(more[i] == turns[i]);
                                                assert(grown[i] == states[i]);
                                                assert(grown[i + 1] == states[i + 1]);
                                                assert(turn_took(first, start, turns, states, i));
                                            } else {
                                                assert(more.take(i) =~= turns);
                                                assert(grown[i] == index);
                                                if rewritten is Some {
                                                    let p = plan->Ok_0->Some_0;
                                                    let inserted = choose|
                                                        inserted: std::io::Result<()>,
                                                    |
                                                        #[trigger] index_took(
                                                            index,
                                                            key@,
                                                            p.0,
                                                            p.1@.len() as u32,
                                                            inserted,
                                                        ) && carried(
                                                            w0,
                                                            g0,
                                                            writer@,
                                                            self.id_generator@,
                                                            key@,
                                                            p.0,
                                                            p.1,
                                                            inserted,
                                                            Ok::<Rewritten, Error>(rewritten),
                                                        );
                                                    assert(inserted is Ok);
                                                    assert(inserted->Ok_0 == ());
                                                    assert(inserted == Ok::<(), std::io::Error>(
                                                        inserted->Ok_0,
                                                    ));
                                                    assert(index_took(
                                                        index,
                                                        turn.entry.key,
                                                        turn_handle(first, start, more, i),
                                                        turn.value.len() as u32,
                                                        Ok(()),
                                                    ));
                                                } else {
                                                    assert(*index_writer == index);
                                                }
                                            }
                                        }
                                        states = grown;
                                        turns = more;
                                        left = reader@;
                                    }
                                },
                                Err(e) => {
                                    proof {
                                        let plan = choose|
                                            plan: Result<Option<(ValueHandle, UserValue)>, Error>,
                                        |
                                            #[trigger] planned(
                                                segs,
                                                self.config.compression,
                                                w0,
                                                found,
                                                stored@,
                                                segment_id,
                                                plan,
                                            ) && rewritten_by(
                                                plan,
                                                index,
                                                packer,
                                                w0,
                                                g0,
                                                writer@,
                                                self.id_generator@,
                                                key@,
                                                Err::<Rewritten, Error>(e),
                                            );
                                        assert(rewritten_by(
                                            plan,
                                            index,
                                            packer,
                                            w0,
                                            g0,
                                            w0,
                                            g0,
                                            entry.key,
                                            Err::<Rewritten, Error>(e),
                                        ));
                                        assert(rewrite_failed::<W, C>(
                                            segs,
                                            self.config.compression,
                                            index,
                                            w0,
                                            g0,
                                            found,
                                            entry,
                                            e,
                                        ));
                                        assert(index_said(*index_reader, entry.key, said));
                                    }
                                    failure = Some(e);
                                    done = true;
                                },
                            }
                        },
                        Err(e) => {
                            failure = Some(Error::Io(e));
                            done = true;
                        },
                    }
                },
                Some(Err(e)) => {
                    failure = Some(e);
                    done = true;
                },
                None => {
                    done = true;
                },
            }
        }
        // New segments need to be persisted before they are added to the
        // index, to avoid dangling pointers
        let ghost writers = writer@.finished();
        let ghost rest = left;
        proof {
            assert forall|i: int| 0 <= i < writers.len() implies (#[trigger] writers[i]).segment_id
                < self.id_generator@ by {
                assert(writer@.writers[i].segment_id < self.id_generator@);
            }
            lemma_registered_below(segs, writers, self.id_generator@);
        }
        let files = match self.manifest.register(writer) {
            Ok(files) => files,
            Err(e) => {
                return Rollover {
                    result: Err(e),
                    changes: None,
                    ids: vstd::slice::slice_to_vec(ids),
                    size_before,
                    writers: Ghost(Seq::empty()),
                    turns: Ghost(Seq::empty()),
                    rest: Ghost(Seq::empty()),
                };
            },
        };
        let manifest = self.manifest.manifest_file();
        Rollover {
            result: match failure {
                Some(e) => Err(e),
                None => Ok(()),
            },
            changes: Some(Changes { files, manifest, unlink: Vec::new() }),
            ids: vstd::slice::slice_to_vec(ids),
            size_before,
            writers: Ghost(writers),
            turns: Ghost(turns),
            rest: Ghost(rest),
        }
    }

    /// Ends a rollover, given what the finishing of the index writer
    /// gave. Where it has failed, the error is handed on as an I/O error,
    /// and nothing changes: the old files and the new ones stay listed,
    /// and the index points at the old ones. Else the segments that were
    /// rolled over are marked as stale.
    ///
    /// Returns the amount of disk space (compressed data) freed.
    pub fn conclude(
        &mut self,
        ids: &[SegmentId],
        finished: std::io::Result<()>,
        size_before: u64,
    ) -> (r: Result<u64, Error>)
        requires
            old(self).wf(),
        ensures
            final(self).wf(),
            final(self).id == old(self).id,
            final(self).config == old(self).config,
            final(self).id_generator@ == old(self).id_generator@,
            concluded(old(self).manifest@, final(self).manifest@, ids@, finished, size_before, r),
    {
        match finished {
            Err(e) => Err(Error::Io(e)),
            Ok(_) => {
                // The external index decides when it is safe to drop the
                // old segments, as some reads may still be performed
                self.manifest.mark_as_stale(ids);
                let size_after: u64 = self.manifest.disk_space_used();
                Ok(size_before.saturating_sub(size_after))
            },
        }
    }

    /// Rewrites all segments into new segment(s), as `rollover` does.
    pub fn major_compact<R: IndexReader, W: IndexWriter>(
        &mut self,
        files: &[SegmentFile],
        index_reader: &R,
        index_writer: &mut W,
    ) -> (r: Rollover)
        requires
            old(self).wf(),
        ensures
            final(self).wf(),
            final(self).id == old(self).id,
            final(self).config == old(self).config,
            rolled::<R, W, C>(
                old(self).manifest@,
                old(self).id_generator@,
                final(self).manifest@,
                final(self).id_generator@,
                old(self).config.segment_size_bytes,
                old(self).config.compression,
                ids_of(old(self).manifest@),
                found_views(files@),
                *index_reader,
                *old(index_writer),
                *final(index_writer),
                r,
            ),
    {
        let ids = self.manifest.list_segment_ids();
        self.rollover(ids.as_slice(), files, index_reader, index_writer)
    }

    /// Applies a GC strategy: the segments that it picks are rewritten, as
    /// `rollover` rewrites them.
    pub fn apply_gc_strategy<S: GcStrategy<BC, C>, R: IndexReader, W: IndexWriter>(
        &mut self,
        strategy: &S,
        files: &[SegmentFile],
        index_reader: &R,
        index_writer: &mut W,
    ) -> (r: Rollover)
        requires
            old(self).wf(),
        ensures
            final(self).wf(),
            final(self).id == old(self).id,
            final(self).config == old(self).config,
            exists|picked: Vec<SegmentId>|
                {
                    &&& #[trigger] call_ensures(S::pick, (strategy, &*old(self)), picked)
                    &&& rolled::<R, W, C>(
                        old(self).manifest@,
                        old(self).id_generator@,
                        final(self).manifest@,
                        final(self).id_generator@,
                        old(self).config.segment_size_bytes,
                        old(self).config.compression,
                        picked@,
                        found_views(files@),
                        *index_reader,
                        *old(index_writer),
                        *final(index_writer),
                        r,
                    )
                },
    {
        let segment_ids = strategy.pick(self);
        let r = self.rollover(segment_ids.as_slice(), files, index_reader, index_writer);
        assert(call_ensures(S::pick, (strategy, &*old(self)), segment_ids) && rolled::<R, W, C>(
            old(self).manifest@,
            old(self).id_generator@,
            self.manifest@,
            self.id_generator@,
            old(self).config.segment_size_bytes,
            old(self).config.compression,
            segment_ids@,
            found_views(files@),
            *index_reader,
            *old(index_writer),
            *index_writer,
            r,
        ));
        r
    }

    /// Consumes the counters of a scan: the segments that the scan has a
    /// counter for get their stale items and bytes as `judged` finds them,
    /// and the report sums them up. A segment that joined the value log
    /// after the scan began has no counter, and is left as it is.
    pub fn consume_scan_result(&mut self, size_map: &SizeMap) -> (r: GcReport)
        requires
            old(self).wf(),
        ensures
            final(self).wf(),
            final(self).id == old(self).id,
            final(self).id_generator@ == old(self).id_generator@,
            final(self).manifest@ == consumed(old(self).manifest@, size_map@),
            r == report_of(old(self).manifest@, size_map@, old(self).manifest@.len() as usize),
    {
        let ghost segs = self.manifest@;
        let count: usize = self.segment_count();
        let mut report = GcReport {
            segment_count: count,
            stale_segment_count: 0,
            total_bytes: 0,
            stale_bytes: 0,
            total_blobs: 0,
            stale_blobs: 0,
        };
        let mut i: usize = 0;
        assert(segs.take(0) =~= Seq::<SegmentView>::empty());
        while i < count
            invariant
                i <= count,
                count == segs.len(),
                self.wf(),
                self.id == old(self).id,
                self.id_generator@ == old(self).id_generator@,
                self.manifest@.len() == segs.len(),
                forall|j: int| 0 <= j < i ==> #[trigger] self.manifest@[j] == judged(segs[j], size_map@),
                forall|j: int| i <= j < segs.len() ==> #[trigger] self.manifest@[j] == segs[j],
                report == report_of(segs.take(i as int), size_map@, count),
            decreases count - i,
        {
            proof {
                assert(segs.take(i + 1).drop_last() =~= segs.take(i as int));
                lemma_report_of(segs.take(i as int), size_map@, count);
            }
            let segment = self.manifest.segment_at(i);
            let total_bytes: u64 = segment.meta.total_uncompressed_bytes;
            let total_items: u64 = segment.meta.item_count;
            match counter_of(size_map, segment.id) {
                Some(counter) => {
                    report.total_bytes = report.total_bytes.saturating_add(total_bytes);
                    report.total_blobs = report.total_blobs.saturating_add(total_items);
                    if counter.item_count > 0 {
                        let stale_bytes: u64 = total_bytes.saturating_sub(counter.size);
                        let stale_items: u64 = total_items.saturating_sub(counter.item_count);
                        self.manifest.set_gc_stats(i, stale_items, stale_bytes);
                        report.stale_bytes = report.stale_bytes.saturating_add(stale_bytes);
                        report.stale_blobs = report.stale_blobs.saturating_add(stale_items);
                    } else {
                        self.manifest.set_gc_stats(i, total_items, total_bytes);
                        report.stale_segment_count = report.stale_segment_count + 1;
                        report.stale_bytes = report.stale_bytes.saturating_add(total_bytes);
                        report.stale_blobs = report.stale_blobs.saturating_add(total_items);
                    }
                },
                None => {},
            }
            i = i + 1;
        }
        assert(segs.take(i as int) =~= segs);
        assert(self.manifest@ =~= consumed(segs, size_map@));
        report
    }

    /// Scans the given index and collects GC statistics: the entries of
    /// the index are counted by segment, and the counters are consumed.
    /// Where the index failed at an entry, nothing changes and the error
    /// is an I/O error.
    pub fn scan_for_stats(&mut self, entries: &[std::io::Result<(ValueHandle, u32)>]) -> (r: Result<
        GcReport,
        Error,
    >)
        requires
            old(self).wf(),
        ensures
            final(self).wf(),
            final(self).id == old(self).id,
            final(self).id_generator@ == old(self).id_generator@,
            match r {
                Ok(report) => {
                    let counters = scanned(
                        initial_counters(ids_of(old(self).manifest@)),
                        entries_read(entries@),
                    );
                    &&& !index_failed(entries@)
                    &&& final(self).manifest@ == consumed(old(self).manifest@, counters)
                    &&& report == report_of(
                        old(self).manifest@,
                        counters,
                        old(self).manifest@.len() as usize,
                    )
                },
                Err(e) => index_failed(entries@) && e is Io && final(self).manifest@ == old(
                    self,
                ).manifest@,
            },
    {
        let ids = self.manifest.list_segment_ids();
        let mut scanner = Scanner::new(ids.as_slice());
        scanner.scan(entries)?;
        let size_map = scanner.finish();
        let report = self.consume_scan_result(&size_map);
        Ok(report)
    }

    /// Returns the approximate space amplification.
    ///
    /// Returns 0 if there are no items.
    pub fn space_amp(&self) -> (r: Ratio)
        ensures
            r == space_amp_of(
                clamp(total_bytes_of(self.manifest@)),
                clamp(stale_bytes_of(self.manifest@)),
            ),
    {
        self.manifest.space_amp()
    }
}

/// A value that was written is the value that is read: where a record was
/// written at the end of a file, the record that stands at the offset of
/// its handle is that record, with the stored value, whatever was written
/// before it and whatever is written behind it, by later writes and by the
/// flush. `resolve` hands out the value of the record that stands there.
pub proof fn lemma_written_value_is_read(
    writer: WriterView,
    key: Seq<u8>,
    value_len: nat,
    stored: Seq<u8>,
    file: Seq<u8>,
)
    requires
        writer.wf(),
        crate::segment::writer::write_fault(key.len(), value_len, stored.len()) is None,
        crate::slice::slice_len_ok(stored.len()),
        writer.after_write(key, value_len, stored).bytes.is_prefix_of(file),
    ensures
        record_at(file, writer.bytes.len() as u64) == Scan::Record(
            crate::segment::reader::RecordView { key, value: stored, checksum: checksum_of(stored) },
            18 + key.len() + stored.len(),
        ),
{
    let record = crate::segment::writer::record_bytes(key, stored, checksum_of(stored));
    let written = writer.bytes + record;
    let after = file.skip(written.len() as int);
    assert(file =~= writer.bytes + record + after);
    crate::segment::reader::lemma_read_at_write_offset(
        writer.bytes,
        key,
        stored,
        checksum_of(stored),
        after,
    );
}

/// What was written stays where it is: a later write and the flush put
/// their bytes behind the bytes of a writer.
pub proof fn lemma_writes_append(writer: WriterView, key: Seq<u8>, value_len: nat, stored: Seq<u8>)
    ensures
        writer.bytes.is_prefix_of(writer.after_write(key, value_len, stored).bytes),
        writer.bytes.is_prefix_of(writer.after_flush().bytes),
{
}

/// A segment is recovered as it was registered: from the file that a
/// flushed writer leaves, the recovery reads the segment that the
/// registration of the writer made.
pub proof fn lemma_registered_segment_is_recovered(
    writer: WriterView,
    files: Seq<(SegmentId, Seq<u8>)>,
)
    requires
        writer.wf(),
        find_file(files, writer.segment_id) == Some(writer.after_flush().bytes),
    ensures
        crate::manifest::recovered_segment(files, writer.segment_id) == Some(
            crate::manifest::segment_of(writer),
        ),
{
    crate::segment::trailer::lemma_trailer_round_trip(writer.bytes, writer.metadata());
}

/// A value log is recovered as it was: where each segment is recovered
/// from its file as it is, but for what the last scan found out, the
/// manifest file of the segments gives the segments back in their order.
pub proof fn lemma_manifest_is_recovered(segs: Seq<SegmentView>, files: Seq<(SegmentId, Seq<u8>)>)
    requires
        crate::manifest::distinct_ids(segs),
        segs.len() <= u64::MAX,
        forall|i: int|
            0 <= i < segs.len() ==> crate::manifest::recovered_segment(
                files,
                (#[trigger] segs[i]).id,
            ) == Some(unscanned(segs[i])),
    ensures
        parse_manifest(manifest_bytes(ids_of(segs))) == Some(ids_of(segs)),
        recovered(ids_of(segs), files) == Some(segs.map_values(|s: SegmentView| unscanned(s))),
    decreases segs.len(),
{
    crate::manifest::lemma_manifest_round_trip(ids_of(segs), Seq::empty());
    assert(manifest_bytes(ids_of(segs)) + Seq::<u8>::empty() =~= manifest_bytes(ids_of(segs)));
    let f = |s: SegmentView| unscanned(s);
    if segs.len() > 0 {
        let head = segs.drop_last();
        lemma_manifest_is_recovered(head, files);
        assert(ids_of(segs).drop_last() =~= ids_of(head));
        assert(ids_of(segs).last() == segs.last().id);
        let before = head.map_values(f);
        if has_id(before, segs.last().id) {
            let k = choose|k: int| 0 <= k < before.len() && (#[trigger] before[k]).id == segs.last().id;
            assert(segs[k].id != segs[segs.len() - 1].id);
        }
        assert(before.push(unscanned(segs.last())) =~= segs.map_values(f));
    } else {
        assert(ids_of(segs) =~= Seq::<SegmentId>::empty());
        assert(segs.map_values(f) =~= Seq::<SegmentView>::empty());
    }
}

/// A segment of which no scan has found anything out yet.
pub open spec fn unscanned(s: SegmentView) -> SegmentView {
    SegmentView { gc_stats: GcStats { stale_items: 0, stale_bytes: 0 }, ..s }
}

/// Values in other segments do not change the counter of a segment.
pub proof fn lemma_scanned_other(
    map: Map<SegmentId, SegmentCounter>,
    entries: Seq<(ValueHandle, u32)>,
    id: SegmentId,
)
    requires
        forall|i: int| 0 <= i < entries.len() ==> (#[trigger] entries[i]).0.segment_id != id,
    ensures
        scanned(map, entries).contains_key(id) == map.contains_key(id),
        map.contains_key(id) ==> scanned(map, entries)[id] == map[id],
    decreases entries.len(),
{
    if entries.len() > 0 {
        lemma_scanned_other(map, entries.drop_last(), id);
        assert(entries[entries.len() - 1].0.segment_id != id);
    }
}

/// A fully stale segment is among the stale ones.
pub proof fn lemma_stale_ids(segs: Seq<SegmentView>, i: int)
    requires
        0 <= i < segs.len(),
        segs[i].is_stale(),
    ensures
        stale_ids(segs).contains(segs[i].id),
    decreases segs.len(),
{
    let before = stale_ids(segs.drop_last());
    if i == segs.len() - 1 {
        assert(stale_ids(segs)[before.len() as int] == segs[i].id);
    } else {
        lemma_stale_ids(segs.drop_last(), i);
        let k = choose|k: int| 0 <= k < before.len() && before[k] == segs[i].id;
        assert(stale_ids(segs)[k] == segs[i].id);
    }
}

/// A segment that the index does not point into is dropped: after a scan
/// whose entries name no handle of the segment `id`, the segment is fully
/// stale; it is then among the segments that `drop_stale_segments` names
/// for removal, and it is not in the manifest that is left.
pub proof fn lemma_unreferenced_segment_is_dropped(
    segs: Seq<SegmentView>,
    entries: Seq<(ValueHandle, u32)>,
    id: SegmentId,
)
    requires
        crate::manifest::distinct_ids(segs),
        has_id(segs, id),
        forall|i: int| 0 <= i < entries.len() ==> (#[trigger] entries[i]).0.segment_id != id,
    ensures
        ({
            let counters = scanned(initial_counters(ids_of(segs)), entries);
            let after = consumed(segs, counters);
            &&& lookup(after, id) matches Some(s) && s.is_stale()
            &&& stale_ids(after).contains(id)
            &&& !has_id(without(after, stale_ids(after)), id)
        }),
{
    let counters = scanned(initial_counters(ids_of(segs)), entries);
    let after = consumed(segs, counters);
    let i = choose|i: int| 0 <= i < segs.len() && (#[trigger] segs[i]).id == id;
    assert(ids_of(segs)[i] == id);
    lemma_scanned_other(initial_counters(ids_of(segs)), entries, id);
    assert(after[i] == judged(segs[i], counters));
    assert forall|a: int, b: int| 0 <= a < b < after.len() implies (#[trigger] after[a]).id != (
    #[trigger] after[b]).id by {
        assert(segs[a].id != segs[b].id);
    }
    crate::manifest::lemma_lookup(after, i);
    lemma_stale_ids(after, i);
    crate::manifest::lemma_without(after, stale_ids(after));
    let left = without(after, stale_ids(after));
    if has_id(left, id) {
        let k = choose|k: int| 0 <= k < left.len() && (#[trigger] left[k]).id == id;
        assert(left.contains(left[k]));
    }
}

/// A segment that the index points at in full holds nothing stale: where
/// the scan has counted all its items and all its bytes, none of them is
/// stale afterwards.
pub proof fn lemma_referenced_segment_is_live(s: SegmentView, counters: Map<SegmentId, SegmentCounter>)
    requires
        counters.contains_key(s.id),
        s.meta.item_count > 0,
        counters[s.id].item_count == s.meta.item_count,
        counters[s.id].size == s.meta.total_uncompressed_bytes,
    ensures
        judged(s, counters).gc_stats == (GcStats { stale_items: 0, stale_bytes: 0 }),
        !judged(s, counters).is_stale(),
{
}

/// A registration drops nothing: every segment that was in the manifest
/// is in it afterwards, and so is the segment of every writer that holds
/// an item. Where the writers have IDs that no segment had, the segments
/// that were in the manifest are as they were. So after a rollover whose
/// index writer failed, the manifest lists the old files and the new ones,
/// and the old ones are untouched.
pub proof fn lemma_registered_keeps(segs: Seq<SegmentView>, writers: Seq<WriterView>)
    requires
        crate::manifest::distinct_ids(segs),
    ensures
        crate::manifest::distinct_ids(registered(segs, writers)),
        forall|id: SegmentId| has_id(segs, id) ==> #[trigger] has_id(registered(segs, writers), id),
        forall|i: int|
            0 <= i < writers.len() && (#[trigger] writers[i]).item_count > 0 ==> has_id(
                registered(segs, writers),
                writers[i].segment_id,
            ),
        (forall|i: int| 0 <= i < writers.len() ==> !has_id(segs, (#[trigger] writers[i]).segment_id))
            ==> segs.is_prefix_of(registered(segs, writers)),
    decreases writers.len(),
{
    if writers.len() > 0 {
        let head = writers.drop_last();
        let w = writers.last();
        lemma_registered_keeps(segs, head);
        let before = registered(segs, head);
        let after = registered(segs, writers);
        let seg = crate::manifest::segment_of(w);
        if w.item_count > 0 {
            lemma_put_segment(before, seg);
        }
        assert forall|id: SegmentId| has_id(segs, id) implies #[trigger] has_id(after, id) by {
            assert(has_id(before, id));
            let k = choose|k: int| 0 <= k < before.len() && (#[trigger] before[k]).id == id;
            assert(after[k].id == id);
        }
        assert forall|i: int|
            0 <= i < writers.len() && (#[trigger] writers[i]).item_count > 0 implies has_id(
            after,
            writers[i].segment_id,
        ) by {
            if i < head.len() {
                assert(head[i] == writers[i]);
                assert(has_id(before, writers[i].segment_id));
                let k = choose|k: int|
                    0 <= k < before.len() && (#[trigger] before[k]).id == writers[i].segment_id;
                assert(after[k].id == writers[i].segment_id);
            }
        }
        if forall|i: int| 0 <= i < writers.len() ==> !has_id(segs, (#[trigger] writers[i]).segment_id) {
            assert forall|i: int| 0 <= i < head.len() implies !has_id(
                segs,
                (#[trigger] head[i]).segment_id,
            ) by {
                assert(head[i] == writers[i]);
            }
            assert(segs.is_prefix_of(before));
            assert(!has_id(segs, writers[writers.len() - 1].segment_id));
            assert forall|k: int| 0 <= k < segs.len() implies after[k] == segs[k] by {
                assert(before[k] == segs[k]);
                if segs[k].id == w.segment_id {
                    assert(has_id(segs, w.segment_id));
                }
            }
        }
    }
}

/// Putting a segment into segments with distinct IDs keeps the IDs
/// distinct, keeps the number of the segments or adds one, and leaves the
/// segment in them.
pub proof fn lemma_put_segment(segs: Seq<SegmentView>, seg: SegmentView)
    requires
        crate::manifest::distinct_ids(segs),
    ensures
        crate::manifest::distinct_ids(crate::manifest::put_segment(segs, seg)),
        crate::manifest::put_segment(segs, seg).len() >= segs.len(),
        has_id(crate::manifest::put_segment(segs, seg), seg.id),
        forall|k: int|
            0 <= k < segs.len() ==> (#[trigger] crate::manifest::put_segment(segs, seg)[k]).id
                == segs[k].id,
        forall|k: int|
            0 <= k < segs.len() && segs[k].id != seg.id ==> #[trigger] crate::manifest::put_segment(
                segs,
                seg,
            )[k] == segs[k],
{
    let after = crate::manifest::put_segment(segs, seg);
    if has_id(segs, seg.id) {
        let k = choose|k: int| 0 <= k < segs.len() && (#[trigger] segs[k]).id == seg.id;
        assert(after[k].id == seg.id);
        assert forall|a: int, b: int| 0 <= a < b < after.len() implies (#[trigger] after[a]).id != (
        #[trigger] after[b]).id by {
            assert(segs[a].id != segs[b].id);
        }
    } else {
        assert(after[segs.len() as int].id == seg.id);
        assert forall|a: int, b: int| 0 <= a < b < after.len() implies (#[trigger] after[a]).id != (
        #[trigger] after[b]).id by {
            if b < segs.len() {
                assert(segs[a].id != segs[b].id);
            } else {
                assert(after[a] == segs[a]);
            }
        }
    }
}

/// What a value log knows of a handle before it reads a file, given what
/// the blob cache has for the handle: the value that the cache has; else
/// the segment of the handle, which is to be read, where the manifest has
/// it; else nothing.
pub open spec fn classified(
    cached: Option<UserValue>,
    segs: Seq<SegmentView>,
    vhandle: ValueHandle,
) -> Lookup {
    match cached {
        Some(value) => Lookup::Hit(value),
        None => if lookup(segs, vhandle.segment_id) is Some {
            Lookup::Load(vhandle.segment_id)
        } else {
            Lookup::Unknown
        },
    }
}

/// Whether `r` is what a handle resolves to in a value log with the
/// segments `segs`, given what the blob cache has for the handle and the
/// bytes of the file of its segment.
///
/// What the cache has is handed out. Else a handle whose segment is not
/// in the manifest resolves to nothing, and one into a compressed segment
/// of a value log without a compressor fails with `Decompress`. Else the
/// record at the offset of the handle decides: the metadata block gives
/// nothing, a record that is cut off an I/O error, a bad header its
/// decoding error, and a record its value. In a segment that is not
/// compressed that value is the stored one, unless a bad header stops the
/// prefetch of the `prefetch_size` records behind it.
pub open spec fn resolved(
    segs: Seq<SegmentView>,
    has_compressor: bool,
    cached: Option<UserValue>,
    vhandle: ValueHandle,
    prefetch_size: usize,
    file: Seq<u8>,
    r: Result<Option<UserValue>, Error>,
) -> bool {
    match cached {
        Some(value) => r matches Ok(Some(v)) && v == value,
        None => match lookup(segs, vhandle.segment_id) {
            None => r matches Ok(None),
            Some(segment) => if segment.meta.compression == CompressionType::Custom
                && !has_compressor {
                r matches Err(Error::Decompress)
            } else {
                match record_at(file, vhandle.offset) {
                    Scan::Record(record, len) => {
                        &&& r matches Ok(Some(v)) ==> (segment.meta.compression
                            == CompressionType::Plain ==> v@ == record.value)
                        &&& r matches Ok(None) ==> false
                        &&& segment.meta.compression == CompressionType::Plain
                            ==> match prefetch_fault(
                            file,
                            start_of(file, vhandle.offset) + len,
                            prefetch_size as nat,
                        ) {
                            None => r matches Ok(Some(_)),
                            Some(fault) => r matches Err(Error::Decode(d)) && d.fault() == fault,
                        }
                    },
                    Scan::End => r matches Ok(None),
                    Scan::Failed(Fault::Truncated) => r matches Err(Error::Io(_)),
                    Scan::Failed(fault) => r matches Err(Error::Decode(d)) && d.fault() == fault,
                }
            },
        },
    }
}

/// Whether the rewriting of a record has failed with the error `e`, given
/// the handle that the index had for its key: the plan for the record has
/// failed with that error; or the record was to be rewritten and was
/// handed to the index writer, which was in the state `index`, and the
/// index writer or the write has failed, as `rewritten_by` says.
pub open spec fn rewrite_failed<W: IndexWriter, C: Compressor>(
    segs: Seq<SegmentView>,
    compressor: Option<C>,
    index: W,
    writer: MultiWriterView,
    next_id: SegmentId,
    found: Option<ValueHandle>,
    entry: EntryView,
    e: Error,
) -> bool {
    exists|plan: Result<Option<(ValueHandle, UserValue)>, Error>, packer: Option<C>|
        {
            &&& #[trigger] planned(
                segs,
                compressor,
                writer,
                found,
                entry.value,
                entry.segment_id,
                plan,
            )
            &&& packer is Some <==> writer.compressed
            &&& #[trigger] rewritten_by(
                plan,
                index,
                packer,
                writer,
                next_id,
                writer,
                next_id,
                entry.key,
                Err::<Rewritten, Error>(e),
            )
        }
}

/// Whether a rollover has stopped with the error `e` at the next entry of
/// the merge of `rest`, with its index writer in the state `index`: the
/// merge has failed, with the error of one of its lanes; or the index
/// reader was asked for the key of the entry, and has failed, or the
/// rewriting of the record has failed, as `rewrite_failed` says.
pub open spec fn stopped<R: IndexReader, W: IndexWriter, C: Compressor>(
    rest: Seq<Lane>,
    reader: R,
    index: W,
    segs: Seq<SegmentView>,
    compressor: Option<C>,
    writer: MultiWriterView,
    next_id: SegmentId,
    e: Error,
) -> bool {
    match step(rest) {
        Step::Done => false,
        Step::Failed => failed_with(rest, e),
        Step::Yield(entry, _) => exists|answer: std::io::Result<Option<ValueHandle>>|
            {
                &&& #[trigger] index_said(reader, entry.key, answer)
                &&& match answer {
                    Ok(found) => rewrite_failed::<W, C>(
                        segs,
                        compressor,
                        index,
                        writer,
                        next_id,
                        found,
                        entry,
                        e,
                    ),
                    Err(_) => e is Io,
                }
            },
    }
}

/// A rewriting fails for live records only.
pub proof fn lemma_rewrite_failed_is_live<W: IndexWriter, C: Compressor>(
    segs: Seq<SegmentView>,
    compressor: Option<C>,
    writer: MultiWriterView,
    next_id: SegmentId,
    found: Option<ValueHandle>,
    entry: EntryView,
    e: Error,
    index: W,
)
    requires
        rewrite_failed::<W, C>(segs, compressor, index, writer, next_id, found, entry, e),
    ensures
        is_live(found, entry.segment_id),
{
}

/// Handles and values, with the values as plain bytes.
pub open spec fn pair_views(list: Seq<(ValueHandle, UserValue)>) -> Seq<(ValueHandle, Seq<u8>)> {
    list.map_values(|p: (ValueHandle, UserValue)| (p.0, p.1@))
}

/// The stored values of up to `count` records of a file from `position`
/// on, each with the handle of its offset in the segment `id`. The end of
/// the file, the metadata block and what cannot be read end them.
pub open spec fn prefetched(file: Seq<u8>, id: SegmentId, position: nat, count: nat) -> Seq<
    (ValueHandle, Seq<u8>),
>
    decreases count,
{
    if count == 0 {
        Seq::empty()
    } else {
        match parse_record(file.skip(position as int)) {
            Scan::Record(record, len) => seq![
                (ValueHandle { segment_id: id, offset: position as u64 }, record.value),
            ] + prefetched(file, id, position + len, (count - 1) as nat),
            _ => Seq::empty(),
        }
    }
}

/// Whether `r` holds what a read of a handle brings from the file of its
/// segment: the values that were loaded, and the error that ended the
/// loading, if one did. The value of the handle comes first, and behind
/// it the values of the `prefetch_size` records that follow, each under
/// the handle of its offset.
///
/// A handle whose segment is not in the manifest brings nothing, and one
/// into a compressed segment of a value log without a compressor fails
/// with `Decompress`. Else the record at the offset of the handle decides:
/// the metadata block brings nothing, a record that is cut off gives an
/// I/O error, a bad header its decoding error.
///
/// In a segment that is not compressed the values are the stored ones, up
/// to the end of the prefetch; a bad header that stops the prefetch gives
/// its decoding error. In a compressed one each value is what the
/// compressor makes of the stored bytes; the loading ends at the first
/// record for which the compressor fails, with its error.
pub open spec fn loaded<C: Compressor>(
    segs: Seq<SegmentView>,
    compressor: Option<C>,
    vhandle: ValueHandle,
    prefetch_size: usize,
    file: Seq<u8>,
    r: (Vec<(ValueHandle, UserValue)>, Option<Error>),
) -> bool {
    let list = r.0@;
    let failure = r.1;
    match lookup(segs, vhandle.segment_id) {
        None => list.len() == 0 && failure is None,
        Some(segment) => if segment.meta.compression == CompressionType::Custom
            && compressor is None {
            &&& list.len() == 0
            &&& failure matches Some(Error::Decompress)
        } else {
            match record_at(file, vhandle.offset) {
                Scan::Record(record, len) => {
                    let behind = start_of(file, vhandle.offset) + len;
                    let stored = seq![(vhandle, record.value)] + prefetched(
                        file,
                        vhandle.segment_id,
                        behind,
                        prefetch_size as nat,
                    );
                    let fault = prefetch_fault(file, behind, prefetch_size as nat);
                    if segment.meta.compression == CompressionType::Plain {
                        &&& pair_views(list) == stored
                        &&& match fault {
                            None => failure is None,
                            Some(f) => failure matches Some(Error::Decode(d)) && d.fault() == f,
                        }
                    } else {
                        &&& list.len() <= stored.len()
                        &&& forall|i: int|
                            0 <= i < list.len() ==> (#[trigger] list[i]).0 == stored[i].0
                                && unpacks_to(compressor->Some_0, stored[i].1, Ok(list[i].1@))
                        &&& match failure {
                            None => list.len() == stored.len() && fault is None,
                            Some(e) => if list.len() < stored.len() {
                                unpacks_to(compressor->Some_0, stored[list.len() as int].1, Err(e))
                            } else {
                                fault matches Some(f) && e matches Error::Decode(d) && d.fault()
                                    == f
                            },
                        }
                    }
                },
                Scan::End => list.len() == 0 && failure is None,
                Scan::Failed(Fault::Truncated) => {
                    &&& list.len() == 0
                    &&& failure matches Some(Error::Io(_))
                },
                Scan::Failed(fault) => {
                    &&& list.len() == 0
                    &&& failure matches Some(Error::Decode(d)) && d.fault() == fault
                },
            }
        },
    }
}

/// Whether the blob cache was handed a value under a handle.
pub open spec fn cache_got<BC: BlobCache>(
    cache: BC,
    id: ValueLogId,
    vhandle: ValueHandle,
    value: Seq<u8>,
) -> bool {
    exists|h: &ValueHandle, v: UserValue|
        {
            &&& *h == vhandle
            &&& v@ == value
            &&& #[trigger] call_ensures(BC::insert, (&cache, id, h, v), ())
        }
}

/// Whether `r` is what a handle resolves to where the blob cache has
/// nothing for it: the values were loaded as `loaded` says, and each of
/// them was handed to the blob cache under its handle; the error that
/// ended the loading is handed on; without one, the handle resolves to the
/// first value, or to nothing where nothing was loaded.
pub open spec fn brought<BC: BlobCache, C: Compressor>(
    segs: Seq<SegmentView>,
    compressor: Option<C>,
    cache: BC,
    id: ValueLogId,
    vhandle: ValueHandle,
    prefetch_size: usize,
    file: Seq<u8>,
    r: Result<Option<UserValue>, Error>,
) -> bool {
    exists|given: (Vec<(ValueHandle, UserValue)>, Option<Error>)|
        {
            &&& #[trigger] loaded(segs, compressor, vhandle, prefetch_size, file, given)
            &&& forall|i: int|
                0 <= i < given.0@.len() ==> cache_got(
                    cache,
                    id,
                    (#[trigger] given.0@[i]).0,
                    given.0@[i].1@,
                )
            &&& match given.1 {
                Some(e) => r matches Err(x) && x == e,
                None => if given.0@.len() == 0 {
                    r matches Ok(None)
                } else {
                    r matches Ok(Some(v)) && v@ == given.0@[0].1@
                },
            }
        }
}

/// Dropping no segment leaves the segments as they are.
pub proof fn lemma_without_nothing(segs: Seq<SegmentView>)
    ensures
        without(segs, Seq::empty()) == segs,
    decreases segs.len(),
{
    if segs.len() > 0 {
        lemma_without_nothing(segs.drop_last());
        assert(without(segs, Seq::empty()) =~= segs);
    }
}

/// Whether `log` is the value log that is created for `id` and `config`:
/// it has no segments, and its first segment gets the ID 0.
pub open spec fn is_created<BC: BlobCache, C: Compressor + Clone>(
    log: ValueLog<BC, C>,
    id: ValueLogId,
    config: Config<BC, C>,
) -> bool {
    &&& log.wf()
    &&& log.id == id
    &&& log.config == config
    &&& log.manifest@ == Seq::<SegmentView>::empty()
    &&& log.id_generator@ == 0
}

/// Whether `log` is the value log that is recovered from `disk`, and
/// `unlink` the places of the files that are to be removed: the marker
/// states the current version, the segments are those that the manifest
/// file lists, the next segment ID is the one after the greatest of
/// theirs, and the files to be removed are those whose name states an ID
/// that the manifest file does not list.
pub open spec fn is_recovered<BC: BlobCache, C: Compressor + Clone>(
    log: ValueLog<BC, C>,
    id: ValueLogId,
    config: Config<BC, C>,
    disk: Disk,
    unlink: Seq<usize>,
) -> bool {
    &&& log.wf()
    &&& log.id == id
    &&& log.config == config
    &&& parsed_header(disk.marker@) == Some(Version::V1)
    &&& parse_manifest(disk.manifest@) matches Some(ids)
    &&& recovered(ids, found_views(disk.segments@)) == Some(log.manifest@)
    &&& unlink == unfinished(name_views(disk.names@), ids)
    &&& log.id_generator@ == highest_of(log.manifest@) + 1
}

/// Whether `e` is the error that the recovery from `disk` gives:
/// `InvalidVersion` where the marker states no known version, an I/O error
/// where the manifest file ends too early, `Unrecoverable` where a segment
/// that it lists cannot be loaded, or has the greatest `u64` as its ID.
pub open spec fn recovery_fault(disk: Disk, e: Error) -> bool {
    if parsed_header(disk.marker@) is None {
        e matches Error::InvalidVersion(v) && v is None
    } else {
        match parse_manifest(disk.manifest@) {
            None => e is Io,
            Some(ids) => {
                &&& e is Unrecoverable
                &&& match recovered(ids, found_views(disk.segments@)) {
                    Some(segs) => highest_of(segs) == u64::MAX,
                    None => true,
                }
            },
        }
    }
}

/// Writers whose IDs are not below `lowest`, with a generator that is not
/// below it, have such IDs after every turn of a rollover.
pub proof fn lemma_replayed_ids(w: MultiWriterView, g: SegmentId, turns: Seq<Turn>, lowest: SegmentId)
    requires
        w.writers.len() >= 1,
        forall|i: int| 0 <= i < w.writers.len() ==> (#[trigger] w.writers[i]).segment_id >= lowest,
        g >= lowest,
    ensures
        replayed(w, g, turns).0.writers.len() >= 1,
        replayed(w, g, turns).1 >= lowest,
        forall|i: int|
            0 <= i < replayed(w, g, turns).0.writers.len() ==> (#[trigger] replayed(
                w,
                g,
                turns,
            ).0.writers[i]).segment_id >= lowest,
        forall|i: int|
            0 <= i < replayed(w, g, turns).0.finished().len() ==> (#[trigger] replayed(
                w,
                g,
                turns,
            ).0.finished()[i]).segment_id >= lowest,
    decreases turns.len(),
{
    if turns.len() > 0 {
        lemma_replayed_ids(w, g, turns.drop_last(), lowest);
        let before = replayed(w, g, turns.drop_last());
        let after = replayed(w, g, turns);
        assert forall|i: int| 0 <= i < after.0.writers.len() implies (
        #[trigger] after.0.writers[i]).segment_id >= lowest by {
            if i < before.0.writers.len() - 1 {
                assert(after.0.writers[i] == before.0.writers[i]);
            } else {
                assert(before.0.writers[before.0.writers.len() - 1].segment_id >= lowest);
            }
        }
    }
    let last = replayed(w, g, turns).0;
    assert forall|i: int| 0 <= i < last.finished().len() implies (
    #[trigger] last.finished()[i]).segment_id >= lowest by {
        assert(last.writers[i].segment_id >= lowest);
    }
}

/// A rollover whose index writer has failed at its finishing loses
/// nothing. Take a rollover that got as far as to rewrite records, and
/// let the finishing of the index writer fail. Then the end of the
/// rollover is an I/O error; the manifest lists the old files as they
/// were, none of them marked as stale and none removed; and it lists the
/// new file of every writer that holds an item. The index, which was not
/// changed, points at the old files, so a scan for statistics finds the
/// new files unreferenced, and the old ones are as live as they were.
pub proof fn lemma_failed_finish_keeps_every_file<R: IndexReader, W: IndexWriter, C: Compressor>(
    before: Seq<SegmentView>,
    next_id: SegmentId,
    rewritten: Seq<SegmentView>,
    next_id_after: SegmentId,
    target_size: u64,
    compressor: Option<C>,
    ids: Seq<SegmentId>,
    files: Seq<(SegmentId, Seq<u8>)>,
    reader: R,
    index: W,
    index_after: W,
    r: Rollover,
    finished: std::io::Result<()>,
    after: Seq<SegmentView>,
    end: Result<u64, Error>,
)
    requires
        crate::manifest::distinct_ids(before),
        ids_below(before, next_id),
        rolled::<R, W, C>(
            before,
            next_id,
            rewritten,
            next_id_after,
            target_size,
            compressor,
            ids,
            files,
            reader,
            index,
            index_after,
            r,
        ),
        r.changes is Some,
        finished is Err,
        concluded(rewritten, after, ids, finished, r.size_before, end),
    ensures
        end is Err,
        end->Err_0 is Io,
        crate::manifest::distinct_ids(after),
        before.is_prefix_of(after),
        forall|i: int|
            0 <= i < r.writers@.len() && (#[trigger] r.writers@[i]).item_count > 0 ==> has_id(
                after,
                r.writers@[i].segment_id,
            ),
{
    let compressed = compressor is Some;
    let first = MultiWriterView {
        target_size,
        writers: seq![fresh_writer(next_id, compressed)],
        compressed,
    };
    lemma_replayed_ids(first, (next_id + 1) as u64, r.turns@, next_id);
    lemma_registered_keeps(before, r.writers@);
    assert forall|i: int| 0 <= i < r.writers@.len() implies !has_id(
        before,
        (#[trigger] r.writers@[i]).segment_id,
    ) by {
        if has_id(before, r.writers@[i].segment_id) {
            let k = choose|k: int|
                0 <= k < before.len() && (#[trigger] before[k]).id == r.writers@[i].segment_id;
            assert(before[k].id < next_id);
        }
    }
}

/// What is found under an ID among segments is found under it among the
/// same segments without their statistics, and is the same but for
/// them.
pub proof fn lemma_lookup_unscanned(segs: Seq<SegmentView>, id: SegmentId)
    requires
        crate::manifest::distinct_ids(segs),
    ensures
        lookup(segs.map_values(|s: SegmentView| unscanned(s)), id) == match lookup(segs, id) {
            Some(seg) => Some(unscanned(seg)),
            None => None,
        },
{
    let again = segs.map_values(|s: SegmentView| unscanned(s));
    assert forall|i: int| 0 <= i < segs.len() implies (#[trigger] again[i]).id == segs[i].id by {}
    if has_id(segs, id) {
        let k = choose|k: int| 0 <= k < segs.len() && (#[trigger] segs[k]).id == id;
        assert(again[k].id == id);
        assert forall|a: int, b: int| 0 <= a < b < again.len() implies (#[trigger] again[a]).id != (
        #[trigger] again[b]).id by {
            assert(segs[a].id != segs[b].id);
        }
        crate::manifest::lemma_lookup(segs, k);
        crate::manifest::lemma_lookup(again, k);
    } else {
        if has_id(again, id) {
            let k = choose|k: int| 0 <= k < again.len() && (#[trigger] again[k]).id == id;
            assert(segs[k].id == id);
        }
    }
}

/// A value log that is opened again resolves every handle as it did
/// before. Take the segments of a manifest, and files from which each of
/// them is recovered as it was registered. Then the manifest file is read
/// back as it was written, the recovery gives the same segments, without
/// their statistics, and a handle resolves from a file to what it
/// resolved to before: the value that was written under it.
pub proof fn lemma_reopened_log_resolves_alike(
    segs: Seq<SegmentView>,
    files: Seq<(SegmentId, Seq<u8>)>,
    has_compressor: bool,
    cached: Option<UserValue>,
    vhandle: ValueHandle,
    prefetch_size: usize,
    file: Seq<u8>,
    r: Result<Option<UserValue>, Error>,
)
    requires
        crate::manifest::distinct_ids(segs),
        segs.len() <= u64::MAX,
        forall|i: int|
            0 <= i < segs.len() ==> crate::manifest::recovered_segment(
                files,
                (#[trigger] segs[i]).id,
            ) == Some(unscanned(segs[i])),
    ensures
        parse_manifest(manifest_bytes(ids_of(segs))) == Some(ids_of(segs)),
        recovered(ids_of(segs), files) matches Some(again) && resolved(
            again,
            has_compressor,
            cached,
            vhandle,
            prefetch_size,
            file,
            r,
        ) == resolved(segs, has_compressor, cached, vhandle, prefetch_size, file, r),
{
    lemma_manifest_is_recovered(segs, files);
    lemma_lookup_unscanned(segs, vhandle.segment_id);
}

/// A value log that is opened again loads every handle as it did before,
/// with or without a compressor. Take the segments of a manifest, and
/// files from which each of them is recovered as it was registered. Then
/// the recovery gives the same segments, without their statistics, and
/// the loading of a handle from a file gives what it gave before: the
/// value that was written under it, or what the compressor makes of the
/// bytes that were stored for it.
pub proof fn lemma_reopened_log_loads_alike<C: Compressor>(
    segs: Seq<SegmentView>,
    files: Seq<(SegmentId, Seq<u8>)>,
    compressor: Option<C>,
    vhandle: ValueHandle,
    prefetch_size: usize,
    file: Seq<u8>,
    r: (Vec<(ValueHandle, UserValue)>, Option<Error>),
)
    requires
        crate::manifest::distinct_ids(segs),
        segs.len() <= u64::MAX,
        forall|i: int|
            0 <= i < segs.len() ==> crate::manifest::recovered_segment(
                files,
                (#[trigger] segs[i]).id,
            ) == Some(unscanned(segs[i])),
    ensures
        recovered(ids_of(segs), files) matches Some(again) && loaded(
            again,
            compressor,
            vhandle,
            prefetch_size,
            file,
            r,
        ) == loaded(segs, compressor, vhandle, prefetch_size, file, r),
{
    lemma_manifest_is_recovered(segs, files);
    lemma_lookup_unscanned(segs, vhandle.segment_id);
}

} // verus!
