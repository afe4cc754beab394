//! What was written is what is read: the records of a writer stay where
//! they were written, through every later write, the end of a file and
//! the finishing of the writer.

use crate::error::Error;
use crate::id::SegmentId;
use crate::manifest::distinct_ids;
use crate::manifest::has_id;
use crate::manifest::lemma_lookup;
use crate::manifest::lookup;
use crate::manifest::put_segment;
use crate::manifest::registered;
use crate::manifest::segment_of;
use crate::segment::meta::CompressionType;
use crate::segment::multi_writer::MultiWriterView;
use crate::segment::reader::lemma_read_at_write_offset;
use crate::segment::reader::RecordView;
use crate::segment::reader::Scan;
use crate::segment::writer::checksum_of;
use crate::segment::writer::record_bytes;
use crate::segment::writer::write_fault;
use crate::segment::writer::WriterView;
use crate::segment::SegmentView;
use crate::slice::slice_len_ok;
use crate::value::UserValue;
use crate::segment::reader::unpacks_to;
use crate::handle::ValueHandle;
use crate::value_log::lemma_put_segment;
use crate::segment::meta::metadata_bytes;
use crate::segment::meta::metadata_magic;
use crate::segment::reader::lemma_metadata_ends_scan;
use crate::segment::reader::parse_record;
use crate::segment::trailer::trailer_bytes;
use crate::value_log::loaded;
use crate::value_log::prefetch_fault;
use crate::value_log::prefetched;
use crate::value_log::start_of;
use crate::value_log::pair_views;
use crate::value_log::lemma_registered_keeps;
use crate::value_log::resolved;
use crate::compression::Compressor;
use crate::index::Reader as IndexReader;
use crate::index::Writer as IndexWriter;
use crate::segment::multi_writer::fresh_writer;
use crate::value_log::index_was_told;
use crate::value_log::is_compressed;
use crate::value_log::is_live;
use crate::value_log::rolled;
use crate::value_log::turn_handle;
use crate::value_log::Rollover;
use crate::value_log::next_handle;
use crate::value_log::record_at;
use crate::value_log::replayed;
use crate::value_log::turned;
use crate::value_log::Turn;
use vstd::prelude::*;

verus! {

/// One write: a key, its value, and the bytes that are stored for the
/// value.
pub struct Put {
    pub key: Seq<u8>,
    pub value: Seq<u8>,
    pub stored: Seq<u8>,
}

/// A writer and its generator after a write: the active file has one more
/// record, and is ended where it has reached the target size.
pub open spec fn put(w: MultiWriterView, g: SegmentId, p: Put) -> (MultiWriterView, SegmentId) {
    let written = w.active().after_write(p.key, p.value.len(), p.stored);
    (w.after_write(written, g), w.next_id_after(written, g))
}

/// A writer and its generator after some writes, the first one first.
pub open spec fn put_all(w: MultiWriterView, g: SegmentId, puts: Seq<Put>) -> (
    MultiWriterView,
    SegmentId,
)
    decreases puts.len(),
{
    if puts.len() == 0 {
        (w, g)
    } else {
        let before = put_all(w, g, puts.drop_last());
        put(before.0, before.1, puts.last())
    }
}

/// Whether the writers `later` go on from the writers `earlier`: each of
/// the earlier ones stands at its place among the later ones, under its
/// ID, its bytes are the first bytes of the later one, and where it held
/// an item, the later one holds one.
pub open spec fn goes_on(earlier: Seq<WriterView>, later: Seq<WriterView>) -> bool {
    &&& earlier.len() <= later.len()
    &&& forall|i: int|
        0 <= i < earlier.len() ==> {
            &&& (#[trigger] later[i]).segment_id == earlier[i].segment_id
            &&& earlier[i].bytes.is_prefix_of(later[i].bytes)
            &&& earlier[i].first_key is Some ==> later[i].first_key is Some
        }
}

/// Whether the record of `p` stands in the writer at `place`, behind the
/// bytes that `start` held, and the writer has the ID of `start`.
pub open spec fn stands(writers: Seq<WriterView>, place: int, start: WriterView, p: Put) -> bool {
    &&& 0 <= place < writers.len()
    &&& writers[place].segment_id == start.segment_id
    &&& start.after_write(p.key, p.value.len(), p.stored).bytes.is_prefix_of(writers[place].bytes)
    &&& writers[place].first_key is Some
}

/// A record that stands in a writer stands in every writer that goes on
/// from it.
pub proof fn lemma_stands_on(
    earlier: Seq<WriterView>,
    later: Seq<WriterView>,
    place: int,
    start: WriterView,
    p: Put,
)
    requires
        stands(earlier, place, start, p),
        goes_on(earlier, later),
    ensures
        stands(later, place, start, p),
{
    let bytes = start.after_write(p.key, p.value.len(), p.stored).bytes;
    assert(later[place].segment_id == earlier[place].segment_id);
    assert(earlier[place].bytes.is_prefix_of(later[place].bytes));
    assert(bytes =~= later[place].bytes.subrange(0, bytes.len() as int));
}

/// A write puts its record behind the bytes of the active writer, and
/// leaves every writer where it is.
pub proof fn lemma_put_goes_on(w: MultiWriterView, g: SegmentId, p: Put)
    requires
        w.writers.len() >= 1,
    ensures
        put(w, g, p).0.writers.len() >= 1,
        goes_on(w.writers, put(w, g, p).0.writers),
        stands(put(w, g, p).0.writers, w.writers.len() - 1, w.active(), p),
{
    let written = w.active().after_write(p.key, p.value.len(), p.stored);
    let after = put(w, g, p).0.writers;
    let last = w.writers.len() - 1;
    assert(w.active().bytes =~= written.bytes.subrange(0, w.active().bytes.len() as int));
    assert(written.bytes =~= written.after_flush().bytes.subrange(0, written.bytes.len() as int));
    assert(w.active().bytes =~= written.after_flush().bytes.subrange(
        0,
        w.active().bytes.len() as int,
    ));
    assert forall|i: int| 0 <= i < w.writers.len() implies (#[trigger] after[i]).segment_id
        == w.writers[i].segment_id && w.writers[i].bytes.is_prefix_of(after[i].bytes) && (
    w.writers[i].first_key is Some ==> after[i].first_key is Some) by {
        if i < last {
            assert(after[i] == w.writers[i]);
            assert(w.writers[i].bytes =~= after[i].bytes.subrange(
                0,
                w.writers[i].bytes.len() as int,
            ));
        }
    }
}

/// The finishing of a writer leaves every writer where it is.
pub proof fn lemma_finished_goes_on(w: MultiWriterView)
    requires
        w.writers.len() >= 1,
    ensures
        goes_on(w.writers, w.finished()),
{
    let after = w.finished();
    let last = w.writers.len() - 1;
    assert(w.active().bytes =~= w.active().after_flush().bytes.subrange(
        0,
        w.active().bytes.len() as int,
    ));
    assert forall|i: int| 0 <= i < w.writers.len() implies (#[trigger] after[i]).segment_id
        == w.writers[i].segment_id && w.writers[i].bytes.is_prefix_of(after[i].bytes) && (
    w.writers[i].first_key is Some ==> after[i].first_key is Some) by {
        if i < last {
            assert(after[i] == w.writers[i]);
        }
        assert(w.writers[i].bytes =~= after[i].bytes.subrange(0, w.writers[i].bytes.len() as int))
            by {
            if i == last && w.active().item_count == 0 {
                assert(after[i] == w.writers[i]);
            }
        }
    }
}

/// A writer has an active file after every write.
pub proof fn lemma_put_all_is_active(w: MultiWriterView, g: SegmentId, puts: Seq<Put>)
    requires
        w.writers.len() >= 1,
    ensures
        put_all(w, g, puts).0.writers.len() >= 1,
    decreases puts.len(),
{
    if puts.len() > 0 {
        lemma_put_all_is_active(w, g, puts.drop_last());
        let before = put_all(w, g, puts.drop_last());
        lemma_put_goes_on(before.0, before.1, puts.last());
    }
}

/// The record of a write stands, after all the writes, where the write
/// has put it: in the file that was the active one, behind the bytes that
/// the file held.
pub proof fn lemma_put_stands(w: MultiWriterView, g: SegmentId, puts: Seq<Put>, i: int)
    requires
        w.writers.len() >= 1,
        0 <= i < puts.len(),
    ensures
        ({
            let before = put_all(w, g, puts.take(i)).0;
            stands(put_all(w, g, puts).0.writers, before.writers.len() - 1, before.active(), puts[i])
        }),
    decreases puts.len(),
{
    let head = puts.drop_last();
    let mid = put_all(w, g, head);
    lemma_put_all_is_active(w, g, head);
    lemma_put_goes_on(mid.0, mid.1, puts.last());
    if i == puts.len() - 1 {
        assert(puts.take(i) =~= head);
    } else {
        assert(head.take(i) =~= puts.take(i));
        assert(head[i] == puts[i]);
        lemma_put_stands(w, g, head, i);
        let before = put_all(w, g, puts.take(i)).0;
        lemma_stands_on(
            mid.0.writers,
            put_all(w, g, puts).0.writers,
            before.writers.len() - 1,
            before.active(),
            puts[i],
        );
    }
}

/// A record that stands in a file is read at the offset behind the bytes
/// that the file held before it: with its key, the bytes that were stored
/// for its value, and their checksum.
pub proof fn lemma_standing_record_is_read(
    writers: Seq<WriterView>,
    place: int,
    start: WriterView,
    p: Put,
)
    requires
        stands(writers, place, start, p),
        writers[place].bytes.len() <= u64::MAX,
        write_fault(p.key.len(), p.value.len(), p.stored.len()) is None,
        slice_len_ok(p.stored.len()),
    ensures
        record_at(writers[place].bytes, start.bytes.len() as u64) == Scan::Record(
            RecordView { key: p.key, value: p.stored, checksum: checksum_of(p.stored) },
            18 + p.key.len() + p.stored.len(),
        ),
{
    let file = writers[place].bytes;
    let record = record_bytes(p.key, p.stored, checksum_of(p.stored));
    let written = start.bytes + record;
    let after = file.skip(written.len() as int);
    assert(file =~= start.bytes + record + after);
    lemma_read_at_write_offset(start.bytes, p.key, p.stored, checksum_of(p.stored), after);
}

/// Every value that was written is read under its handle. Take any
/// writes through one writer, and for each of them the handle that the
/// writer gave right before it. After the writer was finished, the file
/// of the segment of the handle holds at the offset of the handle the
/// record of that write: its key and the bytes that were stored for its
/// value, which are the value itself where the writer does not compress.
/// This holds however many writes follow, and however many files the
/// writes have gone through.
pub proof fn lemma_every_written_value_is_read(
    w: MultiWriterView,
    g: SegmentId,
    puts: Seq<Put>,
    i: int,
)
    requires
        w.writers.len() >= 1,
        0 <= i < puts.len(),
        write_fault(puts[i].key.len(), puts[i].value.len(), puts[i].stored.len()) is None,
        slice_len_ok(puts[i].stored.len()),
        forall|j: int|
            0 <= j < put_all(w, g, puts).0.finished().len() ==> (#[trigger] put_all(
                w,
                g,
                puts,
            ).0.finished()[j]).wf(),
    ensures
        ({
            let before = put_all(w, g, puts.take(i)).0;
            let handle = next_handle(before);
            let place = before.writers.len() - 1;
            let files = put_all(w, g, puts).0.finished();
            &&& 0 <= place < files.len()
            &&& files[place].segment_id == handle.segment_id
            &&& record_at(files[place].bytes, handle.offset) == Scan::Record(
                RecordView {
                    key: puts[i].key,
                    value: puts[i].stored,
                    checksum: checksum_of(puts[i].stored),
                },
                18 + puts[i].key.len() + puts[i].stored.len(),
            )
        }),
{
    let before = put_all(w, g, puts.take(i)).0;
    let last = put_all(w, g, puts).0;
    let place = before.writers.len() - 1;
    lemma_put_stands(w, g, puts, i);
    lemma_put_all_is_active(w, g, puts);
    lemma_finished_goes_on(last);
    lemma_stands_on(last.writers, last.finished(), place, before.active(), puts[i]);
    assert(last.finished()[place].wf());
    lemma_standing_record_is_read(last.finished(), place, before.active(), puts[i]);
}

/// What a turn of a rollover writes, where its record is live.
pub open spec fn put_of(t: Turn) -> Put {
    Put { key: t.entry.key, value: t.value, stored: t.stored }
}

/// A writer has an active file after every turn of a rollover.
pub proof fn lemma_replayed_is_active(w: MultiWriterView, g: SegmentId, turns: Seq<Turn>)
    requires
        w.writers.len() >= 1,
    ensures
        replayed(w, g, turns).0.writers.len() >= 1,
    decreases turns.len(),
{
    if turns.len() > 0 {
        lemma_replayed_is_active(w, g, turns.drop_last());
        let before = replayed(w, g, turns.drop_last());
        lemma_put_goes_on(before.0, before.1, put_of(turns.last()));
    }
}

/// The record of a turn of a rollover stands, after all the turns, where
/// the turn has put it.
pub proof fn lemma_turn_stands(w: MultiWriterView, g: SegmentId, turns: Seq<Turn>, i: int)
    requires
        w.writers.len() >= 1,
        0 <= i < turns.len(),
        is_live(turns[i].found, turns[i].entry.segment_id),
    ensures
        ({
            let before = replayed(w, g, turns.take(i)).0;
            stands(
                replayed(w, g, turns).0.writers,
                before.writers.len() - 1,
                before.active(),
                put_of(turns[i]),
            )
        }),
    decreases turns.len(),
{
    let head = turns.drop_last();
    let mid = replayed(w, g, head);
    lemma_replayed_is_active(w, g, head);
    lemma_put_goes_on(mid.0, mid.1, put_of(turns.last()));
    if i == turns.len() - 1 {
        assert(turns.take(i) =~= head);
        assert(turned(mid.0, mid.1, turns.last()) == put(mid.0, mid.1, put_of(turns.last())));
    } else {
        assert(head.take(i) =~= turns.take(i));
        assert(head[i] == turns[i]);
        lemma_turn_stands(w, g, head, i);
        let before = replayed(w, g, turns.take(i)).0;
        if is_live(turns.last().found, turns.last().entry.segment_id) {
            lemma_stands_on(
                mid.0.writers,
                replayed(w, g, turns).0.writers,
                before.writers.len() - 1,
                before.active(),
                put_of(turns[i]),
            );
        }
    }
}

/// Every record that a rollover has rewritten is read under the handle
/// that was staged for it. Take the turns of a rollover, and a turn whose
/// record was live: the handle that was staged in the index writer is the
/// next handle of the writer before that turn. After the writer was
/// finished, the file of the segment of the handle holds at the offset of
/// the handle the record of that turn: the key of the entry and the bytes
/// that were stored for its value. So the new files hold the live
/// records, whatever the finishing of the index writer gives.
pub proof fn lemma_every_rewritten_value_is_read(
    w: MultiWriterView,
    g: SegmentId,
    turns: Seq<Turn>,
    i: int,
)
    requires
        w.writers.len() >= 1,
        0 <= i < turns.len(),
        is_live(turns[i].found, turns[i].entry.segment_id),
        write_fault(turns[i].entry.key.len(), turns[i].value.len(), turns[i].stored.len()) is None,
        slice_len_ok(turns[i].stored.len()),
        forall|j: int|
            0 <= j < replayed(w, g, turns).0.finished().len() ==> (#[trigger] replayed(
                w,
                g,
                turns,
            ).0.finished()[j]).wf(),
    ensures
        ({
            let before = replayed(w, g, turns.take(i)).0;
            let handle = next_handle(before);
            let place = before.writers.len() - 1;
            let files = replayed(w, g, turns).0.finished();
            &&& 0 <= place < files.len()
            &&& files[place].segment_id == handle.segment_id
            &&& record_at(files[place].bytes, handle.offset) == Scan::Record(
                RecordView {
                    key: turns[i].entry.key,
                    value: turns[i].stored,
                    checksum: checksum_of(turns[i].stored),
                },
                18 + turns[i].entry.key.len() + turns[i].stored.len(),
            )
        }),
{
    let before = replayed(w, g, turns.take(i)).0;
    let last = replayed(w, g, turns).0;
    let place = before.writers.len() - 1;
    lemma_turn_stands(w, g, turns, i);
    lemma_replayed_is_active(w, g, turns);
    lemma_finished_goes_on(last);
    lemma_stands_on(last.writers, last.finished(), place, before.active(), put_of(turns[i]));
    assert(last.finished()[place].wf());
    lemma_standing_record_is_read(last.finished(), place, before.active(), put_of(turns[i]));
}

/// Whether a writer compresses, or does not, in all its files: those so
/// far and the ones to come.
pub open spec fn alike(w: MultiWriterView, compressed: bool) -> bool {
    &&& w.compressed == compressed
    &&& all_alike(w.writers, compressed)
}

/// Whether all the writers compress, or none does.
pub open spec fn all_alike(writers: Seq<WriterView>, compressed: bool) -> bool {
    forall|i: int| 0 <= i < writers.len() ==> (#[trigger] writers[i]).compressed == compressed
}

/// A writer goes on after a write as it did before: compressing, or not.
pub proof fn lemma_put_alike(w: MultiWriterView, g: SegmentId, p: Put, compressed: bool)
    requires
        w.writers.len() >= 1,
        alike(w, compressed),
    ensures
        alike(put(w, g, p).0, compressed),
{
    let after = put(w, g, p).0;
    assert forall|i: int| 0 <= i < after.writers.len() implies (
    #[trigger] after.writers[i]).compressed == compressed by {
        if i < w.writers.len() - 1 {
            assert(after.writers[i] == w.writers[i]);
        } else {
            assert(w.writers[w.writers.len() - 1].compressed == compressed);
        }
    }
}

/// A writer goes on after every write as it did before.
pub proof fn lemma_put_all_alike(w: MultiWriterView, g: SegmentId, puts: Seq<Put>, compressed: bool)
    requires
        w.writers.len() >= 1,
        alike(w, compressed),
    ensures
        alike(put_all(w, g, puts).0, compressed),
    decreases puts.len(),
{
    if puts.len() > 0 {
        lemma_put_all_alike(w, g, puts.drop_last(), compressed);
        lemma_put_all_is_active(w, g, puts.drop_last());
        let before = put_all(w, g, puts.drop_last());
        lemma_put_alike(before.0, before.1, puts.last(), compressed);
    }
}

/// A writer goes on after every turn of a rollover as it did before.
pub proof fn lemma_replayed_alike(
    w: MultiWriterView,
    g: SegmentId,
    turns: Seq<Turn>,
    compressed: bool,
)
    requires
        w.writers.len() >= 1,
        alike(w, compressed),
    ensures
        alike(replayed(w, g, turns).0, compressed),
    decreases turns.len(),
{
    if turns.len() > 0 {
        lemma_replayed_alike(w, g, turns.drop_last(), compressed);
        lemma_replayed_is_active(w, g, turns.drop_last());
        let before = replayed(w, g, turns.drop_last());
        lemma_put_alike(before.0, before.1, put_of(turns.last()), compressed);
    }
}

/// The files of a writer are all compressed, or none is, as the writer
/// goes.
pub proof fn lemma_finished_alike(w: MultiWriterView, compressed: bool)
    requires
        w.writers.len() >= 1,
        alike(w, compressed),
    ensures
        all_alike(w.finished(), compressed),
{
    let after = w.finished();
    assert forall|i: int| 0 <= i < after.len() implies (#[trigger] after[i]).compressed
        == compressed by {
        if i < w.writers.len() - 1 {
            assert(after[i] == w.writers[i]);
        } else {
            assert(w.writers[w.writers.len() - 1].compressed == compressed);
        }
    }
}

/// A segment that was put among segments is the one that is found under
/// its ID.
pub proof fn lemma_put_is_found(segs: Seq<SegmentView>, seg: SegmentView)
    requires
        distinct_ids(segs),
    ensures
        lookup(put_segment(segs, seg), seg.id) == Some(seg),
{
    let after = put_segment(segs, seg);
    lemma_put_segment(segs, seg);
    let k = choose|k: int| 0 <= k < after.len() && (#[trigger] after[k]).id == seg.id;
    lemma_lookup(after, k);
    if has_id(segs, seg.id) {
        assert(segs[k].id == seg.id);
        assert(after[k] == seg);
    } else {
        if k < segs.len() {
            assert(segs[k].id == seg.id);
        }
        assert(after[k] == seg);
    }
}

/// The compression that the metadata of a file states.
pub open spec fn stated(compressed: bool) -> CompressionType {
    if compressed {
        CompressionType::Custom
    } else {
        CompressionType::Plain
    }
}

/// After the registration of writers that all compress, or of which none
/// does, the segment of each writer that holds an item is in the
/// manifest, and states so.
pub proof fn lemma_registered_alike(
    segs: Seq<SegmentView>,
    writers: Seq<WriterView>,
    place: int,
    compressed: bool,
)
    requires
        distinct_ids(segs),
        all_alike(writers, compressed),
        0 <= place < writers.len(),
        writers[place].item_count > 0,
    ensures
        lookup(registered(segs, writers), writers[place].segment_id) matches Some(seg)
            && seg.meta.compression == stated(compressed),
    decreases writers.len(),
{
    let head = writers.drop_last();
    let last = writers.last();
    let before = registered(segs, head);
    let after = registered(segs, writers);
    let id = writers[place].segment_id;
    lemma_registered_keeps(segs, head);
    if last.item_count > 0 && last.segment_id == id {
        lemma_put_is_found(before, segment_of(last));
        assert(writers[writers.len() - 1].compressed == compressed);
    } else {
        assert(place < head.len());
        assert(head[place] == writers[place]);
        assert forall|i: int| 0 <= i < head.len() implies (#[trigger] head[i]).compressed
            == compressed by {
            assert(head[i] == writers[i]);
        }
        lemma_registered_alike(segs, head, place, compressed);
        if last.item_count > 0 {
            lemma_put_segment(before, segment_of(last));
            let k = choose|k: int| 0 <= k < before.len() && (#[trigger] before[k]).id == id;
            lemma_lookup(before, k);
            assert(after[k] == before[k]);
            lemma_lookup(after, k);
        }
    }
}

/// Every value that was written is the value that its handle resolves
/// to. Take a writer that does not compress, any writes through it, and
/// for each of them the handle that the writer gave right before it.
/// After the writer was finished and registered, in one registration, a
/// read of the handle from the file of its segment gives the value of that
/// write: however many writes follow, however many files the writes have
/// gone through, and whatever the manifest held before.
pub proof fn lemma_every_written_value_is_got(
    segs: Seq<SegmentView>,
    w: MultiWriterView,
    g: SegmentId,
    puts: Seq<Put>,
    i: int,
    has_compressor: bool,
    r: Result<Option<UserValue>, Error>,
)
    requires
        distinct_ids(segs),
        w.writers.len() >= 1,
        alike(w, false),
        0 <= i < puts.len(),
        write_fault(puts[i].key.len(), puts[i].value.len(), puts[i].stored.len()) is None,
        slice_len_ok(puts[i].stored.len()),
        puts[i].stored == puts[i].value,
        forall|j: int|
            0 <= j < put_all(w, g, puts).0.finished().len() ==> (#[trigger] put_all(
                w,
                g,
                puts,
            ).0.finished()[j]).wf(),
        ({
            let before = put_all(w, g, puts.take(i)).0;
            let files = put_all(w, g, puts).0.finished();
            resolved(
                registered(segs, files),
                has_compressor,
                None,
                next_handle(before),
                0,
                files[before.writers.len() - 1].bytes,
                r,
            )
        }),
    ensures
        r matches Ok(Some(v)) && v@ == puts[i].value,
{
    let before = put_all(w, g, puts.take(i)).0;
    let last = put_all(w, g, puts).0;
    let place = before.writers.len() - 1;
    let files = last.finished();
    lemma_every_written_value_is_read(w, g, puts, i);
    lemma_put_stands(w, g, puts, i);
    lemma_put_all_is_active(w, g, puts);
    lemma_finished_goes_on(last);
    lemma_stands_on(last.writers, files, place, before.active(), puts[i]);
    lemma_put_all_alike(w, g, puts, false);
    lemma_finished_alike(last, false);
    assert(files[place].wf());
    lemma_registered_alike(segs, files, place, false);
}

/// Every record that a rollover has rewritten is the value that its
/// staged handle resolves to. Take a writer that does not compress, the
/// turns of a rollover, and a turn whose record was live. After the new
/// files were registered, a read of the handle that was staged for the
/// record, from the file of its segment, gives the value of the record,
/// whatever the finishing of the index writer gives afterwards.
pub proof fn lemma_every_rewritten_value_is_got(
    segs: Seq<SegmentView>,
    w: MultiWriterView,
    g: SegmentId,
    turns: Seq<Turn>,
    i: int,
    has_compressor: bool,
    r: Result<Option<UserValue>, Error>,
)
    requires
        distinct_ids(segs),
        w.writers.len() >= 1,
        alike(w, false),
        0 <= i < turns.len(),
        is_live(turns[i].found, turns[i].entry.segment_id),
        write_fault(turns[i].entry.key.len(), turns[i].value.len(), turns[i].stored.len()) is None,
        slice_len_ok(turns[i].stored.len()),
        turns[i].stored == turns[i].value,
        forall|j: int|
            0 <= j < replayed(w, g, turns).0.finished().len() ==> (#[trigger] replayed(
                w,
                g,
                turns,
            ).0.finished()[j]).wf(),
        ({
            let before = replayed(w, g, turns.take(i)).0;
            let files = replayed(w, g, turns).0.finished();
            resolved(
                registered(segs, files),
                has_compressor,
                None,
                next_handle(before),
                0,
                files[before.writers.len() - 1].bytes,
                r,
            )
        }),
    ensures
        r matches Ok(Some(v)) && v@ == turns[i].value,
{
    let before = replayed(w, g, turns.take(i)).0;
    let last = replayed(w, g, turns).0;
    let place = before.writers.len() - 1;
    let files = last.finished();
    lemma_every_rewritten_value_is_read(w, g, turns, i);
    lemma_turn_stands(w, g, turns, i);
    lemma_replayed_is_active(w, g, turns);
    lemma_finished_goes_on(last);
    lemma_stands_on(last.writers, files, place, before.active(), put_of(turns[i]));
    lemma_replayed_alike(w, g, turns, false);
    lemma_finished_alike(last, false);
    assert(files[place].wf());
    lemma_registered_alike(segs, files, place, false);
}

/// Every record that a rollover has rewritten was handed to the index
/// writer under the handle at which it is read. Take a rollover that got
/// as far as to rewrite records, and a turn of it whose record was live.
/// Then the index writer was handed the key of the record, its new handle
/// and the length of its value, and took them; and the new file of the
/// segment of that handle holds at the offset of the handle the record:
/// its key and the bytes that were stored for its value. These are the
/// value itself where the value log has no compressor, and else what a
/// compressor gave for the value; and the value is the one that the merge
/// handed out where its segment was not compressed.
pub proof fn lemma_rolled_record_is_staged_and_read<
    R: IndexReader,
    W: IndexWriter,
    C: Compressor,
>(
    before: Seq<SegmentView>,
    next_id: SegmentId,
    after: Seq<SegmentView>,
    next_id_after: SegmentId,
    target_size: u64,
    compressor: Option<C>,
    ids: Seq<SegmentId>,
    files: Seq<(SegmentId, Seq<u8>)>,
    reader: R,
    index: W,
    index_after: W,
    r: Rollover,
    i: int,
)
    requires
        rolled::<R, W, C>(
            before,
            next_id,
            after,
            next_id_after,
            target_size,
            compressor,
            ids,
            files,
            reader,
            index,
            index_after,
            r,
        ),
        r.changes is Some,
        0 <= i < r.turns@.len(),
        is_live(r.turns@[i].found, r.turns@[i].entry.segment_id),
        slice_len_ok(r.turns@[i].stored.len()),
    ensures
        ({
            let first = MultiWriterView {
                target_size,
                writers: seq![fresh_writer(next_id, compressor is Some)],
                compressed: compressor is Some,
            };
            let turn = r.turns@[i];
            let handle = turn_handle(first, (next_id + 1) as u64, r.turns@, i);
            let place = replayed(first, (next_id + 1) as u64, r.turns@.take(i)).0.writers.len() - 1;
            &&& index_was_told::<W>(turn.entry.key, handle, turn.value.len() as u32, Ok(()))
            &&& 0 <= place < r.writers@.len()
            &&& r.writers@[place].segment_id == handle.segment_id
            &&& record_at(r.writers@[place].bytes, handle.offset) == Scan::Record(
                RecordView {
                    key: turn.entry.key,
                    value: turn.stored,
                    checksum: checksum_of(turn.stored),
                },
                18 + turn.entry.key.len() + turn.stored.len(),
            )
            &&& compressor is None ==> turn.stored == turn.value
            &&& crate::value_log::turn_packed::<C>(compressor is Some, turn)
            &&& !is_compressed(before, turn.entry.segment_id) ==> turn.value == turn.entry.value
        }),
{
    let first = MultiWriterView {
        target_size,
        writers: seq![fresh_writer(next_id, compressor is Some)],
        compressed: compressor is Some,
    };
    let g = (next_id + 1) as u64;
    let states = choose|states: Seq<W>|
        #[trigger] crate::value_log::told_in_turn(first, g, r.turns@, index, states);
    assert(crate::value_log::turn_took(first, g, r.turns@, states, i));
    assert(crate::value_log::index_took(
        states[i],
        r.turns@[i].entry.key,
        turn_handle(first, g, r.turns@, i),
        r.turns@[i].value.len() as u32,
        Ok(()),
    ));
    assert(crate::value_log::turn_fits(before, compressor is Some, r.turns@[i]));
    lemma_every_rewritten_value_is_read(first, g, r.turns@, i);
}

/// Every value that was written is loaded under its handle, through the
/// compressor where the writer went through one. Take a writer, any
/// writes through it, and for each of them the handle that the writer
/// gave right before it. After the writer was finished and registered,
/// the loading of the handle from the file of its segment, without a
/// prefetch, finds the record of that write. Where the writer did not
/// compress, it gives the value that was written, and no error. Where it
/// did, it gives what the compressor of the value log makes of the bytes
/// that were stored for the value: the bytes that it gives for them, or
/// its error and no value.
pub proof fn lemma_every_written_value_is_loaded<C: Compressor>(
    segs: Seq<SegmentView>,
    w: MultiWriterView,
    g: SegmentId,
    puts: Seq<Put>,
    i: int,
    compressor: Option<C>,
    r: (Vec<(ValueHandle, UserValue)>, Option<Error>),
)
    requires
        distinct_ids(segs),
        w.writers.len() >= 1,
        alike(w, compressor is Some),
        0 <= i < puts.len(),
        write_fault(puts[i].key.len(), puts[i].value.len(), puts[i].stored.len()) is None,
        slice_len_ok(puts[i].stored.len()),
        compressor is None ==> puts[i].stored == puts[i].value,
        forall|j: int|
            0 <= j < put_all(w, g, puts).0.finished().len() ==> (#[trigger] put_all(
                w,
                g,
                puts,
            ).0.finished()[j]).wf(),
        ({
            let before = put_all(w, g, puts.take(i)).0;
            let files = put_all(w, g, puts).0.finished();
            loaded(
                registered(segs, files),
                compressor,
                next_handle(before),
                0,
                files[before.writers.len() - 1].bytes,
                r,
            )
        }),
    ensures
        ({
            let handle = next_handle(put_all(w, g, puts.take(i)).0);
            match compressor {
                None => r.1 is None && pair_views(r.0@) == seq![(handle, puts[i].value)],
                Some(c) => match r.1 {
                    None => {
                        &&& r.0@.len() == 1
                        &&& r.0@[0].0 == handle
                        &&& unpacks_to(c, puts[i].stored, Ok(r.0@[0].1@))
                    },
                    Some(e) => r.0@.len() == 0 && unpacks_to(c, puts[i].stored, Err(e)),
                },
            }
        }),
{
    let before = put_all(w, g, puts.take(i)).0;
    let last = put_all(w, g, puts).0;
    let place = before.writers.len() - 1;
    let files = last.finished();
    let handle = next_handle(before);
    lemma_every_written_value_is_read(w, g, puts, i);
    lemma_put_stands(w, g, puts, i);
    lemma_put_all_is_active(w, g, puts);
    lemma_finished_goes_on(last);
    lemma_stands_on(last.writers, files, place, before.active(), puts[i]);
    lemma_put_all_alike(w, g, puts, compressor is Some);
    lemma_finished_alike(last, compressor is Some);
    assert(files[place].wf());
    lemma_registered_alike(segs, files, place, compressor is Some);
    let stored = seq![(handle, puts[i].stored)];
    assert(crate::value_log::prefetched(
        files[place].bytes,
        handle.segment_id,
        crate::value_log::start_of(files[place].bytes, handle.offset) + (18 + puts[i].key.len()
            + puts[i].stored.len()) as nat,
        0,
    ) =~= Seq::empty());
    assert(stored + Seq::<(ValueHandle, Seq<u8>)>::empty() =~= stored);
    if compressor is Some && r.1 is None {
        assert(r.0@[0].0 == stored[0].0);
    }
}

/// A writer after some writes into its file, the first one first.
pub open spec fn written(w: WriterView, puts: Seq<Put>) -> WriterView
    decreases puts.len(),
{
    if puts.len() == 0 {
        w
    } else {
        written(w, puts.drop_last()).after_write(
            puts.last().key,
            puts.last().value.len(),
            puts.last().stored,
        )
    }
}

/// Whether each of the writes can be made, and read back.
pub open spec fn all_writable(puts: Seq<Put>) -> bool {
    forall|j: int|
        0 <= j < puts.len() ==> write_fault(
            (#[trigger] puts[j]).key.len(),
            puts[j].value.len(),
            puts[j].stored.len(),
        ) is None && slice_len_ok(puts[j].stored.len())
}

/// The handle of the write `i` into the file of the segment `id`: the
/// offset at which the file ended before it.
pub open spec fn handle_of(w: WriterView, puts: Seq<Put>, id: SegmentId, i: int) -> ValueHandle {
    ValueHandle { segment_id: id, offset: written(w, puts.take(i)).bytes.len() as u64 }
}

/// The stored values of up to `count` writes from the write `i` on, each
/// under its handle.
pub open spec fn following(
    w: WriterView,
    puts: Seq<Put>,
    id: SegmentId,
    i: int,
    count: nat,
) -> Seq<(ValueHandle, Seq<u8>)>
    decreases count,
{
    if count == 0 || i < 0 || i >= puts.len() {
        Seq::empty()
    } else {
        seq![(handle_of(w, puts, id, i), puts[i].stored)] + following(
            w,
            puts,
            id,
            i + 1,
            (count - 1) as nat,
        )
    }
}

/// What was written first stays first: the bytes of a file after the
/// first `i` writes are the first bytes of the file after all of them.
pub proof fn lemma_written_prefix(w: WriterView, puts: Seq<Put>, i: int)
    requires
        0 <= i <= puts.len(),
    ensures
        written(w, puts.take(i)).bytes.is_prefix_of(written(w, puts).bytes),
    decreases puts.len(),
{
    if i == puts.len() {
        assert(puts.take(i) =~= puts);
        assert(written(w, puts).bytes =~= written(w, puts).bytes.subrange(
            0,
            written(w, puts).bytes.len() as int,
        ));
    } else {
        let head = puts.drop_last();
        lemma_written_prefix(w, head, i);
        assert(head.take(i) =~= puts.take(i));
        let a = written(w, puts.take(i)).bytes;
        let b = written(w, head).bytes;
        let c = written(w, puts).bytes;
        assert(b =~= c.subrange(0, b.len() as int));
        assert(a =~= c.subrange(0, a.len() as int));
    }
}

/// A prefetch reads what was written behind a record: from the offset of
/// the write `i` on, up to `count` stored values, each under the handle
/// of its offset, and it ends without an error where the writes end.
pub proof fn lemma_prefetch_reads_what_follows(
    w: WriterView,
    puts: Seq<Put>,
    id: SegmentId,
    i: int,
    count: nat,
)
    requires
        all_writable(puts),
        0 <= i <= puts.len(),
        written(w, puts).after_flush().bytes.len() <= u64::MAX,
    ensures
        prefetched(
            written(w, puts).after_flush().bytes,
            id,
            written(w, puts.take(i)).bytes.len(),
            count,
        ) == following(w, puts, id, i, count),
        prefetch_fault(
            written(w, puts).after_flush().bytes,
            written(w, puts.take(i)).bytes.len(),
            count,
        ) is None,
    decreases count,
{
    let all = written(w, puts);
    let file = all.after_flush().bytes;
    let before = written(w, puts.take(i)).bytes;
    lemma_written_prefix(w, puts, i);
    if count > 0 {
        if i == puts.len() {
            assert(puts.take(i) =~= puts);
            let tail = file.skip(all.bytes.len() as int + 8);
            assert(file.skip(before.len() as int) =~= metadata_magic() + tail);
            lemma_metadata_ends_scan(tail);
        } else {
            let p = puts[i];
            let next = written(w, puts.take(i + 1)).bytes;
            lemma_written_prefix(w, puts, i + 1);
            assert(puts.take(i + 1).drop_last() =~= puts.take(i));
            assert(puts.take(i + 1).last() == p);
            let record = record_bytes(p.key, p.stored, checksum_of(p.stored));
            assert(next == before + record);
            let after = file.skip(next.len() as int);
            assert(next =~= all.bytes.subrange(0, next.len() as int));
            assert(file =~= before + record + after);
            lemma_read_at_write_offset(before, p.key, p.stored, checksum_of(p.stored), after);
            crate::segment::writer::lemma_record_len(p.key, p.stored, checksum_of(p.stored));
            lemma_prefetch_reads_what_follows(w, puts, id, i + 1, (count - 1) as nat);
        }
    }
}

/// A read with a prefetch loads the value of its handle and the values
/// that were written behind it. Take the file of a segment that is not
/// compressed, as a writer left it after some writes, and the handle of
/// one of them. Then the loading gives, without an error, the value of
/// that write first, and behind it the values of the `prefetch_size`
/// writes that follow, as far as there are any, each under the handle of
/// its offset: the values that the blob cache is handed.
pub proof fn lemma_prefetch_loads_what_follows<C: Compressor>(
    segs: Seq<SegmentView>,
    compressor: Option<C>,
    w: WriterView,
    puts: Seq<Put>,
    id: SegmentId,
    i: int,
    prefetch_size: usize,
    r: (Vec<(ValueHandle, UserValue)>, Option<Error>),
)
    requires
        all_writable(puts),
        0 <= i < puts.len(),
        written(w, puts).after_flush().bytes.len() <= u64::MAX,
        lookup(segs, id) matches Some(seg) && seg.meta.compression == CompressionType::Plain,
        loaded(
            segs,
            compressor,
            handle_of(w, puts, id, i),
            prefetch_size,
            written(w, puts).after_flush().bytes,
            r,
        ),
    ensures
        r.1 is None,
        pair_views(r.0@) == following(w, puts, id, i, (prefetch_size + 1) as nat),
{
    let file = written(w, puts).after_flush().bytes;
    let before = written(w, puts.take(i)).bytes;
    let p = puts[i];
    lemma_written_prefix(w, puts, i);
    lemma_written_prefix(w, puts, i + 1);
    assert(puts.take(i + 1).drop_last() =~= puts.take(i));
    assert(puts.take(i + 1).last() == p);
    let next = written(w, puts.take(i + 1)).bytes;
    let record = record_bytes(p.key, p.stored, checksum_of(p.stored));
    assert(next == before + record);
    let after = file.skip(next.len() as int);
    assert(next =~= written(w, puts).bytes.subrange(0, next.len() as int));
    assert(file =~= before + record + after);
    lemma_read_at_write_offset(before, p.key, p.stored, checksum_of(p.stored), after);
    crate::segment::writer::lemma_record_len(p.key, p.stored, checksum_of(p.stored));
    lemma_prefetch_reads_what_follows(w, puts, id, i + 1, prefetch_size as nat);
    assert(start_of(file, handle_of(w, puts, id, i).offset) == before.len());
}

} // verus!
