//! A writer that goes on to a new blob file when one is full.

use crate::compression::Compressor;
use crate::error::Error;
use crate::handle::ValueHandle;
use crate::id::succ_id;
use crate::id::IdGenerator;
use crate::id::SegmentId;
use crate::segment::writer::checksum_of;
use crate::segment::writer::compressed_to;
use crate::segment::writer::lemma_stored_part;
use crate::segment::writer::stored_at;
use crate::segment::writer::write_fault;
use crate::segment::writer::reports;
use crate::segment::writer::Writer;
use crate::segment::writer::WriterView;
use vstd::prelude::*;

verus! {

/// What a `MultiWriter` holds, as plain values.
pub struct MultiWriterView {
    /// The size at which a file is ended and the next one begun
    pub target_size: u64,
    /// The writers in the order in which they were begun; the last one is
    /// the active one
    pub writers: Seq<WriterView>,
    /// Whether values go through a compressor before they are stored
    pub compressed: bool,
}

/// A writer that has written nothing yet.
pub open spec fn fresh_writer(segment_id: SegmentId, compressed: bool) -> WriterView {
    WriterView {
        segment_id,
        bytes: Seq::empty(),
        item_count: 0,
        written_blob_bytes: 0,
        uncompressed_bytes: 0,
        first_key: None,
        last_key: None,
        compressed,
    }
}

impl MultiWriterView {
    /// The writer that the next record goes to.
    pub open spec fn active(self) -> WriterView {
        self.writers.last()
    }

    /// What holds of every multi-writer: it has an active writer, which
    /// compresses where the multi-writer does, and every writer is
    /// well-formed.
    pub open spec fn wf(self) -> bool {
        &&& self.writers.len() >= 1
        &&& self.active().compressed == self.compressed
        &&& forall|i: int| 0 <= i < self.writers.len() ==> (#[trigger] self.writers[i]).wf()
        &&& self.below(u64::MAX)
    }

    /// Whether the ID of every writer is below `id`.
    pub open spec fn below(self, id: SegmentId) -> bool {
        forall|i: int| 0 <= i < self.writers.len() ==> (#[trigger] self.writers[i]).segment_id < id
    }

    /// Whether the file is ended after `written` took the place of the
    /// active writer: it has reached the target size, and the generator
    /// has an ID left for the next file.
    pub open spec fn rotates(self, written: WriterView, next_id: SegmentId) -> bool {
        written.bytes.len() >= self.target_size && next_id != u64::MAX
    }

    /// The ID that the generator hands out next after a write.
    pub open spec fn next_id_after(self, written: WriterView, next_id: SegmentId) -> SegmentId {
        if self.rotates(written, next_id) {
            (next_id + 1) as u64
        } else {
            next_id
        }
    }

    /// The multi-writer after `written`, the active writer with one more
    /// record, took the place of the active writer. Where the file has
    /// reached the target size it is ended, and a new writer with the ID
    /// `next_id` becomes the active one; the greatest `u64` is no ID,
    /// and where it is all that the generator has left, the file goes on.
    pub open spec fn after_write(self, written: WriterView, next_id: SegmentId) -> MultiWriterView {
        if self.rotates(written, next_id) {
            MultiWriterView {
                writers: self.writers.drop_last().push(written.after_flush()).push(
                    fresh_writer(next_id, self.compressed),
                ),
                ..self
            }
        } else {
            MultiWriterView { writers: self.writers.drop_last().push(written), ..self }
        }
    }

    /// The writers after the multi-writer was finished: the active writer
    /// is ended if it holds an item.
    pub open spec fn finished(self) -> Seq<WriterView> {
        if self.active().item_count > 0 {
            self.writers.drop_last().push(self.active().after_flush())
        } else {
            self.writers
        }
    }
}

/// The greatest ID of some writers, or 0 where there is no writer.
pub open spec fn highest_writer_id(writers: Seq<WriterView>) -> SegmentId
    decreases writers.len(),
{
    if writers.len() == 0 {
        0
    } else if writers.last().segment_id > highest_writer_id(writers.drop_last()) {
        writers.last().segment_id
    } else {
        highest_writer_id(writers.drop_last())
    }
}

/// No writer has an ID above the greatest one.
pub proof fn lemma_highest_writer_id(writers: Seq<WriterView>, i: int)
    requires
        0 <= i < writers.len(),
    ensures
        writers[i].segment_id <= highest_writer_id(writers),
    decreases writers.len(),
{
    if i < writers.len() - 1 {
        lemma_highest_writer_id(writers.drop_last(), i);
    }
}

/// The views of some writers.
pub open spec fn writer_views<C: Compressor>(writers: Seq<Writer<C>>) -> Seq<WriterView> {
    writers.map_values(|w: Writer<C>| w@)
}

/// Whether `r` is what a write of a key gives, given what the compressor
/// gave for the value: its error is handed on; the bytes that it gave
/// are the bytes that are stored in the record, and the write fails
/// exactly where `write_fault` says so.
pub open spec fn stored_given(
    w0: MultiWriterView,
    w1: MultiWriterView,
    key: Seq<u8>,
    value_len: nat,
    given: Result<Vec<u8>, Error>,
    r: Result<u32, Error>,
) -> bool {
    match given {
        Ok(data) => match r {
            Ok(n) => {
                &&& n == data@.len()
                &&& stored_at(
                    w1.writers[w0.writers.len() - 1].bytes,
                    w0.active().bytes.len(),
                    key.len(),
                    n as nat,
                ) == data@
            },
            Err(e) => write_fault(key.len(), value_len, data@.len()) matches Some(f) && reports(
                e,
                f,
            ),
        },
        Err(e) => r matches Err(x) && x == e,
    }
}

/// Segment writer, may write multiple segments
pub struct MultiWriter<C: Compressor + Clone> {
    target_size: u64,
    writers: Vec<Writer<C>>,
    compression: Option<C>,
}

impl<C: Compressor + Clone> View for MultiWriter<C> {
    type V = MultiWriterView;

    closed spec fn view(&self) -> MultiWriterView {
        MultiWriterView {
            target_size: self.target_size,
            writers: writer_views(self.writers@),
            compressed: self.compression is Some,
        }
    }
}

impl<C: Compressor + Clone> MultiWriter<C> {
    /// What holds of every multi-writer that this module hands out.
    pub open spec fn wf(&self) -> bool {
        self@.wf()
    }

    /// The compressor that the values of the active file go through
    /// before they are stored, if there is one.
    pub closed spec fn compressor(&self) -> Option<C> {
        self.writers@.last().compressor()
    }

    /// The active file is compressed where it has a compressor.
    pub proof fn lemma_compressor(&self)
        requires
            self.wf(),
        ensures
            self@.active().compressed == (self.compressor() is Some),
    {
        self.writers@.last().lemma_compressor();
    }

    /// Initializes a new segment writer. Its first file gets the next ID
    /// of the generator. The greatest `u64` is no ID: where it is all
    /// that the generator has left, there is no writer, and the error is
    /// an I/O error.
    pub fn new(id_generator: &mut IdGenerator, target_size: u64) -> (r: Result<Self, Error>)
        ensures
            match r {
                Ok(writer) => {
                    &&& old(id_generator)@ != u64::MAX
                    &&& writer.wf()
                    &&& writer.compressor() is None
                    &&& writer@ == (MultiWriterView {
                        target_size,
                        writers: seq![fresh_writer(old(id_generator)@, false)],
                        compressed: false,
                    })
                    &&& final(id_generator)@ == old(id_generator)@ + 1
                    &&& writer@.below(final(id_generator)@)
                },
                Err(e) => {
                    &&& old(id_generator)@ == u64::MAX
                    &&& e is Io
                    &&& final(id_generator)@ == old(id_generator)@
                },
            },
    {
        if id_generator.peek() == u64::MAX {
            return Err(Error::Io(crate::coding::io_error("no segment ID is left")));
        }
        let segment_id = id_generator.next();
        let mut writers: Vec<Writer<C>> = Vec::new();
        writers.push(Writer::new(segment_id));
        let r = MultiWriter { target_size, writers, compression: None };
        assert(r@.writers =~= seq![fresh_writer(segment_id, false)]);
        Ok(r)
    }

    /// Sets the compression method, for the active writer and for those
    /// that follow it. Each of them gets a clone of the compressor.
    pub fn use_compression(self, compressor: Option<C>) -> (r: Self)
        requires
            self.wf(),
        ensures
            r.wf(),
            r@ == (MultiWriterView {
                writers: self@.writers.drop_last().push(
                    WriterView { compressed: compressor is Some, ..self@.active() },
                ),
                compressed: compressor is Some,
                ..self@
            }),
            match compressor {
                Some(c) => r.compressor() matches Some(copy) && call_ensures(
                    C::clone,
                    (&c,),
                    copy,
                ),
                None => r.compressor() is None,
            },
    {
        let mut this = self;
        let ghost before = this@;
        let active = this.writers.pop().unwrap();
        let active = active.use_compression(
            match &compressor {
                Some(c) => Some(c.clone()),
                None => None,
            },
        );
        this.writers.push(active);
        this.compression = compressor;
        assert(this@.writers =~= before.writers.drop_last().push(
            WriterView { compressed: this.compression is Some, ..before.active() },
        ));
        this
    }

    /// The greatest ID of a file of this writer.
    pub fn highest_id(&self) -> (r: SegmentId)
        requires
            self.wf(),
        ensures
            r == highest_writer_id(self@.writers),
            r < u64::MAX,
    {
        let mut highest: SegmentId = 0;
        let mut i: usize = 0;
        assert(self@.writers.take(0) =~= Seq::<WriterView>::empty());
        while i < self.writers.len()
            invariant
                i <= self.writers@.len(),
                self.wf(),
                highest == highest_writer_id(self@.writers.take(i as int)),
                highest < u64::MAX,
            decreases self.writers@.len() - i,
        {
            assert(self@.writers.take(i + 1).drop_last() =~= self@.writers.take(i as int));
            assert(self@.writers[i as int].segment_id < u64::MAX);
            if self.writers[i].segment_id() > highest {
                highest = self.writers[i].segment_id();
            }
            i = i + 1;
        }
        assert(self@.writers.take(i as int) =~= self@.writers);
        highest
    }

    /// The writer that the next record goes to.
    pub fn get_active_writer(&self) -> (r: &Writer<C>)
        requires
            self.wf(),
        ensures
            r@ == self@.active(),
    {
        &self.writers[self.writers.len() - 1]
    }

    /// Returns the [`ValueHandle`] for the next written blob.
    ///
    /// This can be used to index an item into an external `Index`.
    pub fn get_next_value_handle(&self) -> (r: ValueHandle)
        requires
            self.wf(),
        ensures
            r.segment_id == self@.active().segment_id,
            r.offset == self@.active().bytes.len(),
    {
        ValueHandle { offset: self.offset(), segment_id: self.segment_id() }
    }

    /// The offset at which the next record starts in the active file.
    pub fn offset(&self) -> (r: u64)
        requires
            self.wf(),
        ensures
            r == self@.active().bytes.len(),
    {
        self.get_active_writer().offset()
    }

    /// The ID of the active file.
    pub fn segment_id(&self) -> (r: SegmentId)
        requires
            self.wf(),
        ensures
            r == self@.active().segment_id,
    {
        self.get_active_writer().segment_id()
    }

    /// Writes an item into the active file. Where the file has then
    /// reached the target size, it is ended and a new one begun, whose ID
    /// is the next one of the generator, if the generator has one left.
    ///
    /// The write succeeds and fails as `Writer::write` does on the active
    /// writer. A failed write changes nothing.
    pub fn write(&mut self, id_generator: &mut IdGenerator, key: &[u8], value: &[u8]) -> (r:
        Result<u32, Error>)
        requires
            old(self).wf(),
        ensures
            final(self).wf(),
            match r {
                Ok(n) => {
                    let grown = final(self)@.writers[old(self)@.writers.len() - 1];
                    let stored = stored_at(
                        grown.bytes,
                        old(self)@.active().bytes.len(),
                        key@.len(),
                        n as nat,
                    );
                    let written = old(self)@.active().after_write(key@, value@.len(), stored);
                    &&& stored.len() == n
                    &&& write_fault(key@.len(), value@.len(), n as nat) is None
                    &&& !old(self)@.compressed ==> stored == value@
                    &&& final(self)@ == old(self)@.after_write(written, old(id_generator)@)
                    &&& final(id_generator)@ == old(self)@.next_id_after(
                        written,
                        old(id_generator)@,
                    )
                },
                Err(e) => final(self)@ == old(self)@ && final(id_generator)@ == old(
                    id_generator,
                )@,
            },
            write_fault(key@.len(), value@.len(), 0) matches Some(f) ==> (r matches Err(e)
                && reports(e, f)),
            !old(self)@.active().compressed ==> (r is Ok <==> write_fault(
                key@.len(),
                value@.len(),
                0,
            ) is None),
            old(self)@.below(old(id_generator)@) ==> final(self)@.below(final(id_generator)@),
            final(id_generator)@ >= old(id_generator)@,
            old(self).compressor() matches Some(c) ==> write_fault(key@.len(), value@.len(), 0)
                is None ==> exists|given: Result<Vec<u8>, Error>|
                {
                    &&& #[trigger] compressed_to(c, value@, given)
                    &&& stored_given(old(self)@, final(self)@, key@, value@.len(), given, r)
                },
    {
        let ghost before = self@;
        let mut writer = self.writers.pop().unwrap();
        let ghost active = writer;
        assert(writer@ == before.writers[before.writers.len() - 1]);
        assert(writer_views(self.writers@) =~= before.writers.drop_last());
        let r = writer.write(key, value);
        proof {
            if active.compressor() is Some && write_fault(key@.len(), value@.len(), 0) is None {
                let given = choose|given: Result<Vec<u8>, Error>|
                    #[trigger] compressed_to(active.compressor()->Some_0, value@, given)
                        && crate::segment::writer::wrote_given(
                        active@,
                        writer@,
                        key@,
                        value@.len(),
                        given,
                        r,
                    );
                if given is Ok && r is Ok {
                    let data = given->Ok_0@;
                    let written = writer@;
                    lemma_stored_part(
                        active@.bytes,
                        key@,
                        data,
                        checksum_of(data),
                        Seq::empty(),
                    );
                    lemma_stored_part(
                        active@.bytes,
                        key@,
                        data,
                        checksum_of(data),
                        written.after_flush().bytes.skip(written.bytes.len() as int),
                    );
                    assert(written.bytes =~= written.bytes + Seq::<u8>::empty());
                    assert(written.after_flush().bytes =~= written.bytes
                        + written.after_flush().bytes.skip(written.bytes.len() as int));
                }
            }
        }
        match r {
            Ok(n) => {
                let ghost written = writer@;
                let ghost stored = stored_at(
                    written.bytes,
                    before.active().bytes.len(),
                    key@.len(),
                    n as nat,
                );
                proof {
                    lemma_stored_part(
                        before.active().bytes,
                        key@,
                        stored,
                        checksum_of(stored),
                        Seq::empty(),
                    );
                    lemma_stored_part(
                        before.active().bytes,
                        key@,
                        stored,
                        checksum_of(stored),
                        written.after_flush().bytes.skip(written.bytes.len() as int),
                    );
                    assert(written.after_flush().bytes =~= written.bytes
                        + written.after_flush().bytes.skip(written.bytes.len() as int));
                }
                if writer.offset() >= self.target_size && id_generator.peek() != u64::MAX {
                    writer.flush()?;
                    self.writers.push(writer);
                    let new_segment_id = id_generator.next();
                    let new_writer = Writer::new(new_segment_id).use_compression(
                        match &self.compression {
                            Some(c) => Some(c.clone()),
                            None => None,
                        },
                    );
                    self.writers.push(new_writer);
                    assert(self@.writers =~= before.after_write(written, new_segment_id).writers);
                } else {
                    self.writers.push(writer);
                    assert(self@.writers =~= before.after_write(written, id_generator@).writers);
                }
                Ok(n)
            },
            Err(e) => {
                self.writers.push(writer);
                assert(self@.writers =~= before.writers);
                Err(e)
            },
        }
    }

    /// Ends the active file, if it holds an item, and hands out all the
    /// writers in the order in which they were begun.
    pub fn finish(self) -> (r: Result<Vec<Writer<C>>, Error>)
        requires
            self.wf(),
        ensures
            r matches Ok(writers) && writer_views(writers@) == self@.finished(),
            forall|i: int| 0 <= i < self@.finished().len() ==> (#[trigger] self@.finished()[i]).wf(),
    {
        let mut this = self;
        let ghost before = this@;
        let mut writer = this.writers.pop().unwrap();
        assert(writer@ == before.writers[before.writers.len() - 1]);
        assert(writer_views(this.writers@) =~= before.writers.drop_last());
        if writer.item_count() > 0 {
            writer.flush()?;
        }
        this.writers.push(writer);
        assert(writer_views(this.writers@) =~= before.finished());
        Ok(this.writers)
    }
}

} // verus!
