//! The sequential reader of one blob file.

use crate::coding::be_bytes;
use crate::coding::be_value;
use crate::coding::lemma_be_bytes_len;
use crate::coding::lemma_be_round_trip;
use crate::coding::lemma_pow256_values;
use crate::coding::ByteReader;
use crate::coding::DecodeError;
use crate::coding::Fault;
use crate::compression::Compressor;
use crate::error::Error;
use crate::id::SegmentId;
use crate::segment::meta::is_metadata_magic;
use crate::segment::meta::metadata_magic;
use crate::segment::writer::blob_magic;
use crate::segment::writer::lemma_record_len;
use crate::segment::writer::record_bytes;
use crate::slice::slice_len_ok;
use crate::slice::Slice;
use crate::value::UserKey;
use crate::value::UserValue;
use vstd::prelude::*;

verus! {

/// One record, as plain values: the key, the value as it is stored, and
/// the checksum that the file states.
pub struct RecordView {
    pub key: Seq<u8>,
    pub value: Seq<u8>,
    pub checksum: u64,
}

/// What stands at a place in a blob file.
pub enum Scan {
    /// A record, and its length in the file
    Record(RecordView, nat),
    /// The metadata block: the records have ended
    End,
    /// Nothing that can be read, and why
    Failed(Fault),
}

/// What `bytes` start with: a record behind the record magic, the end of
/// the records where the metadata magic stands, and a bad header where
/// neither does. A record that the bytes do not hold in full is cut off,
/// and so is one whose value is longer than a slice can be.
pub open spec fn parse_record(bytes: Seq<u8>) -> Scan {
    if bytes.len() < 4 {
        Scan::Failed(Fault::Truncated)
    } else if bytes.take(4) == blob_magic() {
        if bytes.len() < 14 {
            Scan::Failed(Fault::Truncated)
        } else {
            let key_len = be_value(bytes.subrange(12, 14)) as int;
            if bytes.len() < 18 + key_len {
                Scan::Failed(Fault::Truncated)
            } else {
                let value_len = be_value(bytes.subrange(14 + key_len, 18 + key_len)) as int;
                if bytes.len() < 18 + key_len + value_len || !slice_len_ok(value_len as nat) {
                    Scan::Failed(Fault::Truncated)
                } else {
                    Scan::Record(
                        RecordView {
                            key: bytes.subrange(14, 14 + key_len),
                            value: bytes.subrange(18 + key_len, 18 + key_len + value_len),
                            checksum: be_value(bytes.subrange(4, 12)) as u64,
                        },
                        (18 + key_len + value_len) as nat,
                    )
                }
            }
        }
    } else if bytes.len() >= 8 && bytes.take(8) == metadata_magic() {
        Scan::End
    } else {
        Scan::Failed(Fault::Header("Blob"@))
    }
}

/// A record that was written is read back as it was, whatever follows it:
/// the key, the stored value and the checksum.
pub proof fn lemma_record_round_trip(key: Seq<u8>, stored: Seq<u8>, checksum: u64, tail: Seq<u8>)
    requires
        key.len() <= 0xffff,
        stored.len() <= 0xffff_ffff,
        slice_len_ok(stored.len()),
    ensures
        parse_record(record_bytes(key, stored, checksum) + tail) == Scan::Record(
            RecordView { key, value: stored, checksum },
            18 + key.len() + stored.len(),
        ),
{
    let all = record_bytes(key, stored, checksum) + tail;
    let k = key.len() as int;
    let v = stored.len() as int;
    lemma_record_len(key, stored, checksum);
    lemma_be_bytes_len(checksum as nat, 8);
    lemma_be_bytes_len(key.len(), 2);
    lemma_be_bytes_len(stored.len(), 4);
    lemma_pow256_values();
    lemma_be_round_trip(checksum as nat, 8);
    lemma_be_round_trip(key.len(), 2);
    lemma_be_round_trip(stored.len(), 4);
    assert(all.take(4) =~= blob_magic());
    assert(all.subrange(4, 12) =~= be_bytes(checksum as nat, 8));
    assert(all.subrange(12, 14) =~= be_bytes(key.len(), 2));
    assert(all.subrange(14, 14 + k) =~= key);
    assert(all.subrange(14 + k, 18 + k) =~= be_bytes(stored.len(), 4));
    assert(all.subrange(18 + k, 18 + k + v) =~= stored);
}

/// A read at the offset where a record was written gives that record,
/// whatever was written before it and after it.
pub proof fn lemma_read_at_write_offset(
    before: Seq<u8>,
    key: Seq<u8>,
    stored: Seq<u8>,
    checksum: u64,
    after: Seq<u8>,
)
    requires
        key.len() <= 0xffff,
        stored.len() <= 0xffff_ffff,
        slice_len_ok(stored.len()),
    ensures
        parse_record(
            (before + record_bytes(key, stored, checksum) + after).skip(before.len() as int),
        ) == Scan::Record(
            RecordView { key, value: stored, checksum },
            18 + key.len() + stored.len(),
        ),
{
    let record = record_bytes(key, stored, checksum);
    assert((before + record + after).skip(before.len() as int) =~= record + after);
    lemma_record_round_trip(key, stored, checksum, after);
}

/// Where the metadata block follows the records, the reading ends there.
pub proof fn lemma_metadata_ends_scan(tail: Seq<u8>)
    ensures
        parse_record(metadata_magic() + tail) == Scan::End,
{
    let all = metadata_magic() + tail;
    assert(all.take(8) =~= metadata_magic());
    assert(all.take(4)[1] == 0x4c);
    assert(blob_magic()[1] == 0x42);
}

/// Whether `bytes` are the magic bytes of a record.
pub fn is_blob_magic(bytes: &[u8]) -> (r: bool)
    requires
        bytes@.len() == 4,
    ensures
        r == (bytes@ == blob_magic()),
{
    let r = bytes[0] == 0x56 && bytes[1] == 0x42 && bytes[2] == 0x4c && bytes[3] == 0x42;
    assert(r ==> bytes@ =~= blob_magic());
    r
}

/// What a `Reader` holds, as plain values.
pub struct ReaderView {
    pub segment_id: SegmentId,
    /// The bytes of the file
    pub source: Seq<u8>,
    /// The offset of the next record
    pub position: nat,
    /// Whether the metadata block was reached
    pub terminated: bool,
    /// Whether values go through a compressor after they are read
    pub compressed: bool,
}

impl ReaderView {
    /// The bytes that have not been read.
    pub open spec fn rest(self) -> Seq<u8> {
        self.source.skip(self.position as int)
    }

    /// What the next call of `next` finds.
    pub open spec fn step(self) -> Scan {
        parse_record(self.rest())
    }
}

/// Reads through a segment in order.
pub struct Reader<'a, C: Compressor> {
    segment_id: SegmentId,
    inner: ByteReader<'a>,
    is_terminated: bool,
    compression: Option<C>,
}

impl<'a, C: Compressor> View for Reader<'a, C> {
    type V = ReaderView;

    closed spec fn view(&self) -> ReaderView {
        ReaderView {
            segment_id: self.segment_id,
            source: self.inner.source(),
            position: self.inner.offset(),
            terminated: self.is_terminated,
            compressed: self.compression is Some,
        }
    }
}

/// A record as a reader hands it out: the key, the value, the checksum.
pub type Record = (UserKey, UserValue, u64);

/// Whether `item` is the record `record`, with the value as it is stored.
pub open spec fn is_record(item: Record, record: RecordView) -> bool {
    item.0@ == record.key && item.1@ == record.value && item.2 == record.checksum
}

impl<'a, C: Compressor> Reader<'a, C> {
    /// The compressor that values go through after they are read, if
    /// there is one.
    pub closed spec fn compressor(&self) -> Option<C> {
        self.compression
    }

    /// A reader hands its values through a compressor where it has one.
    pub proof fn lemma_compressor(&self)
        ensures
            self@.compressed == (self.compressor() is Some),
    {
    }

    /// Initializes a new segment reader at the start of a file's bytes.
    pub fn new(data: &'a [u8], segment_id: SegmentId) -> (r: Self)
        ensures
            r@ == (ReaderView {
                segment_id,
                source: data@,
                position: 0,
                terminated: false,
                compressed: false,
            }),
    {
        Self::with_reader(segment_id, ByteReader::new(data))
    }

    /// Initializes a new segment reader where `file_reader` stands.
    pub fn with_reader(segment_id: SegmentId, file_reader: ByteReader<'a>) -> (r: Self)
        ensures
            r@ == (ReaderView {
                segment_id,
                source: file_reader.source(),
                position: file_reader.offset(),
                terminated: false,
                compressed: false,
            }),
    {
        Reader { segment_id, inner: file_reader, is_terminated: false, compression: None }
    }

    /// Sets the compressor that values go through, or none.
    pub fn use_compression(self, compressor: Option<C>) -> (r: Self)
        ensures
            r@ == (ReaderView { compressed: compressor is Some, ..self@ }),
            r.compressor() == compressor,
    {
        let mut reader = self;
        reader.compression = compressor;
        reader
    }

    /// The offset of the next record.
    pub fn get_offset(&self) -> (r: u64)
        ensures
            r == self@.position,
            self@.position <= self@.source.len(),
    {
        self.inner.position() as u64
    }

    /// The ID of the segment that is read.
    pub fn segment_id(&self) -> (r: SegmentId)
        ensures
            r == self@.segment_id,
    {
        self.segment_id
    }

    /// Reads the next record as it is stored, without decompressing it.
    ///
    /// A reader that has reached the metadata block gives `None`, and so
    /// does one that reaches it now. A bad header gives `InvalidHeader`
    /// and a record that is cut off an I/O error; on both the reader stays
    /// where it is.
    pub fn next_stored(&mut self) -> (r: Option<Result<Record, Error>>)
        ensures
            final(self)@.segment_id == old(self)@.segment_id,
            final(self)@.source == old(self)@.source,
            final(self)@.compressed == old(self)@.compressed,
            final(self).compressor() == old(self).compressor(),
            old(self)@.terminated ==> r is None && final(self)@ == old(self)@,
            !old(self)@.terminated ==> match old(self)@.step() {
                Scan::Record(record, len) => {
                    &&& r matches Some(Ok(item))
                    &&& is_record(item, record)
                    &&& final(self)@.position == old(self)@.position + len
                    &&& !final(self)@.terminated
                },
                Scan::End => {
                    &&& r is None
                    &&& final(self)@.position == old(self)@.position
                    &&& final(self)@.terminated
                },
                Scan::Failed(fault) => {
                    &&& r matches Some(Err(e))
                    &&& match fault {
                        Fault::Truncated => e is Io,
                        _ => e matches Error::Decode(d) && d.fault() == fault,
                    }
                    &&& final(self)@ == old(self)@
                },
            },
    {
        if self.is_terminated {
            return None;
        }
        let ghost bytes = self@.rest();
        let start: usize = self.inner.position();
        let mut cursor = self.inner.fork();
        let magic = match cursor.take(4) {
            Ok(magic) => magic,
            Err(_) => { return Some(Err(Error::Io(crate::coding::unexpected_eof()))); },
        };
        if !is_blob_magic(magic) {
            match self.inner.peek(8) {
                Some(long) => {
                    if is_metadata_magic(long) {
                        self.is_terminated = true;
                        return None;
                    }
                },
                None => {},
            }
            return Some(Err(Error::Decode(DecodeError::InvalidHeader("Blob"))));
        }
        assert(cursor.rest() =~= bytes.skip(4));
        let checksum: u64 = match cursor.read_u64() {
            Ok(v) => v,
            Err(_) => { return Some(Err(Error::Io(crate::coding::unexpected_eof()))); },
        };
        assert(bytes.skip(4).take(8) =~= bytes.subrange(4, 12));
        assert(cursor.rest() =~= bytes.skip(12));
        let key_len: u16 = match cursor.read_u16() {
            Ok(v) => v,
            Err(_) => { return Some(Err(Error::Io(crate::coding::unexpected_eof()))); },
        };
        assert(bytes.skip(12).take(2) =~= bytes.subrange(12, 14));
        assert(cursor.rest() =~= bytes.skip(14));
        let key = match Slice::from_reader(&mut cursor, key_len as usize) {
            Ok(v) => v,
            Err(_) => { return Some(Err(Error::Io(crate::coding::unexpected_eof()))); },
        };
        assert(key@ =~= bytes.subrange(14, 14 + key_len));
        assert(cursor.rest() =~= bytes.skip(14 + key_len));
        let value_len: u32 = match cursor.read_u32() {
            Ok(v) => v,
            Err(_) => { return Some(Err(Error::Io(crate::coding::unexpected_eof()))); },
        };
        assert(bytes.skip(14 + key_len).take(4) =~= bytes.subrange(14 + key_len, 18 + key_len));
        assert(cursor.rest() =~= bytes.skip(18 + key_len));
        if !Slice::fits(value_len as usize) {
            return Some(Err(Error::Io(crate::coding::unexpected_eof())));
        }
        let value = match Slice::from_reader(&mut cursor, value_len as usize) {
            Ok(v) => v,
            Err(_) => { return Some(Err(Error::Io(crate::coding::unexpected_eof()))); },
        };
        assert(value@ =~= bytes.subrange(18 + key_len, 18 + key_len + value_len));
        self.inner = cursor;
        Some(Ok((key, value, checksum)))
    }

    /// Reads the next record and hands its value through the compressor,
    /// if there is one.
    ///
    /// Without a compressor this is `next_stored`. With one, the reader
    /// moves as `next_stored` moves it, the key and the checksum are those
    /// of the record, and the value is what the compressor made of the
    /// stored bytes; its error is handed on.
    pub fn next(&mut self) -> (r: Option<Result<Record, Error>>)
        ensures
            final(self)@.segment_id == old(self)@.segment_id,
            final(self)@.source == old(self)@.source,
            final(self)@.compressed == old(self)@.compressed,
            final(self).compressor() == old(self).compressor(),
            old(self)@.terminated ==> r is None && final(self)@ == old(self)@,
            !old(self)@.terminated ==> match old(self)@.step() {
                Scan::Record(record, len) => {
                    &&& final(self)@.position == old(self)@.position + len
                    &&& !final(self)@.terminated
                    &&& r is Some
                    &&& r matches Some(Ok(item)) ==> item.0@ == record.key && item.2
                        == record.checksum
                    &&& !old(self)@.compressed ==> (r matches Some(Ok(item)) && is_record(
                        item,
                        record,
                    ))
                    &&& old(self).compressor() matches Some(c) ==> r matches Some(out)
                        && unpacks_to(
                        c,
                        record.value,
                        match out {
                            Ok(item) => Ok(item.1@),
                            Err(e) => Err(e),
                        },
                    )
                },
                Scan::End => {
                    &&& r is None
                    &&& final(self)@.position == old(self)@.position
                    &&& final(self)@.terminated
                },
                Scan::Failed(fault) => {
                    &&& r matches Some(Err(e))
                    &&& match fault {
                        Fault::Truncated => e is Io,
                        _ => e matches Error::Decode(d) && d.fault() == fault,
                    }
                    &&& final(self)@ == old(self)@
                },
            },
    {
        let stored = self.next_stored();
        match stored {
            Some(Ok((key, value, checksum))) => match &self.compression {
                Some(compressor) => Some(unpack(compressor, key, value, checksum)),
                None => Some(Ok((key, value, checksum))),
            },
            other => other,
        }
    }
}

/// Whether `out` is what the compressor makes of the stored bytes
/// `stored`: the bytes that it gave for them, where a slice can hold
/// them; `Decompress` where none can; and else its own error.
pub open spec fn unpacks_to<C: Compressor>(
    compressor: C,
    stored: Seq<u8>,
    out: Result<Seq<u8>, Error>,
) -> bool {
    exists|bytes: &[u8], given: Result<Vec<u8>, Error>|
        {
            &&& bytes@ == stored
            &&& #[trigger] call_ensures(C::decompress, (&compressor, bytes), given)
            &&& match given {
                Ok(data) => if slice_len_ok(data@.len()) {
                    out matches Ok(value) && value == data@
                } else {
                    out matches Err(Error::Decompress)
                },
                Err(e) => out matches Err(handed) && handed == e,
            }
        }
}

/// Hands the stored bytes of a record through the compressor. What comes
/// back is the value, if a slice can hold it; the key and the checksum
/// stay. The compressor's error is handed on, and a value that no slice
/// can hold gives `Decompress`.
pub fn unpack<C: Compressor>(compressor: &C, key: UserKey, stored: UserValue, checksum: u64) -> (r:
    Result<Record, Error>)
    ensures
        r matches Ok(item) ==> item.0@ == key@ && item.2 == checksum,
        exists|bytes: &[u8], given: Result<Vec<u8>, Error>|
            {
                &&& bytes@ == stored@
                &&& #[trigger] call_ensures(C::decompress, (compressor, bytes), given)
                &&& unpacked(given, key, checksum, r)
            },
{
    let bytes = stored.as_bytes();
    let given = compressor.decompress(bytes);
    let ghost handed = given;
    let r = pack(given, key, checksum);
    assert(call_ensures(C::decompress, (compressor, bytes), handed) && unpacked(
        handed,
        key,
        checksum,
        r,
    ));
    r
}

/// Whether `r` is the record that is made of what the compressor gave for
/// the stored bytes: the bytes that it gave are the value, behind the key
/// and before the checksum as they were; bytes that no slice can hold give
/// `Decompress`; and the error of the compressor is handed on as it is.
pub open spec fn unpacked(
    given: Result<Vec<u8>, Error>,
    key: UserKey,
    checksum: u64,
    r: Result<Record, Error>,
) -> bool {
    match given {
        Ok(bytes) => if slice_len_ok(bytes@.len()) {
            r matches Ok(item) && item.0 == key && item.1@ == bytes@ && item.2 == checksum
        } else {
            r matches Err(Error::Decompress)
        },
        Err(e) => r matches Err(handed) && handed == e,
    }
}

/// Makes the record of a key, of what the compressor gave for the stored
/// bytes, and of a checksum.
pub fn pack(given: Result<Vec<u8>, Error>, key: UserKey, checksum: u64) -> (r: Result<Record, Error>)
    ensures
        unpacked(given, key, checksum, r),
{
    match given {
        Ok(bytes) => match Slice::try_new(bytes.as_slice()) {
            Some(value) => Ok((key, value, checksum)),
            None => Err(Error::Decompress),
        },
        Err(e) => Err(e),
    }
}

} // verus!
