//! The writer of one blob file.
//!
//! A writer collects the bytes of its file in memory. They are handed out
//! when the writer is registered, and are then to be written to disk.

use crate::coding::be_bytes;
use crate::coding::put_bytes;
use crate::coding::put_u16;
use crate::coding::put_u32;
use crate::coding::put_u64;
use crate::coding::Encode;
use crate::coding::EncodeError;
use crate::compression::Compressor;
use crate::error::Error;
use crate::id::SegmentId;
use crate::key_range::KeyRange;
use crate::segment::meta::metadata_bytes;
use crate::segment::meta::CompressionType;
use crate::segment::meta::Metadata;
use crate::segment::meta::MetadataView;
use crate::segment::trailer::put_trailer;
use crate::segment::trailer::trailer_bytes;
use crate::slice::Slice;
use crate::value::UserKey;
use vstd::prelude::*;

verus! {

/// The magic bytes before every record: `VBLB`.
pub open spec fn blob_magic() -> Seq<u8> {
    seq![0x56u8, 0x42u8, 0x4cu8, 0x42u8]
}

/// The CRC-32 of a byte string, as the `crc32fast` crate computes it.
pub uninterp spec fn crc32(bytes: Seq<u8>) -> u32;

/// Calls `crc32fast::hash`: the CRC-32 of the bytes.
#[verifier::external_body]
fn crc32_of(bytes: &[u8]) -> (r: u32)
    ensures
        r == crc32(bytes@),
{
    crc32fast::hash(bytes)
}

/// The checksum of a record: the CRC-32 of the value as it is stored,
/// widened to 64 bits. The key is not covered.
pub open spec fn checksum_of(stored: Seq<u8>) -> u64 {
    crc32(stored) as u64
}

/// Computes the checksum that a record with this stored value carries.
pub fn checksum(stored: &[u8]) -> (r: u64)
    ensures
        r == checksum_of(stored@),
{
    crc32_of(stored) as u64
}

/// One record: the magic, the checksum as a big-endian `u64`, the key
/// behind its length as a `u16`, the stored value behind its length as a
/// `u32`.
pub open spec fn record_bytes(key: Seq<u8>, stored: Seq<u8>, checksum: u64) -> Seq<u8> {
    blob_magic() + be_bytes(checksum as nat, 8) + be_bytes(key.len(), 2) + key + be_bytes(
        stored.len(),
        4,
    ) + stored
}

/// The length of a record.
pub open spec fn record_len(key_len: nat, stored_len: nat) -> nat {
    18 + key_len + stored_len
}

/// `record_bytes` has the length that `record_len` states.
pub proof fn lemma_record_len(key: Seq<u8>, stored: Seq<u8>, checksum: u64)
    ensures
        record_bytes(key, stored, checksum).len() == record_len(key.len(), stored.len()),
{
    crate::coding::lemma_be_bytes_len(checksum as nat, 8);
    crate::coding::lemma_be_bytes_len(key.len(), 2);
    crate::coding::lemma_be_bytes_len(stored.len(), 4);
}

/// Why a key and a value cannot be written, if they cannot: the key is
/// empty or longer than 65535 bytes, or the value or what is stored for it
/// is longer than 2^32 - 1 bytes.
pub open spec fn write_fault(key_len: nat, value_len: nat, stored_len: nat) -> Option<
    EncodeFault,
> {
    if key_len == 0 || key_len > 0xffff {
        Some(EncodeFault::KeyLength(key_len))
    } else if value_len > 0xffff_ffff {
        Some(EncodeFault::ValueLength(value_len))
    } else if stored_len > 0xffff_ffff {
        Some(EncodeFault::ValueLength(stored_len))
    } else {
        None
    }
}

/// Why a pair cannot be written.
pub enum EncodeFault {
    /// The key has this length, which is 0 or beyond 65535
    KeyLength(nat),
    /// The value has this length, which is beyond 2^32 - 1
    ValueLength(nat),
}

/// Whether `e` reports `fault`.
pub open spec fn reports(e: Error, fault: EncodeFault) -> bool {
    match fault {
        EncodeFault::KeyLength(n) => e matches Error::Encode(EncodeError::KeyLength(m)) && m == n,
        EncodeFault::ValueLength(n) => e matches Error::Encode(EncodeError::ValueLength(m)) && m
            == n,
    }
}

/// Whether the compressor gave `given` for the bytes of a value.
pub open spec fn compressed_to<C: Compressor>(
    compressor: C,
    value: Seq<u8>,
    given: Result<Vec<u8>, Error>,
) -> bool {
    exists|bytes: &[u8]|
        bytes@ == value && #[trigger] call_ensures(C::compress, (&compressor, bytes), given)
}

/// Whether `r` is what the write of a key gives to a writer, given what
/// the compressor gave for the value: its error is handed on, and
/// nothing is written; the bytes that it gave are stored, and the write
/// fails, and changes nothing, exactly where `write_fault` says so.
pub open spec fn wrote_given(
    w0: WriterView,
    w1: WriterView,
    key: Seq<u8>,
    value_len: nat,
    given: Result<Vec<u8>, Error>,
    r: Result<u32, Error>,
) -> bool {
    match given {
        Ok(data) => match r {
            Ok(n) => {
                &&& write_fault(key.len(), value_len, data@.len()) is None
                &&& n == data@.len()
                &&& w1 == w0.after_write(key, value_len, data@)
            },
            Err(e) => {
                &&& write_fault(key.len(), value_len, data@.len()) matches Some(f)
                &&& reports(e, f)
                &&& w1 == w0
            },
        },
        Err(e) => r matches Err(x) && x == e && w1 == w0,
    }
}

/// What a `Writer` holds, as plain values.
pub struct WriterView {
    pub segment_id: SegmentId,
    /// The bytes of the file so far
    pub bytes: Seq<u8>,
    pub item_count: u64,
    pub written_blob_bytes: u64,
    pub uncompressed_bytes: u64,
    pub first_key: Option<Seq<u8>>,
    pub last_key: Option<Seq<u8>>,
    /// Whether values go through a compressor before they are stored
    pub compressed: bool,
}

impl WriterView {
    /// The writer after a record with `key` and `stored` was appended for a
    /// value of `value_len` bytes. The sum of the value lengths stops at the
    /// greatest `u64`.
    pub open spec fn after_write(self, key: Seq<u8>, value_len: nat, stored: Seq<u8>) -> WriterView {
        WriterView {
            bytes: self.bytes + record_bytes(key, stored, checksum_of(stored)),
            item_count: (self.item_count + 1) as u64,
            written_blob_bytes: (self.written_blob_bytes + stored.len()) as u64,
            uncompressed_bytes: if self.uncompressed_bytes + value_len > u64::MAX {
                u64::MAX
            } else {
                (self.uncompressed_bytes + value_len) as u64
            },
            first_key: if self.first_key is None {
                Some(key)
            } else {
                self.first_key
            },
            last_key: Some(key),
            ..self
        }
    }

    /// The metadata that a flush writes. A writer without items has no
    /// keys: its range is empty on both sides.
    pub open spec fn metadata(self) -> MetadataView {
        MetadataView {
            item_count: self.item_count,
            compressed_bytes: self.written_blob_bytes,
            total_uncompressed_bytes: self.uncompressed_bytes,
            compression: if self.compressed {
                CompressionType::Custom
            } else {
                CompressionType::Plain
            },
            key_range: (
                match self.first_key {
                    Some(k) => k,
                    None => Seq::empty(),
                },
                match self.last_key {
                    Some(k) => k,
                    None => Seq::empty(),
                },
            ),
        }
    }

    /// The writer after a flush: the metadata block and the trailer stand
    /// behind the records.
    pub open spec fn after_flush(self) -> WriterView {
        WriterView {
            bytes: self.bytes + metadata_bytes(self.metadata()) + trailer_bytes(
                self.bytes.len() as u64,
            ),
            ..self
        }
    }

    /// What holds of every writer: the counters are in step with the bytes
    /// and with the keys.
    pub open spec fn wf(self) -> bool {
        &&& self.bytes.len() <= u64::MAX
        &&& self.item_count <= self.bytes.len()
        &&& self.written_blob_bytes <= self.bytes.len()
        &&& (self.item_count > 0 <==> self.first_key is Some)
        &&& (self.item_count > 0 <==> self.last_key is Some)
        &&& (self.first_key matches Some(k) ==> 1 <= k.len() <= 0xffff)
        &&& (self.last_key matches Some(k) ==> 1 <= k.len() <= 0xffff)
    }
}

/// The bytes of a key that may be absent.
pub open spec fn key_view(key: Option<UserKey>) -> Option<Seq<u8>> {
    match key {
        Some(k) => Some(k@),
        None => None,
    }
}

/// Segment writer
pub struct Writer<C: Compressor> {
    segment_id: SegmentId,
    buffer: Vec<u8>,
    item_count: u64,
    written_blob_bytes: u64,
    uncompressed_bytes: u64,
    first_key: Option<UserKey>,
    last_key: Option<UserKey>,
    compression: Option<C>,
}

impl<C: Compressor> View for Writer<C> {
    type V = WriterView;

    closed spec fn view(&self) -> WriterView {
        WriterView {
            segment_id: self.segment_id,
            bytes: self.buffer@,
            item_count: self.item_count,
            written_blob_bytes: self.written_blob_bytes,
            uncompressed_bytes: self.uncompressed_bytes,
            first_key: key_view(self.first_key),
            last_key: key_view(self.last_key),
            compressed: self.compression is Some,
        }
    }
}

impl<C: Compressor> Writer<C> {
    /// What holds of every writer that this module hands out.
    pub open spec fn wf(&self) -> bool {
        self@.wf()
    }

    /// The compressor that values go through before they are stored, if
    /// there is one.
    pub closed spec fn compressor(&self) -> Option<C> {
        self.compression
    }

    /// A writer compresses where it has a compressor.
    pub proof fn lemma_compressor(&self)
        ensures
            self@.compressed == (self.compressor() is Some),
    {
    }

    /// Initializes a new segment writer: no bytes, no items, no compression.
    pub fn new(segment_id: SegmentId) -> (r: Self)
        ensures
            r.wf(),
            r.compressor() is None,
            r@ == (WriterView {
                segment_id,
                bytes: Seq::empty(),
                item_count: 0,
                written_blob_bytes: 0,
                uncompressed_bytes: 0,
                first_key: None,
                last_key: None,
                compressed: false,
            }),
    {
        Writer {
            segment_id,
            buffer: Vec::new(),
            item_count: 0,
            written_blob_bytes: 0,
            uncompressed_bytes: 0,
            first_key: None,
            last_key: None,
            compression: None,
        }
    }

    /// Sets the compressor that values go through, or none.
    pub fn use_compression(self, compressor: Option<C>) -> (r: Self)
        ensures
            r@ == (WriterView { compressed: compressor is Some, ..self@ }),
            r.compressor() == compressor,
    {
        let mut w = self;
        w.compression = compressor;
        w
    }

    /// Returns the current offset in the file: the length of what was
    /// written. The next record starts there.
    pub fn offset(&self) -> (r: u64)
        ensures
            r == self@.bytes.len(),
    {
        self.buffer.len() as u64
    }

    /// Returns the segment ID
    pub fn segment_id(&self) -> (r: SegmentId)
        ensures
            r == self@.segment_id,
    {
        self.segment_id
    }

    /// Returns the number of items written.
    pub fn item_count(&self) -> (r: u64)
        ensures
            r == self@.item_count,
    {
        self.item_count
    }

    /// Returns the number of value bytes in the file.
    pub fn written_blob_bytes(&self) -> (r: u64)
        ensures
            r == self@.written_blob_bytes,
    {
        self.written_blob_bytes
    }

    /// Returns the sum of the lengths of the values as they were given.
    pub fn uncompressed_bytes(&self) -> (r: u64)
        ensures
            r == self@.uncompressed_bytes,
    {
        self.uncompressed_bytes
    }

    /// The first key written, if any.
    pub fn first_key(&self) -> (r: Option<&UserKey>)
        ensures
            key_view_ref(r) == self@.first_key,
    {
        self.first_key.as_ref()
    }

    /// The last key written, if any.
    pub fn last_key(&self) -> (r: Option<&UserKey>)
        ensures
            key_view_ref(r) == self@.last_key,
    {
        self.last_key.as_ref()
    }

    /// Whether values go through a compressor before they are stored.
    pub fn is_compressed(&self) -> (r: bool)
        ensures
            r == self@.compressed,
    {
        self.compression.is_some()
    }

    /// The bytes of the file so far.
    pub fn bytes(&self) -> (r: &[u8])
        ensures
            r@ == self@.bytes,
    {
        self.buffer.as_slice()
    }

    /// The bytes of the file, taken out of the writer.
    pub fn into_bytes(self) -> (r: Vec<u8>)
        ensures
            r@ == self@.bytes,
    {
        self.buffer
    }

    /// Appends the record of `key` with the bytes `stored`, which stand for
    /// a value of `value_len` bytes. Returns the number of bytes stored.
    /// It fails, and changes nothing, exactly where `write_fault` says so.
    pub fn write_stored(&mut self, key: &[u8], value_len: usize, stored: &[u8]) -> (r: Result<
        u32,
        Error,
    >)
        requires
            old(self).wf(),
        ensures
            final(self).wf(),
            final(self).compressor() == old(self).compressor(),
            match r {
                Ok(n) => {
                    &&& write_fault(key@.len(), value_len as nat, stored@.len()) is None
                    &&& n == stored@.len()
                    &&& final(self)@ == old(self)@.after_write(key@, value_len as nat, stored@)
                },
                Err(e) => {
                    &&& write_fault(key@.len(), value_len as nat, stored@.len()) matches Some(f)
                    &&& reports(e, f)
                    &&& final(self)@ == old(self)@
                },
            },
    {
        if key.len() == 0 || key.len() > 0xffff {
            return Err(Error::Encode(EncodeError::KeyLength(key.len())));
        }
        if value_len > 0xffff_ffff {
            return Err(Error::Encode(EncodeError::ValueLength(value_len)));
        }
        if stored.len() > 0xffff_ffff {
            return Err(Error::Encode(EncodeError::ValueLength(stored.len())));
        }
        let ghost before = self@;
        let sum: u64 = checksum(stored);
        let mut record: Vec<u8> = Vec::new();
        record.push(0x56);
        record.push(0x42);
        record.push(0x4c);
        record.push(0x42);
        put_u64(&mut record, sum);
        put_u16(&mut record, key.len() as u16);
        put_bytes(&mut record, key);
        put_u32(&mut record, stored.len() as u32);
        put_bytes(&mut record, stored);
        proof {
            assert(record@ =~= record_bytes(key@, stored@, sum));
            lemma_record_len(key@, stored@, sum);
        }
        put_bytes(&mut self.buffer, record.as_slice());
        assert(self.buffer@.len() == self.buffer.len());
        if self.first_key.is_none() {
            self.first_key = Some(Slice::new(key));
        }
        self.last_key = Some(Slice::new(key));
        self.uncompressed_bytes = self.uncompressed_bytes.saturating_add(value_len as u64);
        self.written_blob_bytes = self.written_blob_bytes + stored.len() as u64;
        self.item_count = self.item_count + 1;
        Ok(stored.len() as u32)
    }

    /// Writes an item into the file: the value itself, or what the
    /// compressor makes of it. Returns the number of bytes stored.
    ///
    /// A key or a value of a length that `write_fault` refuses fails before
    /// the compressor is asked. Without a compressor the write succeeds on
    /// every other input; with one, what it returns is stored, and its
    /// error is handed on. A failed write changes nothing.
    pub fn write(&mut self, key: &[u8], value: &[u8]) -> (r: Result<u32, Error>)
        requires
            old(self).wf(),
        ensures
            final(self).wf(),
            match r {
                Ok(n) => {
                    let stored = stored_at(
                        final(self)@.bytes,
                        old(self)@.bytes.len(),
                        key@.len(),
                        n as nat,
                    );
                    &&& n == stored.len()
                    &&& write_fault(key@.len(), value@.len(), stored.len()) is None
                    &&& final(self)@ == old(self)@.after_write(key@, value@.len(), stored)
                    &&& !old(self)@.compressed ==> stored == value@
                },
                Err(e) => final(self)@ == old(self)@,
            },
            write_fault(key@.len(), value@.len(), 0) matches Some(f) ==> (r matches Err(e)
                && reports(e, f)),
            !old(self)@.compressed ==> (r is Ok <==> write_fault(key@.len(), value@.len(), 0)
                is None),
            final(self).compressor() == old(self).compressor(),
            old(self).compressor() matches Some(c) ==> write_fault(key@.len(), value@.len(), 0)
                is None ==> exists|given: Result<Vec<u8>, Error>|
                {
                    &&& #[trigger] compressed_to(c, value@, given)
                    &&& wrote_given(old(self)@, final(self)@, key@, value@.len(), given, r)
                },
    {
        if key.len() == 0 || key.len() > 0xffff {
            return Err(Error::Encode(EncodeError::KeyLength(key.len())));
        }
        if value.len() > 0xffff_ffff {
            return Err(Error::Encode(EncodeError::ValueLength(value.len())));
        }
        let ghost before = self@;
        let r = match &self.compression {
            Some(compressor) => {
                let given = compressor.compress(value);
                let ghost gave = given;
                assert(compressed_to(*compressor, value@, gave));
                let r = match given {
                    Ok(stored) => {
                        let r = self.write_stored(key, value.len(), stored.as_slice());
                        proof {
                            if r is Ok {
                                lemma_stored_part(
                                    before.bytes,
                                    key@,
                                    stored@,
                                    checksum_of(stored@),
                                    Seq::empty(),
                                );
                            }
                        }
                        r
                    },
                    Err(e) => Err(e),
                };
                assert(wrote_given(before, self@, key@, value@.len(), gave, r));
                r
            },
            None => {
                let r = self.write_stored(key, value.len(), value);
                proof {
                    lemma_stored_part(
                        before.bytes,
                        key@,
                        value@,
                        checksum_of(value@),
                        Seq::empty(),
                    );
                }
                r
            },
        };
        r
    }

    /// Ends the file: appends the metadata block, then the trailer that
    /// points at it.
    pub fn flush(&mut self) -> (r: Result<(), Error>)
        requires
            old(self).wf(),
        ensures
            final(self).wf(),
            final(self).compressor() == old(self).compressor(),
            r is Ok,
            final(self)@ == old(self)@.after_flush(),
    {
        let metadata_ptr: u64 = self.buffer.len() as u64;
        let metadata = self.metadata();
        let ghost before = self@;
        let mut block: Vec<u8> = Vec::new();
        match metadata.encode_into(&mut block) {
            Ok(_) => {},
            Err(e) => {
                assert(false);
                return Err(Error::Encode(e));
            },
        }
        put_trailer(&mut block, metadata_ptr);
        assert(block@ =~= metadata_bytes(before.metadata()) + trailer_bytes(metadata_ptr));
        put_bytes(&mut self.buffer, block.as_slice());
        assert(self.buffer@.len() == self.buffer.len());
        assert(self.buffer@ =~= before.after_flush().bytes);
        Ok(())
    }

    /// The metadata of what was written so far.
    pub fn metadata(&self) -> (r: Metadata)
        requires
            self.wf(),
        ensures
            r@ == self@.metadata(),
    {
        let min = match &self.first_key {
            Some(k) => k.clone(),
            None => Slice::empty(),
        };
        let max = match &self.last_key {
            Some(k) => k.clone(),
            None => Slice::empty(),
        };
        Metadata {
            item_count: self.item_count,
            compressed_bytes: self.written_blob_bytes,
            total_uncompressed_bytes: self.uncompressed_bytes,
            compression: if self.compression.is_some() {
                CompressionType::Custom
            } else {
                CompressionType::Plain
            },
            key_range: KeyRange::new((min, max)),
        }
    }
}

/// The bytes of a borrowed key that may be absent.
pub open spec fn key_view_ref(key: Option<&UserKey>) -> Option<Seq<u8>> {
    match key {
        Some(k) => Some(k@),
        None => None,
    }
}

/// The `stored_len` bytes of `bytes` that a record starting at
/// `record_start` with a key of `key_len` bytes holds as its value.
pub open spec fn stored_at(bytes: Seq<u8>, record_start: nat, key_len: nat, stored_len: nat) -> Seq<
    u8,
> {
    bytes.subrange(
        (record_start + 18 + key_len) as int,
        (record_start + 18 + key_len + stored_len) as int,
    )
}

/// The value part of a record that was written behind `before` is the
/// stored value, whatever follows the record.
pub proof fn lemma_stored_part(
    before: Seq<u8>,
    key: Seq<u8>,
    stored: Seq<u8>,
    checksum: u64,
    after: Seq<u8>,
)
    ensures
        stored_at(
            before + record_bytes(key, stored, checksum) + after,
            before.len(),
            key.len(),
            stored.len(),
        ) == stored,
{
    lemma_record_len(key, stored, checksum);
    crate::coding::lemma_be_bytes_len(checksum as nat, 8);
    crate::coding::lemma_be_bytes_len(key.len(), 2);
    crate::coding::lemma_be_bytes_len(stored.len(), 4);
    assert(stored_at(
        before + record_bytes(key, stored, checksum) + after,
        before.len(),
        key.len(),
        stored.len(),
    ) =~= stored);
}

} // verus!
