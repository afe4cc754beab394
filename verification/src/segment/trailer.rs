//! The fixed-size trailer that ends a blob file.

use crate::coding::be_bytes;
use crate::coding::be_value;
use crate::coding::lemma_be_bytes_len;
use crate::coding::lemma_be_round_trip;
use crate::coding::lemma_pow256_values;
use crate::coding::put_bytes;
use crate::coding::put_u64;
use crate::coding::ByteReader;
use crate::coding::Decode;
use crate::coding::DecodeError;
use crate::coding::Encode;
use crate::coding::EncodeError;
use crate::coding::Fault;
use crate::segment::meta::lemma_metadata_round_trip;
use crate::segment::meta::metadata_bytes;
use crate::segment::meta::parse_metadata;
use crate::segment::meta::Metadata;
use crate::segment::meta::MetadataView;
use vstd::prelude::*;

verus! {

/// The size of the trailer in bytes.
pub const TRAILER_SIZE: usize = 256;

/// The magic bytes that end the trailer: `VLOGTRL1`.
pub open spec fn trailer_magic() -> Seq<u8> {
    seq![0x56u8, 0x4cu8, 0x4fu8, 0x47u8, 0x54u8, 0x52u8, 0x4cu8, 0x31u8]
}

/// The trailer of a file whose metadata block starts at `metadata_ptr`:
/// that offset as a big-endian `u64`, 240 zero bytes, the magic.
pub open spec fn trailer_bytes(metadata_ptr: u64) -> Seq<u8> {
    be_bytes(metadata_ptr as nat, 8) + Seq::new(240, |i: int| 0u8) + trailer_magic()
}

/// Whether `file` ends in a trailer: it has at least 256 bytes, and its
/// last eight are the magic.
pub open spec fn has_trailer(file: Seq<u8>) -> bool {
    file.len() >= 256 && file.skip(file.len() - 8) == trailer_magic()
}

/// The metadata of a blob file and where its block starts, as the trailer
/// says, or why the file has none.
pub open spec fn parse_trailer(file: Seq<u8>) -> Result<(MetadataView, u64), Fault> {
    if file.len() < 256 {
        Err(Fault::Truncated)
    } else if !has_trailer(file) {
        Err(Fault::Trailer)
    } else {
        let ptr = be_value(file.subrange(file.len() - 256, file.len() - 248));
        if ptr > file.len() {
            Err(Fault::Truncated)
        } else {
            match parse_metadata(file.skip(ptr as int)) {
                Ok((metadata, _)) => Ok((metadata, ptr as u64)),
                Err(fault) => Err(fault),
            }
        }
    }
}

/// The trailer has 256 bytes.
pub proof fn lemma_trailer_len(metadata_ptr: u64)
    ensures
        trailer_bytes(metadata_ptr).len() == 256,
{
    lemma_be_bytes_len(metadata_ptr as nat, 8);
}

/// A file made of records, a metadata block and the trailer that points at
/// the block gives back that metadata and that offset.
pub proof fn lemma_trailer_round_trip(records: Seq<u8>, m: MetadataView)
    requires
        records.len() <= u64::MAX,
        m.key_range.0.len() <= 0xffff,
        m.key_range.1.len() <= 0xffff,
    ensures
        parse_trailer(records + metadata_bytes(m) + trailer_bytes(records.len() as u64)) == Ok::<
            (MetadataView, u64),
            Fault,
        >((m, records.len() as u64)),
{
    let ptr = records.len() as u64;
    let trailer = trailer_bytes(ptr);
    let file = records + metadata_bytes(m) + trailer;
    lemma_trailer_len(ptr);
    lemma_be_bytes_len(ptr as nat, 8);
    lemma_pow256_values();
    lemma_be_round_trip(ptr as nat, 8);
    lemma_metadata_round_trip(m, trailer);
    assert(file.skip(file.len() - 8) =~= trailer_magic());
    assert(file.subrange(file.len() - 256, file.len() - 248) =~= be_bytes(ptr as nat, 8));
    assert(file.skip(ptr as int) =~= metadata_bytes(m) + trailer);
}

/// Whether `bytes` are the magic bytes of the trailer.
pub fn is_trailer_magic(bytes: &[u8]) -> (r: bool)
    requires
        bytes@.len() == 8,
    ensures
        r == (bytes@ == trailer_magic()),
{
    let r = bytes[0] == 0x56 && bytes[1] == 0x4c && bytes[2] == 0x4f && bytes[3] == 0x47
        && bytes[4] == 0x54 && bytes[5] == 0x52 && bytes[6] == 0x4c && bytes[7] == 0x31;
    assert(r ==> bytes@ =~= trailer_magic());
    r
}

/// Appends the trailer of a file whose metadata block starts at
/// `metadata_ptr`.
pub fn put_trailer(out: &mut Vec<u8>, metadata_ptr: u64)
    ensures
        final(out)@ == old(out)@ + trailer_bytes(metadata_ptr),
{
    let ghost before = out@;
    let mut v: Vec<u8> = Vec::new();
    put_u64(&mut v, metadata_ptr);
    proof {
        lemma_be_bytes_len(metadata_ptr as nat, 8);
    }
    let mut i: usize = 0;
    while i < 240
        invariant
            i <= 240,
            v@ == be_bytes(metadata_ptr as nat, 8) + Seq::new(i as nat, |j: int| 0u8),
        decreases 240 - i,
    {
        v.push(0);
        i = i + 1;
        assert(v@ =~= be_bytes(metadata_ptr as nat, 8) + Seq::new(i as nat, |j: int| 0u8));
    }
    v.push(0x56);
    v.push(0x4c);
    v.push(0x4f);
    v.push(0x47);
    v.push(0x54);
    v.push(0x52);
    v.push(0x4c);
    v.push(0x31);
    assert(v@ =~= trailer_bytes(metadata_ptr));
    put_bytes(out, v.as_slice());
}

/// The trailer of a blob file, with the metadata that it points at.
#[derive(Debug)]
pub struct SegmentFileTrailer {
    /// The metadata of the file
    pub metadata: Metadata,
    /// The offset of the metadata block in the file
    pub metadata_ptr: u64,
}

impl SegmentFileTrailer {
    /// Whether `file` is fully written: its trailer magic is in place.
    pub fn is_complete(file: &[u8]) -> (r: bool)
        ensures
            r == has_trailer(file@),
    {
        let len: usize = file.len();
        if len < TRAILER_SIZE {
            return false;
        }
        let tail = vstd::slice::slice_subrange(file, len - 8, len);
        assert(tail@ =~= file@.skip(len - 8));
        is_trailer_magic(tail)
    }

    /// Reads the trailer off the end of a blob file, and the metadata block
    /// that it points at.
    pub fn from_file(file: &[u8]) -> (r: Result<Self, DecodeError>)
        ensures
            match r {
                Ok(t) => parse_trailer(file@) == Ok::<(MetadataView, u64), Fault>(
                    (t.metadata@, t.metadata_ptr),
                ),
                Err(e) => parse_trailer(file@) == Err::<(MetadataView, u64), Fault>(e.fault()),
            },
    {
        let len: usize = file.len();
        if len < TRAILER_SIZE {
            return Err(DecodeError::Io(crate::coding::unexpected_eof()));
        }
        if !Self::is_complete(file) {
            return Err(DecodeError::InvalidTrailer);
        }
        let field = vstd::slice::slice_subrange(file, len - 256, len - 248);
        let mut cursor = ByteReader::new(field);
        assert(cursor.rest() =~= field@);
        assert(field@.take(8) =~= field@);
        let metadata_ptr: u64 = cursor.read_u64()?;
        if metadata_ptr > len as u64 {
            return Err(DecodeError::Io(crate::coding::unexpected_eof()));
        }
        let mut block = ByteReader::starting_at(file, metadata_ptr as usize);
        let metadata = Metadata::decode_from(&mut block)?;
        Ok(SegmentFileTrailer { metadata, metadata_ptr })
    }
}

impl Encode for SegmentFileTrailer {
    /// The trailer alone: the metadata block is written before it.
    open spec fn encoding(&self) -> Seq<u8> {
        trailer_bytes(self.metadata_ptr)
    }

    open spec fn encodable(&self) -> bool {
        true
    }

    fn encode_into(&self, out: &mut Vec<u8>) -> (r: Result<(), EncodeError>)
        ensures
            r is Ok,
    {
        put_trailer(out, self.metadata_ptr);
        Ok(())
    }
}

} // verus!
