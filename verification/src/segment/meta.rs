//! The metadata block that ends the records of a blob file.

use crate::coding::be_bytes;
use crate::coding::be_value;
use crate::coding::lemma_be_bytes_len;
use crate::coding::lemma_be_round_trip;
use crate::coding::lemma_pow256_values;
use crate::coding::put_u64;
use crate::coding::ByteReader;
use crate::coding::Decode;
use crate::coding::DecodeError;
use crate::coding::Encode;
use crate::coding::EncodeError;
use crate::coding::Fault;
use crate::key_range::key_range_bytes;
use crate::key_range::lemma_key_range_round_trip;
use crate::key_range::parse_key_range;
use crate::key_range::KeyRange;
use vstd::prelude::*;

verus! {

/// The magic bytes before the metadata block: `VLOGSMD1`.
pub open spec fn metadata_magic() -> Seq<u8> {
    seq![0x56u8, 0x4cu8, 0x4fu8, 0x47u8, 0x53u8, 0x4du8, 0x44u8, 0x31u8]
}

/// Whether the values of a file went through the compressor.
#[derive(Clone, Copy, Debug, PartialEq, Eq, Structural)]
pub enum CompressionType {
    /// The values are stored as they were given
    Plain,
    /// The values are stored as the configured compressor returned them
    Custom,
}

impl CompressionType {
    /// The byte that stands for the variant.
    pub open spec fn tag(self) -> u8 {
        match self {
            CompressionType::Plain => 0,
            CompressionType::Custom => 1,
        }
    }
}

/// Statistics of a segment
#[derive(Debug)]
pub struct Metadata {
    /// Number of KV-pairs in the segment
    pub item_count: u64,
    /// compressed size in bytes (on disk) (without the fixed size trailer)
    pub compressed_bytes: u64,
    /// true size in bytes (if no compression were used)
    pub total_uncompressed_bytes: u64,
    /// What type of compression is used
    pub compression: CompressionType,
    /// Key range
    pub key_range: KeyRange,
}

/// What a `Metadata` holds, as plain values.
pub struct MetadataView {
    pub item_count: u64,
    pub compressed_bytes: u64,
    pub total_uncompressed_bytes: u64,
    pub compression: CompressionType,
    pub key_range: (Seq<u8>, Seq<u8>),
}

impl View for Metadata {
    type V = MetadataView;

    open spec fn view(&self) -> MetadataView {
        MetadataView {
            item_count: self.item_count,
            compressed_bytes: self.compressed_bytes,
            total_uncompressed_bytes: self.total_uncompressed_bytes,
            compression: self.compression,
            key_range: self.key_range@,
        }
    }
}

impl Clone for Metadata {
    fn clone(&self) -> (r: Self)
        ensures
            r@ == self@,
    {
        Metadata {
            item_count: self.item_count,
            compressed_bytes: self.compressed_bytes,
            total_uncompressed_bytes: self.total_uncompressed_bytes,
            compression: self.compression,
            key_range: self.key_range.clone(),
        }
    }
}

/// The metadata block: the magic, the three counts as big-endian `u64`,
/// the compression tag, the key range.
pub open spec fn metadata_bytes(m: MetadataView) -> Seq<u8> {
    metadata_magic() + be_bytes(m.item_count as nat, 8) + be_bytes(m.compressed_bytes as nat, 8)
        + be_bytes(m.total_uncompressed_bytes as nat, 8) + seq![m.compression.tag()]
        + key_range_bytes(m.key_range)
}

/// The metadata block that `bytes` starts with and its length, or why
/// there is none.
pub open spec fn parse_metadata(bytes: Seq<u8>) -> Result<(MetadataView, nat), Fault> {
    if bytes.len() < 8 {
        Err(Fault::Truncated)
    } else if bytes.take(8) != metadata_magic() {
        Err(Fault::Header("SegmentMetadata"@))
    } else if bytes.len() < 33 {
        Err(Fault::Truncated)
    } else if bytes[32] > 1 {
        Err(Fault::Tag("CompressionType"@, bytes[32]))
    } else {
        match parse_key_range(bytes.skip(33)) {
            Some((key_range, n)) => Ok(
                (
                    MetadataView {
                        item_count: be_value(bytes.subrange(8, 16)) as u64,
                        compressed_bytes: be_value(bytes.subrange(16, 24)) as u64,
                        total_uncompressed_bytes: be_value(bytes.subrange(24, 32)) as u64,
                        compression: if bytes[32] == 0 {
                            CompressionType::Plain
                        } else {
                            CompressionType::Custom
                        },
                        key_range,
                    },
                    33 + n,
                ),
            ),
            None => Err(Fault::Truncated),
        }
    }
}

/// A metadata block whose keys have at most 65535 bytes is read back as
/// it was written, whatever follows it.
#[verifier::rlimit(60)]
pub proof fn lemma_metadata_round_trip(m: MetadataView, tail: Seq<u8>)
    requires
        m.key_range.0.len() <= 0xffff,
        m.key_range.1.len() <= 0xffff,
    ensures
        metadata_bytes(m).len() == 37 + m.key_range.0.len() + m.key_range.1.len(),
        parse_metadata(metadata_bytes(m) + tail) == Ok::<(MetadataView, nat), Fault>(
            (m, metadata_bytes(m).len()),
        ),
{
    let all = metadata_bytes(m) + tail;
    let a = be_bytes(m.item_count as nat, 8);
    let b = be_bytes(m.compressed_bytes as nat, 8);
    let c = be_bytes(m.total_uncompressed_bytes as nat, 8);
    lemma_be_bytes_len(m.item_count as nat, 8);
    lemma_be_bytes_len(m.compressed_bytes as nat, 8);
    lemma_be_bytes_len(m.total_uncompressed_bytes as nat, 8);
    lemma_pow256_values();
    lemma_be_round_trip(m.item_count as nat, 8);
    lemma_be_round_trip(m.compressed_bytes as nat, 8);
    lemma_be_round_trip(m.total_uncompressed_bytes as nat, 8);
    lemma_key_range_round_trip(m.key_range, tail);
    assert(all.take(8) =~= metadata_magic());
    assert(all.subrange(8, 16) =~= a);
    assert(all.subrange(16, 24) =~= b);
    assert(all.subrange(24, 32) =~= c);
    assert(all[32] == m.compression.tag());
    assert(all.skip(33) =~= key_range_bytes(m.key_range) + tail);
    let parsed = parse_metadata(all)->Ok_0.0;
    assert(parsed.key_range == m.key_range);
    assert(parsed == m);
}

/// Whether `bytes` are the magic bytes of the metadata block.
pub fn is_metadata_magic(bytes: &[u8]) -> (r: bool)
    requires
        bytes@.len() == 8,
    ensures
        r == (bytes@ == metadata_magic()),
{
    let r = bytes[0] == 0x56 && bytes[1] == 0x4c && bytes[2] == 0x4f && bytes[3] == 0x47
        && bytes[4] == 0x53 && bytes[5] == 0x4d && bytes[6] == 0x44 && bytes[7] == 0x31;
    assert(r ==> bytes@ =~= metadata_magic());
    r
}

/// Appends the magic bytes of the metadata block.
pub fn put_metadata_magic(out: &mut Vec<u8>)
    ensures
        final(out)@ == old(out)@ + metadata_magic(),
{
    let ghost before = out@;
    out.push(0x56);
    out.push(0x4c);
    out.push(0x4f);
    out.push(0x47);
    out.push(0x53);
    out.push(0x4d);
    out.push(0x44);
    out.push(0x31);
    assert(out@ =~= before + metadata_magic());
}

impl Encode for Metadata {
    open spec fn encoding(&self) -> Seq<u8> {
        metadata_bytes(self@)
    }

    /// Both keys of the range have at most 65535 bytes.
    open spec fn encodable(&self) -> bool {
        self.key_range.encodable()
    }

    fn encode_into(&self, out: &mut Vec<u8>) -> (r: Result<(), EncodeError>)
        ensures
            r is Ok <==> self.encodable(),
            r matches Err(e) ==> e is KeyLength,
    {
        let mut block: Vec<u8> = Vec::new();
        put_metadata_magic(&mut block);
        put_u64(&mut block, self.item_count);
        put_u64(&mut block, self.compressed_bytes);
        put_u64(&mut block, self.total_uncompressed_bytes);
        block.push(
            match self.compression {
                CompressionType::Plain => 0,
                CompressionType::Custom => 1,
            },
        );
        self.key_range.encode_into(&mut block)?;
        assert(block@ =~= self.encoding());
        crate::coding::put_bytes(out, block.as_slice());
        Ok(())
    }
}

impl Decode for Metadata {
    open spec fn decoding(bytes: Seq<u8>) -> Option<(MetadataView, nat)> {
        match parse_metadata(bytes) {
            Ok(found) => Some(found),
            Err(_) => None,
        }
    }

    fn decode_from(reader: &mut ByteReader) -> (r: Result<Self, DecodeError>)
        ensures
            r matches Err(e) ==> parse_metadata(old(reader).rest()) == Err::<
                (MetadataView, nat),
                Fault,
            >(e.fault()),
    {
        let mut cursor = reader.fork();
        let start: usize = reader.position();
        let ghost bytes = reader.rest();
        let magic = cursor.take(8)?;
        if !is_metadata_magic(magic) {
            return Err(DecodeError::InvalidHeader("SegmentMetadata"));
        }
        assert(cursor.rest() =~= bytes.skip(8));
        let item_count: u64 = cursor.read_u64()?;
        assert(cursor.rest() =~= bytes.skip(16));
        let compressed_bytes: u64 = cursor.read_u64()?;
        assert(cursor.rest() =~= bytes.skip(24));
        let total_uncompressed_bytes: u64 = cursor.read_u64()?;
        assert(cursor.rest() =~= bytes.skip(32));
        let tag: u8 = cursor.read_u8()?;
        assert(cursor.rest() =~= bytes.skip(33));
        assert(bytes.skip(8).take(8) =~= bytes.subrange(8, 16));
        assert(bytes.skip(16).take(8) =~= bytes.subrange(16, 24));
        assert(bytes.skip(24).take(8) =~= bytes.subrange(24, 32));
        let compression = match tag {
            0 => CompressionType::Plain,
            1 => CompressionType::Custom,
            _ => { return Err(DecodeError::InvalidTag(("CompressionType", tag))); },
        };
        let key_range = KeyRange::decode_from(&mut cursor)?;
        *reader = cursor;
        Ok(Metadata { item_count, compressed_bytes, total_uncompressed_bytes, compression, key_range })
    }
}

} // verus!
