//! The range of keys that a segment holds.

use crate::coding::be_bytes;
use crate::coding::be_value;
use crate::coding::lemma_be_bytes_len;
use crate::coding::lemma_be_round_trip;
use crate::coding::lemma_pow256_values;
use crate::coding::put_bytes;
use crate::coding::put_u16;
use crate::coding::ByteReader;
use crate::coding::Decode;
use crate::coding::DecodeError;
use crate::coding::Encode;
use crate::coding::EncodeError;
use crate::slice::Slice;
use crate::value::UserKey;
use vstd::prelude::*;

verus! {

/// A key range in the format of [min, max] (inclusive on both sides)
#[derive(Debug)]
pub struct KeyRange((UserKey, UserKey));

impl View for KeyRange {
    type V = (Seq<u8>, Seq<u8>);

    closed spec fn view(&self) -> (Seq<u8>, Seq<u8>) {
        (self.0.0@, self.0.1@)
    }
}

/// A byte string behind its length as a big-endian `u16`.
pub open spec fn short_string(s: Seq<u8>) -> Seq<u8> {
    be_bytes(s.len(), 2) + s
}

/// The byte string that `bytes` starts with behind its 16-bit length, and
/// the length of both together.
pub open spec fn parse_short_string(bytes: Seq<u8>) -> Option<(Seq<u8>, nat)> {
    if bytes.len() < 2 {
        None
    } else {
        let len = be_value(bytes.take(2));
        if bytes.len() < 2 + len {
            None
        } else {
            Some((bytes.subrange(2, 2 + len as int), 2 + len))
        }
    }
}

/// A string of at most 65535 bytes that was written behind its length is
/// read back as it was, whatever follows it.
pub proof fn lemma_short_string_round_trip(s: Seq<u8>, tail: Seq<u8>)
    requires
        s.len() <= 0xffff,
    ensures
        short_string(s).len() == 2 + s.len(),
        parse_short_string(short_string(s) + tail) == Some((s, 2 + s.len())),
{
    let all = short_string(s) + tail;
    lemma_be_bytes_len(s.len(), 2);
    lemma_pow256_values();
    lemma_be_round_trip(s.len(), 2);
    assert(all.take(2) =~= be_bytes(s.len(), 2));
    assert(all.subrange(2, 2 + s.len() as int) =~= s);
}

/// Appends `s` behind its 16-bit length.
pub fn put_short_string(out: &mut Vec<u8>, s: &[u8])
    requires
        s@.len() <= 0xffff,
    ensures
        final(out)@ == old(out)@ + short_string(s@),
{
    let ghost before = out@;
    put_u16(out, s.len() as u16);
    put_bytes(out, s);
    assert(out@ =~= before + short_string(s@));
}

/// Reads a byte string behind its 16-bit length. Where the input ends too
/// early the reader stays and the error is an I/O error.
pub fn read_short_string(reader: &mut ByteReader) -> (r: Result<Slice, DecodeError>)
    ensures
        final(reader).source() == old(reader).source(),
        final(reader).offset() <= final(reader).source().len(),
        match r {
            Ok(s) => parse_short_string(old(reader).rest()) == Some(
                (s@, (final(reader).offset() - old(reader).offset()) as nat),
            ) && final(reader).offset() >= old(reader).offset(),
            Err(e) => {
                &&& e is Io
                &&& parse_short_string(old(reader).rest()) is None
                &&& final(reader).offset() == old(reader).offset()
            },
        },
{
    let mut cursor = reader.fork();
    let len: u16 = cursor.read_u16()?;
    assert(cursor.rest() =~= reader.rest().skip(2));
    let s = Slice::from_reader(&mut cursor, len as usize)?;
    assert(s@ =~= reader.rest().subrange(2, 2 + len));
    *reader = cursor;
    Ok(s)
}

impl KeyRange {
    /// Creates a new key range
    pub fn new(range: (UserKey, UserKey)) -> (r: Self)
        ensures
            r@ == (range.0@, range.1@),
    {
        KeyRange(range)
    }

    /// The smallest key.
    pub fn min(&self) -> (r: &UserKey)
        ensures
            r@ == self@.0,
    {
        &self.0.0
    }

    /// The greatest key.
    pub fn max(&self) -> (r: &UserKey)
        ensures
            r@ == self@.1,
    {
        &self.0.1
    }
}

impl Clone for KeyRange {
    fn clone(&self) -> (r: Self)
        ensures
            r@ == self@,
    {
        KeyRange((self.0.0.clone(), self.0.1.clone()))
    }
}

/// The coding of a key range: each key behind its 16-bit length.
pub open spec fn key_range_bytes(range: (Seq<u8>, Seq<u8>)) -> Seq<u8> {
    short_string(range.0) + short_string(range.1)
}

/// The key range that `bytes` starts with, and the length of its coding.
pub open spec fn parse_key_range(bytes: Seq<u8>) -> Option<((Seq<u8>, Seq<u8>), nat)> {
    match parse_short_string(bytes) {
        Some((min, n)) => match parse_short_string(bytes.skip(n as int)) {
            Some((max, m)) => Some(((min, max), n + m)),
            None => None,
        },
        None => None,
    }
}

/// A key range whose keys have at most 65535 bytes is read back as it was
/// written, whatever follows it.
pub proof fn lemma_key_range_round_trip(range: (Seq<u8>, Seq<u8>), tail: Seq<u8>)
    requires
        range.0.len() <= 0xffff,
        range.1.len() <= 0xffff,
    ensures
        key_range_bytes(range).len() == 4 + range.0.len() + range.1.len(),
        parse_key_range(key_range_bytes(range) + tail) == Some(
            (range, key_range_bytes(range).len()),
        ),
{
    let all = key_range_bytes(range) + tail;
    lemma_short_string_round_trip(range.0, short_string(range.1) + tail);
    lemma_short_string_round_trip(range.1, tail);
    assert(all =~= short_string(range.0) + (short_string(range.1) + tail));
    assert(all.skip(2 + range.0.len() as int) =~= short_string(range.1) + tail);
}

impl Encode for KeyRange {
    open spec fn encoding(&self) -> Seq<u8> {
        key_range_bytes(self@)
    }

    /// Both keys have at most 65535 bytes.
    open spec fn encodable(&self) -> bool {
        self@.0.len() <= 0xffff && self@.1.len() <= 0xffff
    }

    fn encode_into(&self, out: &mut Vec<u8>) -> (r: Result<(), EncodeError>)
        ensures
            r is Ok <==> self.encodable(),
            r matches Err(e) ==> e is KeyLength,
    {
        let min = self.0.0.as_bytes();
        let max = self.0.1.as_bytes();
        if min.len() > 0xffff {
            return Err(EncodeError::KeyLength(min.len()));
        }
        if max.len() > 0xffff {
            return Err(EncodeError::KeyLength(max.len()));
        }
        let ghost before = out@;
        put_short_string(out, min);
        put_short_string(out, max);
        assert(out@ =~= before + self.encoding());
        Ok(())
    }
}

impl Decode for KeyRange {
    open spec fn decoding(bytes: Seq<u8>) -> Option<((Seq<u8>, Seq<u8>), nat)> {
        parse_key_range(bytes)
    }

    fn decode_from(reader: &mut ByteReader) -> (r: Result<Self, DecodeError>)
        ensures
            r matches Err(e) ==> e is Io,
    {
        let mut cursor = reader.fork();
        let key_min = read_short_string(&mut cursor)?;
        assert(cursor.rest() =~= reader.rest().skip(cursor.offset() - reader.offset()));
        let key_max = read_short_string(&mut cursor)?;
        *reader = cursor;
        Ok(KeyRange::new((key_min, key_max)))
    }
}

} // verus!
