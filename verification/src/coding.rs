//! Fixed-width and variable-length integer coding, and the coding errors.

use byteorder::ByteOrder;
use varint_rs::VarintReader;
use varint_rs::VarintWriter;
use vstd::prelude::*;

verus! {

/// An I/O error as the standard library reports it; opaque to the proofs.
#[verifier::external_type_specification]
#[verifier::external_body]
pub struct ExIoError(std::io::Error);

/// Error during serialization
#[derive(Debug)]
pub enum EncodeError {
    /// I/O error
    Io(std::io::Error),
    /// The key is empty or longer than 65535 bytes; holds its length
    KeyLength(usize),
    /// The value is longer than 2^32 - 1 bytes; holds its length
    ValueLength(usize),
}

/// Error during deserialization
#[derive(Debug)]
pub enum DecodeError {
    /// I/O error; the input ended before the item did
    Io(std::io::Error),
    /// Invalid enum tag
    InvalidTag((&'static str, u8)),
    /// The trailer magic is missing
    InvalidTrailer,
    /// Invalid block header
    InvalidHeader(&'static str),
}

/// Why a byte string does not decode.
pub enum Fault {
    /// The input ends before the item does
    Truncated,
    /// The trailer magic is missing
    Trailer,
    /// The block of this name does not start with its magic
    Header(Seq<char>),
    /// A tag byte of the type of this name names no known variant
    Tag(Seq<char>, u8),
}

impl DecodeError {
    /// What the error says of the input.
    pub open spec fn fault(&self) -> Fault {
        match self {
            DecodeError::Io(_) => Fault::Truncated,
            DecodeError::InvalidTag(t) => Fault::Tag(t.0@, t.1),
            DecodeError::InvalidTrailer => Fault::Trailer,
            DecodeError::InvalidHeader(name) => Fault::Header(name@),
        }
    }
}

/// 256 to the power `n`.
pub open spec fn pow256(n: nat) -> nat
    decreases n,
{
    if n == 0 {
        1
    } else {
        256 * pow256((n - 1) as nat)
    }
}

/// The big-endian digits of `v` in `width` bytes: the last byte is the
/// least significant one.
pub open spec fn be_bytes(v: nat, width: nat) -> Seq<u8>
    decreases width,
{
    if width == 0 {
        Seq::empty()
    } else {
        be_bytes(v / 256, (width - 1) as nat).push((v % 256) as u8)
    }
}

/// The number that a big-endian byte string denotes.
pub open spec fn be_value(s: Seq<u8>) -> nat
    decreases s.len(),
{
    if s.len() == 0 {
        0
    } else {
        be_value(s.drop_last()) * 256 + s.last() as nat
    }
}

/// `be_bytes` yields exactly `width` bytes.
pub proof fn lemma_be_bytes_len(v: nat, width: nat)
    ensures
        be_bytes(v, width).len() == width,
    decreases width,
{
    if width > 0 {
        lemma_be_bytes_len(v / 256, (width - 1) as nat);
    }
}

/// Decoding the big-endian digits of `v` gives `v` back when `v` fits the width.
pub proof fn lemma_be_round_trip(v: nat, width: nat)
    requires
        v < pow256(width),
    ensures
        be_value(be_bytes(v, width)) == v,
    decreases width,
{
    if width > 0 {
        let rest = be_bytes(v / 256, (width - 1) as nat);
        assert(v / 256 < pow256((width - 1) as nat)) by (nonlinear_arith)
            requires
                v < 256 * pow256((width - 1) as nat),
        ;
        lemma_be_round_trip(v / 256, (width - 1) as nat);
        let all = rest.push((v % 256) as u8);
        assert(all.drop_last() =~= rest);
        assert(all.last() == (v % 256) as u8);
        assert((v / 256) * 256 + v % 256 == v) by (nonlinear_arith);
    }
}

/// A byte string of `width` bytes denotes a number below `256^width`, and
/// encoding that number gives the byte string back.
pub proof fn lemma_be_value_bytes(s: Seq<u8>)
    ensures
        be_value(s) < pow256(s.len()),
        be_bytes(be_value(s), s.len()) == s,
    decreases s.len(),
{
    if s.len() > 0 {
        let head = s.drop_last();
        lemma_be_value_bytes(head);
        let v = be_value(s);
        let last = s.last() as nat;
        assert(v / 256 == be_value(head) && v % 256 == last) by (nonlinear_arith)
            requires
                v == be_value(head) * 256 + last,
                last < 256,
        ;
        assert(v < 256 * pow256(head.len())) by (nonlinear_arith)
            requires
                v == be_value(head) * 256 + last,
                last < 256,
                be_value(head) < pow256(head.len()),
        ;
        assert(be_bytes(v, s.len()) =~= s);
    }
}

/// The powers of 256 that the fixed widths use.
pub proof fn lemma_pow256_values()
    ensures
        pow256(2) == 0x1_0000,
        pow256(4) == 0x1_0000_0000,
        pow256(8) == 0x1_0000_0000_0000_0000,
{
    reveal_with_fuel(pow256, 9);
}

/// Calls `byteorder::BigEndian::write_u16` on a buffer of two bytes: the
/// buffer then holds the two big-endian digits of `v`.
#[verifier::external_body]
fn be_u16(v: u16) -> (r: [u8; 2])
    ensures
        r@ == be_bytes(v as nat, 2),
{
    let mut buf = [0u8; 2];
    byteorder::BigEndian::write_u16(&mut buf, v);
    buf
}

/// Calls `byteorder::BigEndian::write_u32` on a buffer of four bytes: the
/// buffer then holds the four big-endian digits of `v`.
#[verifier::external_body]
fn be_u32(v: u32) -> (r: [u8; 4])
    ensures
        r@ == be_bytes(v as nat, 4),
{
    let mut buf = [0u8; 4];
    byteorder::BigEndian::write_u32(&mut buf, v);
    buf
}

/// Calls `byteorder::BigEndian::write_u64` on a buffer of eight bytes: the
/// buffer then holds the eight big-endian digits of `v`.
#[verifier::external_body]
fn be_u64(v: u64) -> (r: [u8; 8])
    ensures
        r@ == be_bytes(v as nat, 8),
{
    let mut buf = [0u8; 8];
    byteorder::BigEndian::write_u64(&mut buf, v);
    buf
}

/// Calls `byteorder::BigEndian::read_u16`, which panics on fewer than two
/// bytes: the result is the number that the two bytes denote.
#[verifier::external_body]
fn from_be_u16(bytes: &[u8]) -> (r: u16)
    requires
        bytes@.len() == 2,
    ensures
        r as nat == be_value(bytes@),
{
    byteorder::BigEndian::read_u16(bytes)
}

/// Calls `byteorder::BigEndian::read_u32`, which panics on fewer than four
/// bytes: the result is the number that the four bytes denote.
#[verifier::external_body]
fn from_be_u32(bytes: &[u8]) -> (r: u32)
    requires
        bytes@.len() == 4,
    ensures
        r as nat == be_value(bytes@),
{
    byteorder::BigEndian::read_u32(bytes)
}

/// Calls `byteorder::BigEndian::read_u64`, which panics on fewer than eight
/// bytes: the result is the number that the eight bytes denote.
#[verifier::external_body]
fn from_be_u64(bytes: &[u8]) -> (r: u64)
    requires
        bytes@.len() == 8,
    ensures
        r as nat == be_value(bytes@),
{
    byteorder::BigEndian::read_u64(bytes)
}

/// Calls `std::io::Error::from` on the kind `UnexpectedEof`: the error that
/// a reader gives when its input ends too early.
#[verifier::external_body]
pub(crate) fn unexpected_eof() -> std::io::Error {
    std::io::Error::from(std::io::ErrorKind::UnexpectedEof)
}

/// Calls `std::io::Error::other`: an I/O error with this message.
#[verifier::external_body]
pub(crate) fn io_error(message: &'static str) -> std::io::Error {
    std::io::Error::other(message)
}

/// Appends `src` to `out`.
pub fn put_bytes(out: &mut Vec<u8>, src: &[u8])
    ensures
        final(out)@ == old(out)@ + src@,
{
    let ghost before = out@;
    out.extend_from_slice(src);
    assert(out@ =~= before + src@);
}

/// Appends the two big-endian bytes of `v` to `out`.
pub fn put_u16(out: &mut Vec<u8>, v: u16)
    ensures
        final(out)@ == old(out)@ + be_bytes(v as nat, 2),
{
    let buf = be_u16(v);
    put_bytes(out, buf.as_slice());
}

/// Appends the four big-endian bytes of `v` to `out`.
pub fn put_u32(out: &mut Vec<u8>, v: u32)
    ensures
        final(out)@ == old(out)@ + be_bytes(v as nat, 4),
{
    let buf = be_u32(v);
    put_bytes(out, buf.as_slice());
}

/// Appends the eight big-endian bytes of `v` to `out`.
pub fn put_u64(out: &mut Vec<u8>, v: u64)
    ensures
        final(out)@ == old(out)@ + be_bytes(v as nat, 8),
{
    let buf = be_u64(v);
    put_bytes(out, buf.as_slice());
}

/// The variable-length coding of `v`: seven bits to a byte, the least
/// significant group first, the top bit set on every byte but the last.
pub open spec fn varint_bytes(v: nat) -> Seq<u8>
    decreases v,
{
    if v < 128 {
        seq![v as u8]
    } else {
        seq![(v % 128 + 128) as u8] + varint_bytes(v / 128)
    }
}

/// The length of the variable-length integer that `s` starts with: the
/// position after the first byte below 128, if there is one.
pub open spec fn varint_len(s: Seq<u8>) -> Option<nat>
    decreases s.len(),
{
    if s.len() == 0 {
        None
    } else if s[0] < 128 {
        Some(1)
    } else {
        match varint_len(s.skip(1)) {
            Some(n) => Some(n + 1),
            None => None,
        }
    }
}

/// The number that the seven-bit groups of `s` denote, the first byte the
/// least significant.
pub open spec fn varint_value(s: Seq<u8>) -> nat
    decreases s.len(),
{
    if s.len() == 0 {
        0
    } else {
        (s[0] % 128) as nat + 128 * varint_value(s.skip(1))
    }
}

/// 128 to the power `n`.
pub open spec fn pow128(n: nat) -> nat
    decreases n,
{
    if n == 0 {
        1
    } else {
        128 * pow128((n - 1) as nat)
    }
}

/// The coding of a number below `128^k` has at most `k` bytes, ends where
/// its length says, also with bytes behind it, and denotes the number.
pub proof fn lemma_varint_round_trip(v: nat, k: nat, tail: Seq<u8>)
    requires
        k >= 1,
        v < pow128(k),
    ensures
        1 <= varint_bytes(v).len() <= k,
        varint_len(varint_bytes(v) + tail) == Some(varint_bytes(v).len()),
        varint_value(varint_bytes(v)) == v,
    decreases v,
{
    let b = varint_bytes(v);
    if v < 128 {
        assert(b =~= seq![v as u8]);
        assert((b + tail)[0] == b[0]);
        assert(b.skip(1) =~= Seq::<u8>::empty());
        assert(varint_value(b.skip(1)) == 0);
    } else {
        let first = (v % 128 + 128) as u8;
        let rest = varint_bytes(v / 128);
        assert(pow128(1) == 128) by {
            reveal_with_fuel(pow128, 2);
        }
        assert(k >= 2);
        assert(v / 128 < pow128((k - 1) as nat)) by (nonlinear_arith)
            requires
                v < 128 * pow128((k - 1) as nat),
        ;
        lemma_varint_round_trip(v / 128, (k - 1) as nat, tail);
        assert(b =~= seq![first] + rest);
        assert((b + tail)[0] == first);
        assert((b + tail).skip(1) =~= rest + tail);
        assert(b.skip(1) =~= rest);
        assert(first % 128 == v % 128);
        assert(v % 128 + 128 * (v / 128) == v) by (nonlinear_arith);
    }
}

/// Every `u64` is below `128^10`.
pub proof fn lemma_pow128_ten()
    ensures
        pow128(10) == 0x40_0000_0000_0000_0000,
{
    reveal_with_fuel(pow128, 11);
}

/// Calls `varint_rs::VarintWriter::write_u64_varint` on an empty `Vec<u8>`:
/// the write into the vector succeeds, and the vector then holds the
/// variable-length coding of `v`.
#[verifier::external_body]
fn varint_u64(v: u64) -> (r: Result<Vec<u8>, std::io::Error>)
    ensures
        r is Ok,
        r matches Ok(b) ==> b@ == varint_bytes(v as nat),
{
    let mut out: Vec<u8> = Vec::new();
    out.write_u64_varint(v)?;
    Ok(out)
}

/// Calls `varint_rs::VarintReader::read_u64_varint` on a cursor over at
/// most ten bytes, so that no shift exceeds the width of a `u64`. Where a
/// byte below 128 ends the integer, the result is the number that the
/// groups up to it denote, cut to 64 bits, and how many bytes were read;
/// where no such byte comes, the read fails.
#[verifier::external_body]
fn varint_from(bytes: &[u8]) -> (r: Result<(u64, usize), std::io::Error>)
    requires
        bytes@.len() <= 10,
    ensures
        match r {
            Ok((v, n)) => varint_len(bytes@) == Some(n as nat) && v as nat == varint_value(
                bytes@.take(n as int),
            ) % 0x1_0000_0000_0000_0000,
            Err(_) => varint_len(bytes@) is None,
        },
{
    let mut cursor = std::io::Cursor::new(bytes);
    let v = cursor.read_u64_varint()?;
    Ok((v, cursor.position() as usize))
}

/// Appends the variable-length coding of `v` to `out`.
pub fn put_u64_varint(out: &mut Vec<u8>, v: u64) -> (r: Result<(), EncodeError>)
    ensures
        r is Ok,
        final(out)@ == old(out)@ + varint_bytes(v as nat),
{
    match varint_u64(v) {
        Ok(bytes) => {
            put_bytes(out, bytes.as_slice());
            Ok(())
        },
        Err(e) => Err(EncodeError::Io(e)),
    }
}

/// The variable-length integer at the start of `s`, cut to 64 bits, and its
/// length. There is none where `s` ends before a byte below 128 comes, or
/// where more than ten bytes come before one.
pub open spec fn parse_varint(s: Seq<u8>) -> Option<(u64, nat)> {
    match varint_len(s) {
        Some(n) => if n <= 10 {
            Some(((varint_value(s.take(n as int)) % 0x1_0000_0000_0000_0000) as u64, n))
        } else {
            None
        },
        None => None,
    }
}

/// The length of a variable-length integer is that of its first ten bytes,
/// where it ends among them.
pub proof fn lemma_varint_len_prefix(s: Seq<u8>, k: nat)
    requires
        k <= s.len(),
    ensures
        match varint_len(s.take(k as int)) {
            Some(n) => varint_len(s) == Some(n) && n <= k,
            None => match varint_len(s) {
                Some(n) => n > k,
                None => true,
            },
        },
    decreases k,
{
    let p = s.take(k as int);
    if k == 0 {
        if s.len() > 0 && s[0] >= 128 {
            lemma_varint_len_positive(s.skip(1));
        }
    } else {
        assert(p[0] == s[0]);
        if s[0] >= 128 {
            assert(p.skip(1) =~= s.skip(1).take(k - 1));
            lemma_varint_len_prefix(s.skip(1), (k - 1) as nat);
        }
    }
}

/// A variable-length integer has at least one byte.
pub proof fn lemma_varint_len_positive(s: Seq<u8>)
    ensures
        varint_len(s) matches Some(n) ==> 1 <= n <= s.len(),
    decreases s.len(),
{
    if s.len() > 0 && s[0] >= 128 {
        lemma_varint_len_positive(s.skip(1));
    }
}

/// A cursor over a byte string: the bytes before the cursor have been read.
pub struct ByteReader<'a> {
    data: &'a [u8],
    pos: usize,
}

impl<'a> ByteReader<'a> {
    #[verifier::type_invariant]
    spec fn in_bounds(self) -> bool {
        self.pos <= self.data@.len()
    }

    /// All the bytes, read or not.
    pub closed spec fn source(&self) -> Seq<u8> {
        self.data@
    }

    /// How many bytes have been read.
    pub closed spec fn offset(&self) -> nat {
        self.pos as nat
    }

    /// The bytes that have not been read yet.
    pub open spec fn rest(&self) -> Seq<u8> {
        self.source().skip(self.offset() as int)
    }

    /// A cursor at the start of `data`.
    pub fn new(data: &'a [u8]) -> (r: Self)
        ensures
            r.source() == data@,
            r.offset() == 0,
    {
        ByteReader { data, pos: 0 }
    }

    /// A cursor at `pos`, or at the end of `data` where `pos` lies beyond it.
    pub fn starting_at(data: &'a [u8], pos: usize) -> (r: Self)
        ensures
            r.source() == data@,
            r.offset() == if pos <= data@.len() { pos as nat } else { data@.len() },
    {
        if pos <= data.len() {
            ByteReader { data, pos }
        } else {
            ByteReader { data, pos: data.len() }
        }
    }

    /// A second cursor at the same place.
    pub fn fork(&self) -> (r: Self)
        ensures
            r.source() == self.source(),
            r.offset() == self.offset(),
            r.offset() <= r.source().len(),
    {
        proof {
            use_type_invariant(self);
        }
        ByteReader { data: self.data, pos: self.pos }
    }

    /// The number of bytes read so far.
    pub fn position(&self) -> (p: usize)
        ensures
            p == self.offset(),
            p <= self.source().len(),
    {
        proof {
            use_type_invariant(self);
        }
        self.pos
    }

    /// The number of bytes left.
    pub fn remaining(&self) -> (n: usize)
        ensures
            n == self.rest().len(),
            n == self.source().len() - self.offset(),
    {
        proof {
            use_type_invariant(self);
        }
        self.data.len() - self.pos
    }

    /// The next `len` bytes without moving the cursor, if that many are left.
    pub fn peek(&self, len: usize) -> (r: Option<&'a [u8]>)
        ensures
            match r {
                Some(s) => len <= self.rest().len() && s@ == self.rest().take(len as int),
                None => len > self.rest().len(),
            },
    {
        proof {
            use_type_invariant(self);
        }
        if len <= self.data.len() - self.pos {
            let s = vstd::slice::slice_subrange(self.data, self.pos, self.pos + len);
            assert(s@ =~= self.rest().take(len as int));
            Some(s)
        } else {
            None
        }
    }

    /// Moves the cursor over `len` bytes that a `peek` has shown.
    pub fn advance(&mut self, len: usize)
        requires
            len <= old(self).rest().len(),
        ensures
            final(self).source() == old(self).source(),
            final(self).offset() == old(self).offset() + len,
            final(self).offset() <= final(self).source().len(),
    {
        proof {
            use_type_invariant(&*self);
            assert(self.rest().len() == self.data@.len() - self.pos);
        }
        let total = self.data.len();
        assert(self.pos + len <= total);
        self.pos = self.pos + len;
    }

    /// Reads the next `len` bytes. Where fewer are left, the cursor stays
    /// and the error is an I/O error.
    pub fn take(&mut self, len: usize) -> (r: Result<&'a [u8], DecodeError>)
        ensures
            final(self).source() == old(self).source(),
            final(self).offset() <= final(self).source().len(),
            match r {
                Ok(s) => {
                    &&& len <= old(self).rest().len()
                    &&& s@ == old(self).rest().take(len as int)
                    &&& final(self).offset() == old(self).offset() + len
                },
                Err(e) => {
                    &&& e is Io
                    &&& len > old(self).rest().len()
                    &&& final(self).offset() == old(self).offset()
                },
            },
    {
        proof {
            use_type_invariant(&*self);
        }
        match self.peek(len) {
            Some(s) => {
                self.advance(len);
                Ok(s)
            },
            None => Err(DecodeError::Io(unexpected_eof())),
        }
    }

    /// Reads one byte.
    pub fn read_u8(&mut self) -> (r: Result<u8, DecodeError>)
        ensures
            final(self).source() == old(self).source(),
            final(self).offset() <= final(self).source().len(),
            match r {
                Ok(v) => {
                    &&& 1 <= old(self).rest().len()
                    &&& v == old(self).rest()[0]
                    &&& final(self).offset() == old(self).offset() + 1
                },
                Err(e) => {
                    &&& e is Io
                    &&& old(self).rest().len() == 0
                    &&& final(self).offset() == old(self).offset()
                },
            },
    {
        let bytes = self.take(1)?;
        Ok(bytes[0])
    }

    /// Reads a big-endian `u16`.
    pub fn read_u16(&mut self) -> (r: Result<u16, DecodeError>)
        ensures
            final(self).source() == old(self).source(),
            final(self).offset() <= final(self).source().len(),
            match r {
                Ok(v) => {
                    &&& 2 <= old(self).rest().len()
                    &&& v as nat == be_value(old(self).rest().take(2))
                    &&& final(self).offset() == old(self).offset() + 2
                },
                Err(e) => {
                    &&& e is Io
                    &&& 2 > old(self).rest().len()
                    &&& final(self).offset() == old(self).offset()
                },
            },
    {
        let bytes = self.take(2)?;
        Ok(from_be_u16(bytes))
    }

    /// Reads a big-endian `u32`.
    pub fn read_u32(&mut self) -> (r: Result<u32, DecodeError>)
        ensures
            final(self).source() == old(self).source(),
            final(self).offset() <= final(self).source().len(),
            match r {
                Ok(v) => {
                    &&& 4 <= old(self).rest().len()
                    &&& v as nat == be_value(old(self).rest().take(4))
                    &&& final(self).offset() == old(self).offset() + 4
                },
                Err(e) => {
                    &&& e is Io
                    &&& 4 > old(self).rest().len()
                    &&& final(self).offset() == old(self).offset()
                },
            },
    {
        let bytes = self.take(4)?;
        Ok(from_be_u32(bytes))
    }

    /// Reads a variable-length `u64`. It fails where none of the next ten
    /// bytes ends the integer: with an I/O error where the input ends
    /// with them, with `InvalidTag` and the tenth byte where more bytes
    /// follow. On an error the cursor stays.
    pub fn read_u64_varint(&mut self) -> (r: Result<u64, DecodeError>)
        ensures
            final(self).source() == old(self).source(),
            final(self).offset() <= final(self).source().len(),
            match r {
                Ok(v) => {
                    &&& parse_varint(old(self).rest()) matches Some((w, n))
                    &&& v == w
                    &&& final(self).offset() == old(self).offset() + n
                },
                Err(e) => {
                    &&& parse_varint(old(self).rest()) is None
                    &&& final(self).offset() == old(self).offset()
                    &&& (e is Io <==> old(self).rest().len() <= 10)
                    &&& old(self).rest().len() > 10 ==> e.fault() == Fault::Tag(
                        "Varint"@,
                        old(self).rest()[9],
                    )
                },
            },
    {
        let left: usize = self.remaining();
        let window: usize = if left < 10 { left } else { 10 };
        let head = match self.peek(window) {
            Some(head) => head,
            None => { return Err(DecodeError::Io(unexpected_eof())); },
        };
        proof {
            lemma_varint_len_prefix(self.rest(), window as nat);
            lemma_varint_len_positive(self.rest());
        }
        match varint_from(head) {
            Ok((v, n)) => {
                assert(head@.take(n as int) =~= self.rest().take(n as int));
                assert(varint_len(self.rest()) == Some(n as nat));
                assert(n <= 10);
                assert(parse_varint(self.rest()) == Some((v, n as nat)));
                self.advance(n);
                Ok(v)
            },
            Err(e) => {
                if left > 10 {
                    Err(DecodeError::InvalidTag(("Varint", head[9])))
                } else {
                    Err(DecodeError::Io(e))
                }
            },
        }
    }

    /// Reads a big-endian `u64`.
    pub fn read_u64(&mut self) -> (r: Result<u64, DecodeError>)
        ensures
            final(self).source() == old(self).source(),
            final(self).offset() <= final(self).source().len(),
            match r {
                Ok(v) => {
                    &&& 8 <= old(self).rest().len()
                    &&& v as nat == be_value(old(self).rest().take(8))
                    &&& final(self).offset() == old(self).offset() + 8
                },
                Err(e) => {
                    &&& e is Io
                    &&& 8 > old(self).rest().len()
                    &&& final(self).offset() == old(self).offset()
                },
            },
    {
        let bytes = self.take(8)?;
        Ok(from_be_u64(bytes))
    }
}

/// Values that have a byte coding.
pub trait Encode {
    /// The bytes that stand for the value.
    spec fn encoding(&self) -> Seq<u8>;

    /// Whether the value can be written: its lengths fit their fields.
    spec fn encodable(&self) -> bool;

    /// Serializes into a vector, behind what it holds. On an error the
    /// vector is unchanged.
    fn encode_into(&self, out: &mut Vec<u8>) -> (r: Result<(), EncodeError>)
        ensures
            match r {
                Ok(_) => self.encodable() && final(out)@ == old(out)@ + self.encoding(),
                Err(e) => final(out)@ == old(out)@ && (e is Io || !self.encodable()),
            },
    ;

    /// Serializes into a new vector.
    fn encode_into_vec(&self) -> (r: Result<Vec<u8>, EncodeError>)
        ensures
            match r {
                Ok(bytes) => self.encodable() && bytes@ == self.encoding(),
                Err(e) => e is Io || !self.encodable(),
            },
    {
        let mut v: Vec<u8> = Vec::new();
        self.encode_into(&mut v)?;
        assert(v@ =~= self.encoding());
        Ok(v)
    }
}

/// Values that can be read back from their byte coding.
pub trait Decode: Sized + View {
    /// The value that `bytes` starts with, and how many bytes stand for it.
    spec fn decoding(bytes: Seq<u8>) -> Option<(Self::V, nat)>;

    /// Deserializes from a reader. On an error the reader stays.
    fn decode_from(reader: &mut ByteReader) -> (r: Result<Self, DecodeError>)
        ensures
            final(reader).source() == old(reader).source(),
            match r {
                Ok(v) => Self::decoding(old(reader).rest()) == Some(
                    (v@, (final(reader).offset() - old(reader).offset()) as nat),
                ) && final(reader).offset() >= old(reader).offset(),
                Err(_) => Self::decoding(old(reader).rest()) is None && final(reader).offset()
                    == old(reader).offset(),
            },
    ;
}

} // verus!
