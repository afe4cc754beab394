//! An immutable byte string that is cheap to clone.

use crate::coding::ByteReader;
use crate::coding::DecodeError;
use vstd::prelude::*;

verus! {

/// The byte string of the `byteview` crate; opaque to the proofs.
#[verifier::external_type_specification]
#[verifier::external_body]
pub struct ExByteView(byteview::ByteView);

/// The bytes that a `ByteView` holds, in order.
pub uninterp spec fn byteview_bytes(v: byteview::ByteView) -> Seq<u8>;

/// The lengths that a `Slice` can have: they fit in 32 bits, and in one
/// allocation together with a reference count.
pub open spec fn slice_len_ok(len: nat) -> bool {
    len <= u32::MAX && len + 8 <= isize::MAX
}

/// Calls `ByteView::new`, which panics on a length that does not fit 32
/// bits or one allocation, and otherwise copies the bytes.
#[verifier::external_body]
fn view_new(bytes: &[u8]) -> (r: byteview::ByteView)
    requires
        slice_len_ok(bytes@.len()),
    ensures
        byteview_bytes(r) == bytes@,
{
    byteview::ByteView::new(bytes)
}

/// Calls `ByteView::with_size`, which panics on a length that does not fit
/// 32 bits or one allocation, and otherwise gives that many zero bytes.
#[verifier::external_body]
fn view_with_size(len: usize) -> (r: byteview::ByteView)
    requires
        slice_len_ok(len as nat),
    ensures
        byteview_bytes(r) == Seq::new(len as nat, |i: int| 0u8),
{
    byteview::ByteView::with_size(len)
}

/// Calls `ByteView::slice` with the range from `begin` to `end`, which
/// panics on a range outside the bytes and otherwise gives the bytes of
/// that range.
#[verifier::external_body]
fn view_slice(v: &byteview::ByteView, begin: usize, end: usize) -> (r: byteview::ByteView)
    requires
        begin <= end <= byteview_bytes(*v).len(),
    ensures
        byteview_bytes(r) == byteview_bytes(*v).subrange(begin as int, end as int),
{
    v.slice(begin..end)
}

/// Calls `ByteView::clone`: the clone holds the same bytes.
#[verifier::external_body]
fn view_clone(v: &byteview::ByteView) -> (r: byteview::ByteView)
    ensures
        byteview_bytes(r) == byteview_bytes(*v),
{
    v.clone()
}

/// Calls `ByteView::deref`: the slice that it borrows holds the bytes.
#[verifier::external_body]
fn view_as_bytes(v: &byteview::ByteView) -> (r: &[u8])
    ensures
        r@ == byteview_bytes(*v),
{
    std::ops::Deref::deref(v)
}

/// Calls `ByteView::eq`: two byte strings are equal where they hold the
/// same bytes.
#[verifier::external_body]
fn view_eq(a: &byteview::ByteView, b: &byteview::ByteView) -> (r: bool)
    ensures
        r == (byteview_bytes(*a) == byteview_bytes(*b)),
{
    a == b
}

/// An immutable byte slice that can be cloned without additional heap allocation
#[derive(Debug)]
pub struct Slice(byteview::ByteView);

impl View for Slice {
    type V = Seq<u8>;

    closed spec fn view(&self) -> Seq<u8> {
        byteview_bytes(self.0)
    }
}

impl Slice {
    /// Construct a [`Slice`] from a byte slice.
    pub fn new(bytes: &[u8]) -> (r: Self)
        requires
            slice_len_ok(bytes@.len()),
        ensures
            r@ == bytes@,
    {
        Slice(view_new(bytes))
    }

    /// Whether a byte string of `len` bytes fits a `Slice`.
    pub fn fits(len: usize) -> (r: bool)
        ensures
            r == slice_len_ok(len as nat),
    {
        len <= u32::MAX as usize && len <= isize::MAX as usize - 8
    }

    /// Construct a [`Slice`] from a byte slice, if its length allows one.
    pub fn try_new(bytes: &[u8]) -> (r: Option<Self>)
        ensures
            match r {
                Some(s) => slice_len_ok(bytes@.len()) && s@ == bytes@,
                None => !slice_len_ok(bytes@.len()),
            },
    {
        if Self::fits(bytes.len()) {
            Some(Self::new(bytes))
        } else {
            None
        }
    }

    /// The empty byte string.
    pub fn empty() -> (r: Self)
        ensures
            r@ == Seq::<u8>::empty(),
    {
        let none: [u8; 0] = [];
        let r = Slice(view_new(none.as_slice()));
        assert(r@ =~= Seq::<u8>::empty());
        r
    }

    /// The bytes from `begin` up to `end`, without copying where the
    /// bytes live on the heap.
    pub fn slice(&self, begin: usize, end: usize) -> (r: Self)
        requires
            begin <= end <= self@.len(),
        ensures
            r@ == self@.subrange(begin as int, end as int),
    {
        Slice(view_slice(&self.0, begin, end))
    }

    /// A byte string of `len` zero bytes.
    pub fn with_size(len: usize) -> (r: Self)
        requires
            slice_len_ok(len as nat),
        ensures
            r@.len() == len,
            forall|i: int| 0 <= i < len ==> r@[i] == 0,
    {
        Slice(view_with_size(len))
    }

    /// Constructs a [`Slice`] from a reader by pulling in `len` bytes.
    /// Where fewer are left, the reader stays and the error is an I/O error.
    pub fn from_reader(reader: &mut ByteReader, len: usize) -> (r: Result<Self, DecodeError>)
        requires
            slice_len_ok(len as nat),
        ensures
            final(reader).source() == old(reader).source(),
            match r {
                Ok(s) => {
                    &&& len <= old(reader).rest().len()
                    &&& s@ == old(reader).rest().take(len as int)
                    &&& final(reader).offset() == old(reader).offset() + len
                },
                Err(e) => {
                    &&& e is Io
                    &&& len > old(reader).rest().len()
                    &&& final(reader).offset() == old(reader).offset()
                },
            },
    {
        let bytes = reader.take(len)?;
        Ok(Self::new(bytes))
    }

    /// The bytes.
    pub fn as_bytes(&self) -> (r: &[u8])
        ensures
            r@ == self@,
    {
        view_as_bytes(&self.0)
    }

    /// The number of bytes.
    pub fn len(&self) -> (n: usize)
        ensures
            n == self@.len(),
    {
        self.as_bytes().len()
    }

    /// Whether there are no bytes.
    pub fn is_empty(&self) -> (r: bool)
        ensures
            r == (self@.len() == 0),
    {
        self.as_bytes().len() == 0
    }

    /// The bytes, copied into a vector.
    pub fn to_vec(&self) -> (r: Vec<u8>)
        ensures
            r@ == self@,
    {
        vstd::slice::slice_to_vec(self.as_bytes())
    }
}

impl Clone for Slice {
    fn clone(&self) -> (r: Self)
        ensures
            r@ == self@,
    {
        Slice(view_clone(&self.0))
    }
}

impl PartialEq for Slice {
    fn eq(&self, other: &Self) -> (r: bool) {
        view_eq(&self.0, &other.0)
    }
}

impl vstd::std_specs::cmp::PartialEqSpecImpl for Slice {
    open spec fn obeys_eq_spec() -> bool {
        true
    }

    open spec fn eq_spec(&self, other: &Self) -> bool {
        self@ == other@
    }
}

impl Eq for Slice {

}

} // verus!
