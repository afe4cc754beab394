//! Value handles: where a value lies in the value log.

use crate::coding::lemma_pow128_ten;
use crate::coding::lemma_varint_len_positive;
use crate::coding::lemma_varint_round_trip;
use crate::coding::parse_varint;
use crate::coding::put_bytes;
use crate::coding::put_u64_varint;
use crate::coding::varint_bytes;
use crate::coding::ByteReader;
use crate::coding::Decode;
use crate::coding::DecodeError;
use crate::coding::Encode;
use crate::coding::EncodeError;
use crate::id::SegmentId;
use vstd::prelude::*;

verus! {

/// A value handle points into the value log
#[derive(Clone, Copy, Debug, Eq, Hash, PartialEq, Structural)]
pub struct ValueHandle {
    /// Segment ID
    pub segment_id: SegmentId,
    /// Offset in file
    pub offset: u64,
}

impl View for ValueHandle {
    type V = ValueHandle;

    open spec fn view(&self) -> ValueHandle {
        *self
    }
}

impl Encode for ValueHandle {
    /// The offset, then the segment ID, each as a variable-length integer.
    open spec fn encoding(&self) -> Seq<u8> {
        varint_bytes(self.offset as nat) + varint_bytes(self.segment_id as nat)
    }

    open spec fn encodable(&self) -> bool {
        true
    }

    fn encode_into(&self, out: &mut Vec<u8>) -> (r: Result<(), EncodeError>)
        ensures
            r is Ok,
    {
        let mut bytes: Vec<u8> = Vec::new();
        put_u64_varint(&mut bytes, self.offset)?;
        put_u64_varint(&mut bytes, self.segment_id)?;
        assert(bytes@ =~= self.encoding());
        put_bytes(out, bytes.as_slice());
        Ok(())
    }
}

impl Decode for ValueHandle {
    /// Two variable-length integers: the offset, then the segment ID.
    open spec fn decoding(bytes: Seq<u8>) -> Option<(ValueHandle, nat)> {
        match parse_varint(bytes) {
            Some((offset, n)) => match parse_varint(bytes.skip(n as int)) {
                Some((segment_id, m)) => Some((ValueHandle { segment_id, offset }, n + m)),
                None => None,
            },
            None => None,
        }
    }

    fn decode_from(reader: &mut ByteReader) -> (r: Result<Self, DecodeError>) {
        let mut cursor = reader.fork();
        let offset: u64 = cursor.read_u64_varint()?;
        proof {
            lemma_varint_len_positive(reader.rest());
            assert(cursor.rest() =~= reader.rest().skip(cursor.offset() - reader.offset()));
        }
        let segment_id: u64 = cursor.read_u64_varint()?;
        *reader = cursor;
        Ok(ValueHandle { segment_id, offset })
    }
}

/// A handle that was written is read back as it was, whatever follows it.
pub proof fn lemma_handle_round_trip(handle: ValueHandle, tail: Seq<u8>)
    ensures
        ValueHandle::decoding(handle.encoding() + tail) == Some(
            (handle, handle.encoding().len()),
        ),
{
    let first = varint_bytes(handle.offset as nat);
    let second = varint_bytes(handle.segment_id as nat);
    let all = handle.encoding() + tail;
    lemma_pow128_ten();
    lemma_varint_round_trip(handle.offset as nat, 10, second + tail);
    lemma_varint_round_trip(handle.segment_id as nat, 10, tail);
    lemma_varint_round_trip(handle.offset as nat, 10, Seq::empty());
    lemma_varint_round_trip(handle.segment_id as nat, 10, Seq::empty());
    assert(all =~= first + (second + tail));
    assert(all.take(first.len() as int) =~= first);
    assert(all.skip(first.len() as int) =~= second + tail);
    assert((second + tail).take(second.len() as int) =~= second);
}

} // verus!
