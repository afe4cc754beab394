//! Counters that hand out identifiers.

use vstd::prelude::*;

verus! {

/// The identifier of a segment.
pub type SegmentId = u64;

/// A counter that hands out each number once, in ascending order.
#[derive(Debug)]
pub struct IdGenerator {
    next_id: u64,
}

impl View for IdGenerator {
    type V = u64;

    /// The number that the next call of `next` hands out.
    closed spec fn view(&self) -> u64 {
        self.next_id
    }
}

/// The number after `id`; after the greatest one the count starts again at 0.
pub open spec fn succ_id(id: u64) -> u64 {
    if id == u64::MAX {
        0
    } else {
        (id + 1) as u64
    }
}

impl IdGenerator {
    /// A counter whose first number is `start`.
    pub fn new(start: u64) -> (r: Self)
        ensures
            r@ == start,
    {
        IdGenerator { next_id: start }
    }

    /// The number that the next call of `next` hands out.
    pub fn peek(&self) -> (id: SegmentId)
        ensures
            id == self@,
    {
        self.next_id
    }

    /// Hands out the current number and moves on to the one after it.
    pub fn next(&mut self) -> (id: SegmentId)
        ensures
            id == old(self)@,
            final(self)@ == succ_id(old(self)@),
    {
        let id: u64 = self.next_id;
        self.next_id = if id == u64::MAX { 0 } else { id + 1 };
        id
    }
}

impl Default for IdGenerator {
    fn default() -> (r: Self)
        ensures
            r@ == 0,
    {
        IdGenerator { next_id: 0 }
    }
}

} // verus!
