use vstd::prelude::*;

verus! {

/// The offset that follows `offset`; the counter wraps at the top of its range.
pub open spec fn following(offset: u32) -> u32 {
    if offset == u32::MAX {
        0
    } else {
        (offset + 1) as u32
    }
}

/// Hands out offset identifiers, each one more than the one before.
#[derive(Clone, Copy, Debug, PartialEq, Eq, Structural)]
pub struct OffsetAllocator {
    next_offset: u32,
}

impl View for OffsetAllocator {
    type V = u32;

    /// The offset that the next call of `next` returns.
    closed spec fn view(&self) -> u32 {
        self.next_offset
    }
}

impl OffsetAllocator {
    /// An allocator whose first offset is `first`.
    pub fn new(first: u32) -> (r: OffsetAllocator)
        ensures
            r@ == first,
    {
        OffsetAllocator { next_offset: first }
    }

    /// The offset that the next call of `next` returns.
    pub fn peek(&self) -> (r: u32)
        ensures
            r == self@,
    {
        self.next_offset
    }

    /// Hands out the current offset and moves on to the following one.
    pub fn next(&mut self) -> (r: u32)
        ensures
            r == old(self)@,
            final(self)@ == following(old(self)@),
            old(self)@ < u32::MAX ==> final(self)@ > r,
    {
        let r: u32 = self.next_offset;
        self.next_offset = r.wrapping_add(1);
        r
    }
}

} // verus!
