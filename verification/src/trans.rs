use vstd::prelude::*;

verus! {

/// A source of transaction ids.
pub trait TransactionIds<T> {
    fn generate(&mut self) -> T;
}

/// Ids handed out in increasing order, wrapping around after the largest.
pub struct SequentialIds {
    next_id: u64,
}

impl SequentialIds {
    pub closed spec fn next(&self) -> u64 {
        self.next_id
    }

    /// Ids starting from zero.
    pub fn new() -> (r: SequentialIds)
        ensures
            r.next() == 0,
    {
        SequentialIds { next_id: 0 }
    }

    /// Ids starting from `start`.
    pub fn start_at(start: u64) -> (r: SequentialIds)
        ensures
            r.next() == start,
    {
        SequentialIds { next_id: start }
    }

    /// Hands out the next id.
    pub fn next_id(&mut self) -> (r: u64)
        ensures
            r == old(self).next(),
            final(self).next() == (if old(self).next() == u64::MAX { 0 } else { old(self).next() + 1 }),
    {
        let curr = self.next_id;
        self.next_id = if curr == u64::MAX { 0 } else { curr + 1 };
        curr
    }
}

impl TransactionIds<u64> for SequentialIds {
    fn generate(&mut self) -> (r: u64)
        ensures
            r == old(self).next(),
            final(self).next() == (if old(self).next() == u64::MAX { 0 } else { old(self).next() + 1 }),
    {
        self.next_id()
    }
}

} // verus!
