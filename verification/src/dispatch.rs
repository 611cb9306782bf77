use vstd::prelude::*;

verus! {

/// Hands out the seeds of an inclusive range `[start, end]` one at a time,
/// in ascending order, with no gaps and no duplicates. Workers share one
/// dispatcher behind a lock; each `claim` is one atomic read-then-increment.
pub struct SeedDispatcher {
    next: u64,
    end: u64,
}

impl SeedDispatcher {
    pub closed spec fn spec_next(&self) -> u64 {
        self.next
    }

    pub closed spec fn spec_end(&self) -> u64 {
        self.end
    }

    pub open spec fn wf(&self) -> bool {
        self.spec_end() < u64::MAX && self.spec_next() <= self.spec_end() + 1
    }

    pub fn new(start: u64, end: u64) -> (r: SeedDispatcher)
        requires
            start <= end < u64::MAX,
        ensures
            r.wf(),
            r.spec_next() == start,
            r.spec_end() == end,
    {
        SeedDispatcher { next: start, end }
    }

    /// Claims the next unissued seed, or signals exhaustion. Seeds come out
    /// strictly ascending: every later claim returns a larger seed, so no
    /// two callers ever receive the same one.
    pub fn claim(&mut self) -> (r: Option<u64>)
        requires
            old(self).wf(),
        ensures
            final(self).wf(),
            final(self).spec_end() == old(self).spec_end(),
            old(self).spec_next() <= old(self).spec_end() ==> r == Some(old(self).spec_next())
                && final(self).spec_next() == old(self).spec_next() + 1,
            old(self).spec_next() > old(self).spec_end() ==> r is None && *final(self)
                == *old(self),
    {
        if self.next <= self.end {
            let seed = self.next;
            self.next = self.next + 1;
            Some(seed)
        } else {
            None
        }
    }
}

} // verus!
