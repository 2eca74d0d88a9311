//! A monotonically increasing counter used to hand out fresh identifiers.

use vstd::prelude::*;

verus! {

/// Hands out successive `u64` values, starting just above the seed it was
/// created with.
pub struct Counter {
    count: u64,
}

impl Counter {
    /// The value the counter currently holds; the next call to `next`
    /// returns this plus one.
    pub closed spec fn spec_count(self) -> u64 {
        self.count
    }

    pub fn new(value: u64) -> (c: Counter)
        ensures
            c.spec_count() == value,
    {
        Counter { count: value }
    }

    /// Advances the counter and returns the new value, which is therefore
    /// never equal to a value returned before.
    pub fn next(&mut self) -> (r: u64)
        requires
            old(self).spec_count() < u64::MAX,
        ensures
            r == old(self).spec_count() + 1,
            final(self).spec_count() == old(self).spec_count() + 1,
    {
        self.count = self.count + 1;
        self.count
    }
}

} // verus!
