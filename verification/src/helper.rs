//! The guard that keeps the profiler from observing its own allocations.

use vstd::prelude::*;

verus! {

/// One entry of a thread into the profiler. The thread counts its entries
/// that have not ended; the guard holds what the count became when this entry
/// began.
pub struct Reentrancy(usize);

impl Reentrancy {
    /// The count of the thread just after this entry began.
    pub closed spec fn depth(&self) -> nat {
        self.0 as nat
    }

    /// Whether this entry is the outermost of its thread.
    pub open spec fn is_outermost(&self) -> bool {
        self.depth() == 1
    }

    /// Begins an entry: the count of the thread goes up by one, and the guard
    /// holds the new count. The entry is the outermost if and only if the
    /// thread had none open.
    pub fn new(counter: &mut usize) -> (guard: Self)
        requires
            *old(counter) < usize::MAX,
        ensures
            *final(counter) == *old(counter) + 1,
            guard.depth() == *final(counter),
            guard.is_outermost() <==> *old(counter) == 0,
    {
        *counter = *counter + 1;
        Reentrancy(*counter)
    }

    /// Whether this entry is the outermost of its thread, so that what it
    /// observes is recorded.
    pub fn is_ok(&self) -> (ok: bool)
        ensures
            ok == self.is_outermost(),
    {
        self.0 == 1
    }

    /// Ends the entry: the count of the thread goes down by one.
    pub fn release(self, counter: &mut usize)
        requires
            *old(counter) > 0,
        ensures
            *final(counter) == *old(counter) - 1,
    {
        *counter = *counter - 1;
    }
}

} // verus!
