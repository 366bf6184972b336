//! Counting semaphore bounding concurrent checkouts.
//!
//! It is a plain counter of available permits. `acquire` hands out a
//! permit exactly when the count is positive, so no permit is ever granted
//! while the available count is zero and the count can never go negative. In
//! the blocking realization a caller that is refused a permit waits until
//! another caller releases one and then tries again; in the cooperative
//! realization it suspends instead. Either way the driver owns the waiting,
//! and every grant or return of a permit is this verified bookkeeping.

use vstd::prelude::*;

verus! {

/// A counting semaphore: the number of permits still available.
pub struct Semaphore {
    count: usize,
}

impl Semaphore {
    /// How many permits are currently available.
    pub closed spec fn permits(&self) -> int {
        self.count as int
    }

    /// Create a new semaphore with `capacity` permits.
    pub fn new(capacity: usize) -> (s: Semaphore)
        ensures
            s.permits() == capacity,
    {
        Semaphore { count: capacity }
    }

    /// Try to take one permit. A permit is granted exactly when one is
    /// available; a refused caller waits (or suspends) and retries.
    pub fn acquire(&mut self) -> (granted: bool)
        ensures
            granted == (old(self).permits() > 0),
            granted ==> final(self).permits() == old(self).permits() - 1,
            !granted ==> final(self).permits() == old(self).permits(),
    {
        if self.count > 0 {
            self.count = self.count - 1;
            true
        } else {
            false
        }
    }

    /// How many permits are currently available, as a runtime value.
    pub fn available_permits(&self) -> (n: usize)
        ensures
            n == self.permits(),
    {
        self.count
    }

    /// Return one permit.
    pub fn release(&mut self)
        requires
            old(self).permits() < usize::MAX,
        ensures
            final(self).permits() == old(self).permits() + 1,
    {
        self.count = self.count + 1;
    }
}

} // verus!
