//! A model of the IRQ-safe spinlock that guards the scheduler's queues.

use vstd::prelude::*;

verus! {

/// In the kernel this lock spins on a test-and-set flag and, for the length
/// of the critical section, saves the CPU's interrupt-enable state and masks
/// interrupts; releasing restores the prior state. Here the flag alone is
/// kept, and the contract carries the lock's one demand: it is not
/// recursive, so acquiring a lock that is already held would spin forever on
/// a single CPU. Fair progress is not promised.
pub struct SpinlockIrqSave {
    held: bool,
}

impl SpinlockIrqSave {
    /// Whether the lock is inside a critical section.
    pub closed spec fn is_held(&self) -> bool {
        self.held
    }

    /// A released lock.
    pub fn new() -> (r: Self)
        ensures
            !r.is_held(),
    {
        SpinlockIrqSave { held: false }
    }

    /// Enters the critical section: masks interrupts, saving their prior
    /// state, and takes the flag. The caller must not already hold the lock.
    pub fn acquire(&mut self)
        requires
            !old(self).is_held(),
        ensures
            final(self).is_held(),
    {
        self.held = true;
    }

    /// Leaves the critical section: clears the flag and restores the saved
    /// interrupt state.
    pub fn release(&mut self)
        requires
            old(self).is_held(),
        ensures
            !final(self).is_held(),
    {
        self.held = false;
    }
}

} // verus!
