//! The guard that serialises access to the free list.

use vstd::prelude::*;

verus! {

/// An exclusive section that is entered without waiting: an attempt to enter
/// it while it is held fails at once.
pub struct Guard {
    held: bool,
}

impl Guard {
    /// Whether the section is held.
    pub closed spec fn is_held(&self) -> bool {
        self.held
    }

    /// A guard whose section is free.
    pub fn new() -> (g: Guard)
        ensures
            !g.is_held(),
    {
        Guard { held: false }
    }

    /// Whether the section is held.
    pub fn held(&self) -> (h: bool)
        ensures
            h == self.is_held(),
    {
        self.held
    }

    /// Enters the section if it is free. Returns whether it was entered; a
    /// section that was held stays held by whoever holds it.
    pub fn try_acquire(&mut self) -> (entered: bool)
        ensures
            entered == !old(self).is_held(),
            final(self).is_held(),
    {
        if self.held {
            false
        } else {
            self.held = true;
            true
        }
    }

    /// Leaves the section.
    pub fn release(&mut self)
        ensures
            !final(self).is_held(),
    {
        self.held = false;
    }
}

} // verus!
