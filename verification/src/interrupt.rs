//! The interrupt controller as this runtime sees it, and critical sections
//! built on its mask.
//!
//! The controller here stands in for the hardware: it reports interrupts as
//! unmasked, accepts software requests without effect and gives every vector
//! the highest priority.
use vstd::prelude::*;

verus! {

/// Sets the interrupt mask and returns the mask it replaced.
pub fn interrupt_mask(mask: u8) -> (previous: u8)
    ensures
        previous == 0,
{
    let _ = mask;
    0
}

/// Requests the interrupt `vect` in software.
pub fn interrupt_request(vect: u16) {
    let _ = vect;
}

/// The priority of the interrupt `vect`.
pub fn interrupt_prio(vect: u16) -> (prio: u8)
    ensures
        prio == 0,
{
    let _ = vect;
    0
}

/// Interrupts are masked from [`CriticalSection::new`] to
/// [`CriticalSection::exit`], which restores the mask found on entry.
pub struct CriticalSection {
    old_mask: u8,
}

impl CriticalSection {
    /// The mask that was in force when the section was entered.
    pub closed spec fn saved_mask(&self) -> u8 {
        self.old_mask
    }

    /// Masks interrupts and remembers the previous mask.
    pub fn new() -> (cs: Self)
        ensures
            cs.saved_mask() == 0,
    {
        CriticalSection { old_mask: interrupt_mask(1) }
    }

    /// Briefly unmasks interrupts so that pending ones may preempt a long
    /// section.  Only a section entered with interrupts unmasked may do so.
    pub fn window(&self)
        requires
            self.saved_mask() == 0,
    {
        interrupt_mask(0);
        interrupt_mask(1);
    }

    /// Leaves the section, restoring the mask found on entry.
    pub fn exit(self) {
        interrupt_mask(self.old_mask);
    }
}

} // verus!
