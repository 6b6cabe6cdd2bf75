//! Per-hart storage.
//!
//! One cell for each hart. A hart reaches its own cell through a guard; while
//! the guard is held interrupts are off on that hart, and giving it back
//! restores them to what they were.

use vstd::prelude::*;

verus! {

/// The number of harts.
pub const NCPU: usize = 8;

/// `NCPU` cells of `T`, one for each hart.
pub struct PerCpu<T> {
    pub data: [T; 8],
}

/// The right of hart `hart` to its cell. `irq` tells whether interrupts were on when
/// the guard was taken, and so whether they are to be turned on when it is given back.
pub struct PerCpuGuard {
    pub irq: bool,
    pub hart: usize,
}

impl<T: Copy> PerCpu<T> {
    /// Storage in which every cell holds `init`.
    pub fn new(init: T) -> (r: Self)
        ensures
            forall|h: int| 0 <= h < NCPU ==> r.data@[h] == init,
    {
        PerCpu { data: vstd::array::array_fill_for_copy_types(init) }
    }
}

impl<T> PerCpu<T> {
    /// Takes the guard for the cell of `hart`. `irq` is the interrupt state of the hart
    /// before the call; the caller has turned interrupts off.
    pub fn get(&self, hart: usize, irq: bool) -> (g: PerCpuGuard)
        requires
            hart < NCPU,
        ensures
            g.hart == hart,
            g.irq == irq,
    {
        PerCpuGuard { irq, hart }
    }

    /// Gives the guard back, and says whether interrupts are to be turned on again.
    pub fn unlock(&self, guard: PerCpuGuard) -> (irq_on: bool)
        ensures
            irq_on == guard.irq,
    {
        guard.irq
    }

    /// The cell that `guard` stands for.
    pub fn cell(&self, guard: &PerCpuGuard) -> (r: &T)
        requires
            guard.hart < NCPU,
        ensures
            *r == self.data@[guard.hart as int],
    {
        &self.data[guard.hart]
    }

    /// Replaces what the cell that `guard` stands for holds.
    pub fn set_cell(&mut self, guard: &PerCpuGuard, value: T)
        requires
            guard.hart < NCPU,
        ensures
            final(self).data@ == old(self).data@.update(guard.hart as int, value),
    {
        self.data[guard.hart] = value;
    }
}

} // verus!
