//! Spin lock.
//!
//! Taking the lock turns interrupts off on the hart that takes it, and giving
//! it back restores them to what they were before. The lock itself is a flag
//! and the number of the hart that holds it.

use vstd::prelude::*;

verus! {

/// The owner of a lock that nobody holds.
pub const NO_OWNER: isize = -1;

/// The number of failed looks at a held lock after which a hart that waits for it gives
/// up: the lock is taken to be held for good.
pub const SPIN_LIMIT: u32 = 0x10_0000;

/// A lock around `data`.
#[derive(Clone, Copy)]
pub struct Spin<T> {
    pub locked: bool,
    pub owner: isize,
    pub data: T,
}

/// The proof that the lock was taken. `irq` tells whether interrupts were on before,
/// and so whether they are to be turned on again when the lock is given back.
pub struct SpinGuard {
    pub irq: bool,
}

/// What a hart that wants the lock is to do next.
#[derive(Clone, Copy, PartialEq, Eq, Structural, Debug)]
pub enum SpinStep {
    /// The lock is taken; go on.
    Acquired,
    /// The lock is held by another hart; look again.
    Busy,
    /// The hart holds the lock itself: a bug.
    Reentered,
    /// The lock stayed held for `SPIN_LIMIT` looks: a deadlock.
    Deadlocked,
}

impl<T> Spin<T> {
    /// The lock is held by a hart, or by nobody and then without owner.
    pub open spec fn wf(&self) -> bool {
        if self.locked {
            0 <= self.owner
        } else {
            self.owner == NO_OWNER
        }
    }

    /// A free lock around `data`.
    pub fn new(data: T) -> (r: Self)
        ensures
            !r.locked,
            r.owner == NO_OWNER,
            r.data == data,
            r.wf(),
    {
        Spin { locked: false, owner: NO_OWNER, data }
    }

    /// One look at the lock by hart `hart`, which has looked `tries` times in vain
    /// already. A free lock is taken. A lock that the hart holds itself is reported, and
    /// so is one that another hart has held for `SPIN_LIMIT` looks.
    pub fn step(&mut self, hart: usize, tries: u32) -> (r: SpinStep)
        requires
            old(self).wf(),
            hart <= isize::MAX,
        ensures
            final(self).wf(),
            final(self).data == old(self).data,
            r == spec_step(old(self).locked, old(self).owner, hart, tries),
            r == SpinStep::Acquired ==> final(self).locked && final(self).owner == hart,
            r != SpinStep::Acquired ==> final(self).locked == old(self).locked && final(self).owner
                == old(self).owner,
    {
        if self.locked {
            if self.owner == hart as isize {
                SpinStep::Reentered
            } else if tries >= SPIN_LIMIT - 1 {
                SpinStep::Deadlocked
            } else {
                SpinStep::Busy
            }
        } else {
            self.locked = true;
            self.owner = hart as isize;
            SpinStep::Acquired
        }
    }

    /// Takes a free lock for hart `hart`. `irq` is the interrupt state of the hart
    /// before the call; the caller has turned interrupts off.
    pub fn lock(&mut self, hart: usize, irq: bool) -> (g: SpinGuard)
        requires
            old(self).wf(),
            !old(self).locked,
            hart <= isize::MAX,
        ensures
            final(self).wf(),
            final(self).locked,
            final(self).owner == hart,
            final(self).data == old(self).data,
            g.irq == irq,
    {
        self.locked = true;
        self.owner = hart as isize;
        SpinGuard { irq }
    }

    /// Gives the lock back, and says whether interrupts are to be turned on again.
    pub fn unlock(&mut self, guard: SpinGuard) -> (irq_on: bool)
        requires
            old(self).locked,
        ensures
            final(self).wf(),
            !final(self).locked,
            final(self).owner == NO_OWNER,
            final(self).data == old(self).data,
            irq_on == guard.irq,
    {
        self.owner = NO_OWNER;
        self.locked = false;
        guard.irq
    }

    /// Nobody holds the lock.
    pub open spec fn free(&self) -> bool {
        !self.locked && self.owner == NO_OWNER
    }

    /// What the lock guards.
    pub fn get(&self) -> (r: &T)
        ensures
            *r == self.data,
    {
        &self.data
    }
}

/// What one look at a lock gives: see `Spin::step`.
pub open spec fn spec_step(locked: bool, owner: isize, hart: usize, tries: u32) -> SpinStep {
    if !locked {
        SpinStep::Acquired
    } else if owner == hart {
        SpinStep::Reentered
    } else if tries >= SPIN_LIMIT - 1 {
        SpinStep::Deadlocked
    } else {
        SpinStep::Busy
    }
}

} // verus!
