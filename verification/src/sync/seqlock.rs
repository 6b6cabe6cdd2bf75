//! Sequence lock.
//!
//! Readers go on in parallel and never wait for each other; one writer works
//! at a time. The sequence number is odd while a writer works. A reader that
//! meets an odd number, or a number that has changed while it read, reads
//! again.

use vstd::prelude::*;

use super::spin::{Spin, SpinGuard};

verus! {

/// `data` under a sequence number, and the lock that keeps writers apart.
pub struct SeqLock<T> {
    pub seq: usize,
    pub lock: Spin<()>,
    pub data: T,
}

/// The proof that a writer holds the lock.
pub struct SeqLockGuard {
    pub lock: SpinGuard,
}

impl<T> SeqLock<T> {
    /// The sequence number is odd exactly while a writer holds the lock.
    pub open spec fn wf(&self) -> bool {
        &&& self.lock.wf()
        &&& self.lock.locked == (self.seq % 2 == 1)
    }

    /// `data` with sequence number 0 and no writer.
    pub fn new(data: T) -> (r: Self)
        ensures
            r.seq == 0,
            r.data == data,
            !r.lock.locked,
            r.wf(),
    {
        SeqLock { seq: 0, lock: Spin::new(()), data }
    }

    /// Hart `hart` starts to write: it takes the lock and makes the number odd.
    pub fn writer_lock(&mut self, hart: usize, irq: bool) -> (g: SeqLockGuard)
        requires
            old(self).wf(),
            !old(self).lock.locked,
            hart <= isize::MAX,
        ensures
            final(self).wf(),
            final(self).lock.locked,
            final(self).lock.owner == hart,
            final(self).seq == old(self).seq.wrapping_add(1),
            final(self).data == old(self).data,
            g.lock.irq == irq,
    {
        let lock = self.lock.lock(hart, irq);
        self.seq = self.seq.wrapping_add(1);
        SeqLockGuard { lock }
    }

    /// The writer is done: the number is even again, and the lock is free. Says
    /// whether interrupts are to be turned on again.
    pub fn writer_unlock(&mut self, guard: SeqLockGuard) -> (irq_on: bool)
        requires
            old(self).wf(),
            old(self).lock.locked,
        ensures
            final(self).wf(),
            !final(self).lock.locked,
            final(self).seq == old(self).seq.wrapping_add(1),
            final(self).data == old(self).data,
            irq_on == guard.lock.irq,
    {
        self.seq = self.seq.wrapping_add(1);
        self.lock.unlock(guard.lock)
    }

    /// Replaces the data in one go: the number goes up by two.
    pub fn write(&mut self, hart: usize, irq: bool, data: T) -> (irq_on: bool)
        requires
            old(self).wf(),
            !old(self).lock.locked,
            hart <= isize::MAX,
        ensures
            final(self).wf(),
            !final(self).lock.locked,
            final(self).seq == old(self).seq.wrapping_add(1).wrapping_add(1),
            final(self).data == data,
            irq_on == irq,
    {
        let guard = self.writer_lock(hart, irq);
        self.data = data;
        self.writer_unlock(guard)
    }

    /// One try to read: the data, where no writer is at work; `None` where one is, and
    /// the reader is to try again.
    pub fn read(&self) -> (r: Option<&T>)
        ensures
            r == (if self.seq % 2 == 0 {
                Some(&self.data)
            } else {
                None
            }),
    {
        let seq_start: usize = self.seq;
        if seq_start & 1 != 0 {
            assert(seq_start & 1 == seq_start % 2) by (bit_vector);
            return None;
        }
        assert(seq_start & 1 == seq_start % 2) by (bit_vector);
        let data = &self.data;
        let seq_end: usize = self.seq;
        if seq_start == seq_end {
            Some(data)
        } else {
            None
        }
    }
}

} // verus!
