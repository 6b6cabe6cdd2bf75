//! Interrupts: what a trap is, and how the interrupt-enable bit is read and set.

use vstd::prelude::*;

use crate::arch::sstatus::SSTATUS;

verus! {

/// The registers that the trap entry saves.
#[derive(Debug)]
pub struct Context {
    pub regs: [usize; 32],
    pub sstatus: usize,
    pub sepc: usize,
}

/// The cause of a supervisor timer interrupt: the interrupt bit and cause 5.
pub const SCAUSE_TIMER: u64 = 0x8000_0000_0000_0005;

/// What the handler does about a trap.
#[derive(Clone, Copy, PartialEq, Eq, Structural, Debug)]
pub enum Trap {
    /// The timer has fired: set the next timeout.
    Timer,
    /// A cause that the kernel does not handle: report it and go on.
    Unknown(u64),
}

/// Decides what to do about a trap with cause `scause`.
pub fn interrupt_handler(scause: u64, stval: u64) -> (r: Trap)
    ensures
        r == (if scause == SCAUSE_TIMER {
            Trap::Timer
        } else {
            Trap::Unknown(scause)
        }),
{
    if scause == SCAUSE_TIMER {
        Trap::Timer
    } else {
        Trap::Unknown(scause)
    }
}

/// Whether interrupts are on in the given value of `sstatus`.
pub fn intr(sstatus: u64) -> (r: bool)
    ensures
        r == (sstatus & 2 != 0),
{
    sstatus & SSTATUS::SIE.mask() != 0
}

/// The value of `sstatus` with interrupts turned on.
pub fn intr_on(sstatus: u64) -> (r: u64)
    ensures
        r == sstatus | 2,
{
    sstatus | SSTATUS::SIE.mask()
}

/// The value of `sstatus` with interrupts turned off.
pub fn intr_off(sstatus: u64) -> (r: u64)
    ensures
        r == sstatus & !2u64,
{
    sstatus & !SSTATUS::SIE.mask()
}

/// Turning interrupts off and on again leaves them on, and the other way round.
pub proof fn lemma_intr(sstatus: u64)
    ensures
        (sstatus | 2) & 2 != 0,
        (sstatus & !2u64) & 2 == 0,
        ((sstatus | 2) & !2u64) == (sstatus & !2u64),
        ((sstatus & !2u64) | 2) == (sstatus | 2),
{
    assert((sstatus | 2) & 2 != 0) by (bit_vector);
    assert((sstatus & !2u64) & 2 == 0) by (bit_vector);
    assert(((sstatus | 2) & !2u64) == (sstatus & !2u64)) by (bit_vector);
    assert(((sstatus & !2u64) | 2) == (sstatus | 2)) by (bit_vector);
}

} // verus!
