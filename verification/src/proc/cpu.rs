//! What a hart runs.

use std::sync::Arc;
use vstd::prelude::*;

use super::thread::Thread;
use crate::sync::{PerCpu, PerCpuGuard, NCPU};

verus! {

/// The state of a hart: the thread that it runs, if any.
pub struct CPU {
    pub current_thread: Option<Arc<Thread>>,
}

impl CPU {
    /// A hart that runs no thread.
    pub fn new() -> (r: Self)
        ensures
            r.current_thread is None,
    {
        CPU { current_thread: None }
    }
}

/// The guard for the state of hart `hart` in `cpus`. `irq` is the interrupt state of
/// the hart before the call.
pub fn mycpu(cpus: &PerCpu<CPU>, hart: usize, irq: bool) -> (g: PerCpuGuard)
    requires
        hart < NCPU,
    ensures
        g.hart == hart,
        g.irq == irq,
{
    cpus.get(hart, irq)
}

} // verus!
