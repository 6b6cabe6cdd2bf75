//! A thread.

use std::sync::Arc;
use vstd::prelude::*;

use super::process::Process;
use super::stack::Stack;
use crate::interrupt::Context;
use crate::mm::buddy::buddy::{spec_alloc, spec_alloc_frame, Buddy};
use crate::mm::memory::Memory;
use crate::sync::Spin;

verus! {

/// The number of a thread.
pub struct ThreadId(pub u64);

impl ThreadId {
    /// The next number: the value of the counter, which goes up by one.
    pub fn new(counter: &mut u64) -> (r: Self)
        ensures
            r.0 == *old(counter),
            *final(counter) == old(counter).wrapping_add(1),
    {
        let id: u64 = *counter;
        *counter = counter.wrapping_add(1);
        ThreadId(id)
    }
}

/// What a thread is doing.
pub enum ThreadStatus {
    READY,
    RUNNING,
    SLEEPING,
    ZOMBIE,
    DEAD,
}

/// A thread of a process, with a stack of its own.
pub struct Thread {
    pub tid: ThreadId,
    pub stack: Stack,
    pub process: Arc<Process>,
    pub inner: Spin<ThreadInner>,
}

/// The part of a thread that changes.
pub struct ThreadInner {
    pub context: Option<Context>,
    pub status: ThreadStatus,
}

impl Thread {
    /// A thread of `process` that is ready to run and has no context yet. It takes
    /// the next number and a new stack from the buddy allocator, which has one.
    pub fn new<const ORDER: usize>(
        process: Arc<Process>,
        counter: &mut u64,
        buddy: &mut Spin<Buddy<ORDER>>,
        hart: usize,
        mem: &mut Memory,
    ) -> (r: Self)
        requires
            old(buddy).free(),
            hart <= isize::MAX,
            old(buddy).data.wf(old(mem)),
            spec_alloc_frame(old(buddy).data@, 2) is Some,
        ensures
            final(buddy).free(),
            final(buddy).data.wf(final(mem)),
            final(mem).same_shape(old(mem)),
            final(buddy).data@ == spec_alloc(old(buddy).data@, 2),
            Some(r.stack.pages) == spec_alloc_frame(old(buddy).data@, 2),
            r.tid.0 == *old(counter),
            *final(counter) == old(counter).wrapping_add(1),
            r.process == process,
            r.inner.data.context is None,
            r.inner.data.status is READY,
            r.inner.free(),
    {
        let stack: Stack = Stack::new(buddy, hart, mem);
        Thread {
            tid: ThreadId::new(counter),
            stack,
            process,
            inner: Spin::new(ThreadInner { context: None, status: ThreadStatus::READY }),
        }
    }
}

} // verus!
