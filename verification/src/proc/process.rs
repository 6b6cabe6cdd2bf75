//! A process.

use vstd::prelude::*;

use crate::sync::Spin;

verus! {

/// A process: whether it runs in user mode, and what of it changes.
pub struct Process {
    pub is_user: bool,
    pub inner: Spin<ProcessInner>,
}

/// The part of a process that changes.
pub struct ProcessInner {}

impl Process {
    /// A kernel process.
    pub fn new() -> (r: Self)
        ensures
            !r.is_user,
            !r.inner.locked,
            r.inner.wf(),
    {
        Process { is_user: false, inner: Spin::new(ProcessInner {  }) }
    }
}

} // verus!
