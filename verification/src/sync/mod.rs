//! Synchronization: spin lock, sequence lock and per-hart storage.

pub mod percpu;
pub mod seqlock;
pub mod spin;

pub use percpu::{PerCpu, PerCpuGuard, NCPU};
pub use seqlock::{SeqLock, SeqLockGuard};
pub use spin::{Spin, SpinGuard};
