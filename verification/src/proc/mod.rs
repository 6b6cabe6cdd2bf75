//! Harts, processes and threads.

pub mod cpu;
pub mod process;
pub mod stack;
pub mod thread;

pub use cpu::CPU;
pub use process::{Process, ProcessInner};
pub use stack::Stack;
pub use thread::{Thread, ThreadId, ThreadInner, ThreadStatus};
