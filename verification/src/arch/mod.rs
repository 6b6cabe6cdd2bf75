//! What the kernel computes for the RISC-V registers that it reads and writes.

pub mod sstatus;
