//! Memory-management core of a small multi-hart Sv39 supervisor kernel.
//!
//! Physical memory is modelled by [`mm::memory::Memory`], a word store that the
//! allocators thread their intrusive free lists through.

pub mod arch;
pub mod dtb;
pub mod interrupt;
pub mod mm;
pub mod proc;
pub mod sync;
pub mod timer;
