//! The `sstatus` register.

use vstd::prelude::*;

verus! {

/// The fields of `sstatus` that the kernel knows by name.
#[derive(Clone, Copy, PartialEq, Eq, Structural, Debug)]
pub enum SSTATUS {
    /// Previous mode, 1 = supervisor, 0 = user.
    SPP,
    /// Supervisor previous interrupt enable.
    SPIE,
    /// User previous interrupt enable.
    UPIE,
    /// Supervisor interrupt enable.
    SIE,
    /// User interrupt enable.
    UIE,
}

impl SSTATUS {
    /// The bit of the field in the register.
    pub open spec fn spec_mask(self) -> u64 {
        match self {
            SSTATUS::SPP => 0x100,
            SSTATUS::SPIE => 0x20,
            SSTATUS::UPIE => 0x10,
            SSTATUS::SIE => 0x2,
            SSTATUS::UIE => 0x1,
        }
    }

    /// The bit of the field in the register.
    pub fn mask(self) -> (r: u64)
        ensures
            r == self.spec_mask(),
    {
        match self {
            SSTATUS::SPP => 0x100,
            SSTATUS::SPIE => 0x20,
            SSTATUS::UPIE => 0x10,
            SSTATUS::SIE => 0x2,
            SSTATUS::UIE => 0x1,
        }
    }
}

} // verus!
