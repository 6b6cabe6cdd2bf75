//! Page table mapping for Sv39.

use bit_field::BitField;
use vstd::arithmetic::power2::{lemma2_to64, lemma2_to64_rest, pow2};
use vstd::prelude::*;

use super::PageFrame;

pub mod debug;
pub mod pagetable;
pub mod pte;

pub use pte::{Flags, PTE};

verus! {

/// Bits `start..end` of `value`, moved down to bit 0.
pub open spec fn spec_get_bits(value: u64, start: nat, end: nat) -> u64 {
    ((value as nat / pow2(start)) % pow2((end - start) as nat)) as u64
}

/// `value` with bits `start..end` replaced by `bits`.
pub open spec fn spec_set_bits(value: u64, start: nat, end: nat, bits: u64) -> u64 {
    (value - spec_get_bits(value, start, end) * pow2(start) + bits * pow2(start)) as u64
}

/// `BitField::get_bits` of the crate bit_field, on a `u64` and the range `start..end`.
/// It shifts the bits above `end` out at the top and then the bits below `start` out at
/// the bottom; it panics on an empty or an out-of-bounds range, which `requires` leaves out.
#[verifier::external_body]
pub(crate) fn get_bits(value: u64, start: usize, end: usize) -> (r: u64)
    requires
        start < end <= 64,
    ensures
        r == spec_get_bits(value, start as nat, end as nat),
{
    value.get_bits(start..end)
}

/// `BitField::set_bits` of the crate bit_field, on a `u64` and the range `start..end`.
/// It clears the range and ors `bits`, shifted up by `start`, into it; it panics on an
/// out-of-bounds range and on `bits` that do not fit the range, which `requires` leaves out.
#[verifier::external_body]
pub(crate) fn set_bits(value: u64, start: usize, end: usize, bits: u64) -> (r: u64)
    requires
        start < end <= 64,
        bits < pow2((end - start) as nat),
    ensures
        r == spec_set_bits(value, start as nat, end as nat, bits),
{
    let mut v: u64 = value;
    v.set_bits(start..end, bits);
    v
}

/// `BitField::get_bit` of the crate bit_field, on a `u64`: whether bit `bit` is set. It
/// panics on an index of 64 or more, which `requires` leaves out.
#[verifier::external_body]
pub(crate) fn get_bit(value: u64, bit: usize) -> (r: bool)
    requires
        bit < 64,
    ensures
        r == (spec_get_bits(value, bit as nat, (bit + 1) as nat) == 1),
{
    value.get_bit(bit)
}

/// The powers of two that the Sv39 formats use.
pub proof fn lemma_sv39_powers()
    ensures
        pow2(0) == 1,
        pow2(1) == 2,
        pow2(4) == 16,
        pow2(8) == 256,
        pow2(9) == 512,
        pow2(10) == 1024,
        pow2(18) == 0x4_0000,
        pow2(27) == 0x800_0000,
        pow2(44) == 0x1000_0000_0000,
        pow2(54) == 0x40_0000_0000_0000,
        pow2(60) == 0x1000_0000_0000_0000,
{
    lemma2_to64();
    lemma2_to64_rest();
}

impl PageFrame {
    /// The 9-bit index that a virtual page number selects at `level`: bits `9 * level`
    /// to `9 * level + 9` of it.
    pub fn page_number(&self, level: usize) -> (r: usize)
        requires
            level <= 2,
        ensures
            r == spec_page_number(self.0, level as nat),
            r < 512,
    {
        proof {
            lemma_sv39_powers();
        }
        let bits: u64 = if level == 0 {
            get_bits(self.0, 0, 9)
        } else if level == 1 {
            get_bits(self.0, 9, 18)
        } else {
            get_bits(self.0, 18, 27)
        };
        bits as usize
    }

    /// The three indices of a virtual page number, the one of level 0 first.
    pub fn page_numbers(&self) -> (r: [usize; 3])
        ensures
            r@ == seq![
                spec_page_number(self.0, 0),
                spec_page_number(self.0, 1),
                spec_page_number(self.0, 2),
            ],
    {
        let r = [self.page_number(0), self.page_number(1), self.page_number(2)];
        assert(r@ =~= seq![
            spec_page_number(self.0, 0),
            spec_page_number(self.0, 1),
            spec_page_number(self.0, 2),
        ]);
        r
    }
}

/// The index that virtual page number `vpn` selects at `level`.
pub open spec fn spec_page_number(vpn: u64, level: nat) -> usize {
    if level == 0 {
        (vpn % 512) as usize
    } else if level == 1 {
        (vpn / 512 % 512) as usize
    } else {
        (vpn / 0x4_0000 % 512) as usize
    }
}

} // verus!
