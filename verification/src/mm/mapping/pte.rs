//! Page table entry for Sv39.
//!
//! Bit 0 is V, bits 1 to 3 are R, W and X, bit 4 is U, bit 5 G, bit 6 A,
//! bit 7 D; bits 10 to 53 hold the physical page number.

use vstd::prelude::*;

use super::{get_bit, get_bits, lemma_sv39_powers, set_bits};
use crate::mm::{PageFrame, VirtualAddr};

verus! {

/// The flag bits of a page table entry. The constants name the single bits.
#[derive(Clone, Copy, PartialEq, Eq, Structural, Debug)]
pub struct Flags(pub u8);

pub const VALID_BIT: usize = 0;

impl Flags {
    pub const VALID: u8 = 1;

    pub const READABLE: u8 = 2;

    pub const WRITABLE: u8 = 4;

    pub const EXECUTABLE: u8 = 8;

    pub const USER: u8 = 16;

    pub const GLOBAL: u8 = 32;

    pub const ACCESSED: u8 = 64;

    pub const DIRTY: u8 = 128;

    /// No flag.
    pub fn empty() -> (r: Flags)
        ensures
            r.0 == 0,
    {
        Flags(0)
    }

    /// The flags as a byte.
    pub fn bits(&self) -> (r: u8)
        ensures
            r == self.0,
    {
        self.0
    }

    /// The flags of a byte; every bit is a flag.
    pub fn from_bits(bits: u8) -> (r: Flags)
        ensures
            r.0 == bits,
    {
        Flags(bits)
    }

    /// Whether every flag of `other` is set.
    pub fn contains(&self, other: Flags) -> (r: bool)
        ensures
            r == (self.0 & other.0 == other.0),
    {
        self.0 & other.0 == other.0
    }

    /// Whether some flag of `other` is set.
    pub fn intersects(&self, other: Flags) -> (r: bool)
        ensures
            r == (self.0 & other.0 != 0),
    {
        self.0 & other.0 != 0
    }

    /// Sets the flags of `other` where `value` is true, and clears them where it is not.
    pub fn set(&mut self, other: Flags, value: bool)
        ensures
            final(self).0 == (if value {
                old(self).0 | other.0
            } else {
                old(self).0 & !other.0
            }),
    {
        if value {
            self.0 = self.0 | other.0;
        } else {
            self.0 = self.0 & !other.0;
        }
    }
}

impl core::ops::BitOr for Flags {
    type Output = Flags;

    /// The flags of either.
    fn bitor(self, other: Flags) -> (r: Flags) {
        Flags(self.0 | other.0)
    }
}

impl vstd::std_specs::ops::BitOrSpecImpl for Flags {
    open spec fn obeys_bitor_spec() -> bool {
        true
    }

    open spec fn bitor_req(self, other: Flags) -> bool {
        true
    }

    open spec fn bitor_spec(self, other: Flags) -> Flags {
        Flags(self.0 | other.0)
    }
}

impl core::ops::Sub for Flags {
    type Output = Flags;

    /// The flags of `self` that `other` has not.
    fn sub(self, other: Flags) -> (r: Flags) {
        Flags(self.0 & !other.0)
    }
}

impl vstd::std_specs::ops::SubSpecImpl for Flags {
    open spec fn obeys_sub_spec() -> bool {
        true
    }

    open spec fn sub_req(self, other: Flags) -> bool {
        true
    }

    open spec fn sub_spec(self, other: Flags) -> Flags {
        Flags(self.0 & !other.0)
    }
}

/// The largest physical page number that an entry can hold: 44 bits.
pub const MAX_PPN: u64 = 0xfff_ffff_ffff;

/// A page table entry.
#[derive(Clone, Copy)]
pub struct PTE(pub u64);

/// The word of an entry with flag byte `bits` and page number `ppn`.
pub open spec fn spec_pte(ppn: u64, bits: u8) -> u64 {
    (bits + ppn * 1024) as u64
}

impl PTE {
    /// The flag byte: bits 0 to 7.
    pub open spec fn spec_bits(self) -> u8 {
        (self.0 % 256) as u8
    }

    /// The page number: bits 10 to 53.
    pub open spec fn spec_ppn(self) -> u64 {
        (self.0 / 1024 % 0x1000_0000_0000) as u64
    }

    /// V is set.
    pub open spec fn spec_valid(self) -> bool {
        self.0 % 2 == 1
    }

    /// One of R, W and X is set.
    pub open spec fn spec_rwx(self) -> bool {
        self.0 / 2 % 8 != 0
    }

    /// A valid entry with one of R, W and X maps a page.
    pub open spec fn spec_leaf(self) -> bool {
        self.spec_valid() && self.spec_rwx()
    }

    /// A valid entry with none of R, W and X points to the table of the next level.
    pub open spec fn spec_dir(self) -> bool {
        self.spec_valid() && !self.spec_rwx()
    }

    /// The entry that is all zero.
    pub fn new_zeroed() -> (r: PTE)
        ensures
            r.0 == 0,
    {
        PTE(0)
    }

    /// An entry for `pfn` with `flags`; V is set exactly if there is a frame.
    pub fn new(pfn: Option<PageFrame>, flags: Flags) -> (r: PTE)
        requires
            pfn matches Some(f) ==> f.0 <= MAX_PPN,
        ensures
            r.0 == spec_pte(
                match pfn {
                    Some(f) => f.0,
                    None => 0,
                },
                if pfn is Some {
                    flags.0 | 1
                } else {
                    flags.0 & !1u8
                },
            ),
            r.spec_valid() == pfn is Some,
            r.spec_ppn() == (match pfn {
                Some(f) => f.0,
                None => 0,
            }),
            r.spec_rwx() == (flags.0 & 0x0e != 0),
    {
        let ghost ob = flags.0;
        let mut flags = flags;
        flags.set(Flags(Flags::VALID), pfn.is_some());
        let ppn: u64 = match pfn {
            Some(f) => f.0,
            None => 0,
        };
        proof {
            lemma_sv39_powers();
        }
        let low: u64 = set_bits(0u64, 0, 8, flags.0 as u64);
        let word: u64 = set_bits(low, 10, 54, ppn);
        proof {
            let b = flags.0;
            assert(low == b);
            assert((low as nat / 1024) % 0x1000_0000_0000 == 0);
            assert(word == b + ppn * 1024);
            lemma_word(ppn, b);
            assert(((ob | 1) & 1 == 1) && ((ob & !1u8) & 1 == 0) && (((ob | 1) & 0x0e)
                == (ob & 0x0e)) && (((ob & !1u8) & 0x0e) == (ob & 0x0e))) by (bit_vector);
        }
        PTE(word)
    }

    /// Whether one of R, W and X is set.
    pub fn is_rwx(&self) -> (r: bool)
        ensures
            r == self.spec_rwx(),
    {
        let v = self.0;
        assert(((v % 256) as u8 & 0x0e != 0) == (v / 2 % 8 != 0)) by (bit_vector);
        assert(2u8 | 4u8 | 8u8 == 0x0eu8) by (bit_vector);
        self.get_flags().intersects(
            Flags(Flags::READABLE | Flags::WRITABLE | Flags::EXECUTABLE),
        )
    }

    /// Whether V is set.
    pub fn is_valid(&self) -> (r: bool)
        ensures
            r == self.spec_valid(),
    {
        proof {
            lemma_sv39_powers();
        }
        get_bit(self.0, VALID_BIT)
    }

    /// Whether the entry maps a page: V and one of R, W and X.
    pub fn is_leaf(&self) -> (r: bool)
        ensures
            r == self.spec_leaf(),
    {
        self.is_valid() && self.is_rwx()
    }

    /// Whether the entry points to a table: V and none of R, W and X.
    pub fn is_dir(&self) -> (r: bool)
        ensures
            r == self.spec_dir(),
    {
        self.is_valid() && !self.is_rwx()
    }

    /// The frame of a valid entry.
    pub fn get_page_frame(&self) -> (r: Option<PageFrame>)
        ensures
            r == (if self.spec_valid() {
                Some(PageFrame(self.spec_ppn()))
            } else {
                None
            }),
    {
        if self.is_valid() {
            Some(self.get_page_frame_unchecked())
        } else {
            None
        }
    }

    /// The page number field, whether the entry is valid or not.
    pub fn get_page_frame_unchecked(&self) -> (r: PageFrame)
        ensures
            r.0 == self.spec_ppn(),
            r.0 <= MAX_PPN,
    {
        proof {
            lemma_sv39_powers();
        }
        PageFrame(get_bits(self.0, 10, 54))
    }

    /// The flag byte.
    pub fn get_flags(&self) -> (r: Flags)
        ensures
            r.0 == self.spec_bits(),
    {
        proof {
            lemma_sv39_powers();
        }
        Flags(get_bits(self.0, 0, 8) as u8)
    }

    /// Points the entry at `pfn` and sets V, or clears the page number and V where
    /// there is no frame. The other flags and the bits outside the two fields stay.
    pub fn update_page_number(&mut self, pfn: Option<PageFrame>)
        requires
            pfn matches Some(f) ==> f.0 <= MAX_PPN,
        ensures
            final(self).0 == old(self).0 - old(self).spec_bits() - old(self).spec_ppn() * 1024
                + final(self).spec_bits() + final(self).spec_ppn() * 1024,
            final(self).spec_ppn() == (match pfn {
                Some(f) => f.0,
                None => 0,
            }),
            final(self).spec_bits() == (if pfn is Some {
                old(self).spec_bits() | 1
            } else {
                old(self).spec_bits() & !1u8
            }),
            final(self).spec_valid() == pfn is Some,
            final(self).spec_rwx() == old(self).spec_rwx(),
    {
        proof {
            lemma_sv39_powers();
        }
        let flags: Flags = self.get_flags();
        let (bits, ppn): (u8, u64) = match pfn {
            Some(f) => ((flags | Flags(Flags::VALID)).0, f.0),
            None => ((flags - Flags(Flags::VALID)).0, 0),
        };
        let low: u64 = set_bits(self.0, 0, 8, bits as u64);
        let word: u64 = set_bits(low, 10, 54, ppn);
        proof {
            let ob = flags.0;
            lemma_replace_fields(self.0, bits, ppn);
            assert(((ob | 1) % 2 == 1) && ((ob & !1u8) % 2 == 0) && ((ob | 1) / 2 % 8 == ob / 2
                % 8) && ((ob & !1u8) / 2 % 8 == ob / 2 % 8)) by (bit_vector);
        }
        self.0 = word;
    }

    /// Where the table of the next level stands in the linear map, for a caller that is
    /// going to write to it, if this entry points to one.
    pub fn next_level_mut(&self) -> (r: Option<VirtualAddr>)
        ensures
            r == (if self.spec_dir() {
                Some(VirtualAddr(table_addr(self.spec_ppn())))
            } else {
                None
            }),
    {
        self.next_level()
    }

    /// Where the table of the next level stands in the linear map, if this entry
    /// points to one.
    pub fn next_level(&self) -> (r: Option<VirtualAddr>)
        ensures
            r == (if self.spec_dir() {
                Some(VirtualAddr(table_addr(self.spec_ppn())))
            } else {
                None
            }),
    {
        if self.is_dir() {
            let pf: PageFrame = self.get_page_frame_unchecked();
            Some(VirtualAddr::from(pf))
        } else {
            None
        }
    }
}

/// A word, taken apart into what lies above the page number, the page number, the two
/// bits between the fields, and the flag byte.
proof fn lemma_decompose(v: int)
    requires
        0 <= v <= u64::MAX,
    ensures
        v == (v / 0x40_0000_0000_0000) * 0x40_0000_0000_0000 + (v / 1024 % 0x1000_0000_0000)
            * 1024 + (v / 256 % 4) * 256 + v % 256,
        0 <= v / 0x40_0000_0000_0000 < 1024,
{
    let up = v / 1024;
    assert(v == up * 1024 + v % 1024);
    assert(v % 1024 == (v / 256 % 4) * 256 + v % 256);
    assert(up == (up / 0x1000_0000_0000) * 0x1000_0000_0000 + up % 0x1000_0000_0000);
    assert(up / 0x1000_0000_0000 == v / 0x40_0000_0000_0000);
}

/// The fields of a word that is put together from its four parts.
proof fn lemma_compose(hi: int, p: int, rsw: int, b: int)
    requires
        0 <= hi < 1024,
        0 <= p < 0x1000_0000_0000,
        0 <= rsw < 4,
        0 <= b < 256,
    ensures
        ({
            let w = hi * 0x40_0000_0000_0000 + p * 1024 + rsw * 256 + b;
            &&& 0 <= w <= u64::MAX
            &&& w % 256 == b
            &&& w / 256 % 4 == rsw
            &&& w / 1024 % 0x1000_0000_0000 == p
            &&& w / 0x40_0000_0000_0000 == hi
            &&& w % 2 == b % 2
            &&& w / 2 % 8 == b / 2 % 8
        }),
{
    let w = hi * 0x40_0000_0000_0000 + p * 1024 + rsw * 256 + b;
    let up = hi * 0x1000_0000_0000 + p;
    assert(w == up * 1024 + (rsw * 256 + b));
    assert(w / 1024 == up);
    assert(up % 0x1000_0000_0000 == p);
    assert(up / 0x1000_0000_0000 == hi);
    let q = up * 4 + rsw;
    assert(w == q * 256 + b);
    assert(w / 256 == q);
    let h2 = q * 128 + b / 2;
    assert(w == h2 * 2 + b % 2);
    assert(w / 2 == h2);
    assert(h2 == (q * 16 + b / 16) * 8 + b / 2 % 8);
}

/// What a word holds after its flag byte and its page number were replaced.
pub proof fn lemma_replace_fields(v: u64, bits: u8, ppn: u64)
    requires
        ppn <= MAX_PPN,
    ensures
        ({
            let low = (v - v % 256 + bits) as u64;
            let word = (low - (low / 1024 % 0x1000_0000_0000) * 1024 + ppn * 1024) as u64;
            &&& 0 <= v - v % 256 + bits <= u64::MAX
            &&& 0 <= low - (low / 1024 % 0x1000_0000_0000) * 1024 + ppn * 1024 <= u64::MAX
            &&& word % 256 == bits
            &&& word / 1024 % 0x1000_0000_0000 == ppn
            &&& word % 2 == bits % 2
            &&& word / 2 % 8 == bits / 2 % 8
            &&& v / 2 % 8 == (v % 256) / 2 % 8
            &&& low / 1024 % 0x1000_0000_0000 == v / 1024 % 0x1000_0000_0000
            &&& word == v - v % 256 - (v / 1024 % 0x1000_0000_0000) * 1024 + bits + ppn * 1024
        }),
{
    let vi = v as int;
    let hi = vi / 0x40_0000_0000_0000;
    let p = vi / 1024 % 0x1000_0000_0000;
    let rsw = vi / 256 % 4;
    let b = vi % 256;
    lemma_decompose(vi);
    lemma_compose(hi, p, rsw, b);
    lemma_compose(hi, p, rsw, bits as int);
    lemma_compose(hi, ppn as int, rsw, bits as int);
}

/// The address in the linear map of the page with number `ppn`.
pub open spec fn table_addr(ppn: u64) -> u64 {
    ((ppn % 0x10_0000_0000_0000 * 4096) as u64).wrapping_add(crate::mm::PAGE_OFF)
}

/// The fields of the word `b + p * 1024`, as integers.
proof fn lemma_word_fields(p: int, b: int)
    requires
        0 <= p <= MAX_PPN,
        0 <= b < 256,
    ensures
        (b + p * 1024) % 256 == b,
        (b + p * 1024) / 1024 == p,
        (b + p * 1024) / 1024 % 0x1000_0000_0000 == p,
        (b + p * 1024) % 2 == b % 2,
        (b + p * 1024) / 2 % 8 == b / 2 % 8,
{
    let w = b + p * 1024;
    assert(w == (p * 4) * 256 + b);
    assert(w == (p * 512 + b / 2) * 2 + b % 2);
    assert(w / 2 == p * 512 + b / 2);
    assert(w / 2 == (p * 64 + b / 16) * 8 + b / 2 % 8);
}

/// How the fields of an entry are read back from its word.
pub proof fn lemma_word(ppn: u64, bits: u8)
    requires
        ppn <= MAX_PPN,
    ensures
        PTE(spec_pte(ppn, bits)).spec_bits() == bits,
        PTE(spec_pte(ppn, bits)).spec_ppn() == ppn,
        PTE(spec_pte(ppn, bits)).spec_valid() == (bits & 1 == 1),
        PTE(spec_pte(ppn, bits)).spec_rwx() == (bits & 0x0e != 0),
        spec_pte(ppn, bits) == bits + ppn * 1024,
{
    let p: int = ppn as int;
    let b: int = bits as int;
    let w: int = b + p * 1024;
    assert(spec_pte(ppn, bits) as int == w);
    lemma_word_fields(p, b);
    assert((bits & 1 == 1) == (bits % 2 == 1)) by (bit_vector);
    assert((bits & 0x0e != 0) == (bits / 2 % 8 != 0)) by (bit_vector);
}

} // verus!
