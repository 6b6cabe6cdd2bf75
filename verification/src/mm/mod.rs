//! Memory subsystem: address types and their arithmetic.

use vstd::prelude::*;
use vstd::std_specs::convert::FromSpec;

pub mod allocator;
pub mod boot;
pub mod buddy;
pub mod mapping;
pub mod memblock;
pub mod memory;
pub mod page;

pub use boot::init_early;
pub use page::PageFrame;

verus! {


/// Offset of the kernel's linear map: `virt = phys + PAGE_OFF`.
pub const PAGE_OFF: u64 = 0xffff_ffc0_0000_0000;

/// Physical address at which RAM starts.
pub const MEMORY_OFFSET: u64 = 0x8000_0000;

pub const PAGE_SHIFT: u64 = 12;

pub const PAGE_MASK: u64 = 0xfff;

pub const PAGE_SIZE: u64 = 4096;

/// `size` rounded up to the next multiple of `align`, as a mathematical integer.
pub open spec fn spec_align_up(size: int, align: int) -> int {
    if size % align == 0 {
        size
    } else {
        size - size % align + align
    }
}

/// Whether `n` is a power of two.
pub open spec fn is_power_of_two(n: u64) -> bool {
    exists|k: nat| k < 64 && n == #[trigger] vstd::arithmetic::power2::pow2(k)
}

/// Rounds `size` up to a multiple of the page size.
pub fn page_align_up(size: u64) -> (r: u64)
    requires
        size <= u64::MAX - 4095,
    ensures
        r == spec_align_up(size as int, 4096),
        r % 4096 == 0,
        size <= r < size + 4096,
{
    let rem: u64 = size % PAGE_SIZE;
    if rem == 0 {
        size
    } else {
        size - rem + PAGE_SIZE
    }
}

#[derive(Clone, Copy, PartialEq, Eq, Structural, PartialOrd, Ord, Debug)]
pub struct PhysicalAddr(pub u64);

impl PhysicalAddr {
    pub fn new(addr: u64) -> (r: Self)
        ensures
            r.0 == addr,
    {
        PhysicalAddr(addr)
    }

    /// The frame that holds this address: `addr >> 12`.
    pub fn page_frame(&self) -> (r: PageFrame)
        ensures
            r.0 == self.0 / 4096,
    {
        let pfn: u64 = self.0 / PAGE_SIZE;
        PageFrame::new(pfn)
    }

    /// The first frame that starts at or after this address: `ceil(addr / 4096)`.
    pub fn next_page_frame(&self) -> (r: PageFrame)
        ensures
            r.0 == (self.0 + 4095) / 4096,
            r.0 * 4096 >= self.0,
            r.0 * 4096 < self.0 + 4096,
    {
        let pfn: u64 = self.0 / PAGE_SIZE;
        if self.0 % PAGE_SIZE == 0 {
            PageFrame::new(pfn)
        } else {
            PageFrame::new(pfn + 1)
        }
    }
}


impl From<VirtualAddr> for PhysicalAddr {
    /// Leaves the linear map: subtracts `PAGE_OFF`, wrapping, so that it is total.
    fn from(addr: VirtualAddr) -> (r: Self) {
        PhysicalAddr(addr.0.wrapping_sub(PAGE_OFF))
    }
}

impl vstd::std_specs::convert::FromSpecImpl<VirtualAddr> for PhysicalAddr {
    open spec fn obeys_from_spec() -> bool {
        true
    }

    open spec fn from_spec(addr: VirtualAddr) -> Self {
        PhysicalAddr(addr.0.wrapping_sub(PAGE_OFF))
    }
}

impl From<PhysicalAddr> for u64 {
    fn from(addr: PhysicalAddr) -> (r: Self) {
        addr.0
    }
}

impl vstd::std_specs::convert::FromSpecImpl<PhysicalAddr> for u64 {
    open spec fn obeys_from_spec() -> bool {
        true
    }

    open spec fn from_spec(addr: PhysicalAddr) -> Self {
        addr.0
    }
}

impl core::ops::Add<u64> for PhysicalAddr {
    type Output = Self;

    fn add(self, other: u64) -> (r: Self) {
        PhysicalAddr(self.0 + other)
    }
}

impl vstd::std_specs::ops::AddSpecImpl<u64> for PhysicalAddr {
    open spec fn obeys_add_spec() -> bool {
        true
    }

    open spec fn add_req(self, other: u64) -> bool {
        self.0 + other <= u64::MAX
    }

    open spec fn add_spec(self, other: u64) -> Self {
        PhysicalAddr((self.0 + other) as u64)
    }
}

impl core::ops::Sub<u64> for PhysicalAddr {
    type Output = Self;

    fn sub(self, other: u64) -> (r: Self) {
        PhysicalAddr(self.0 - other)
    }
}

impl vstd::std_specs::ops::SubSpecImpl<u64> for PhysicalAddr {
    open spec fn obeys_sub_spec() -> bool {
        true
    }

    open spec fn sub_req(self, other: u64) -> bool {
        self.0 >= other
    }

    open spec fn sub_spec(self, other: u64) -> Self {
        PhysicalAddr((self.0 - other) as u64)
    }
}

impl core::ops::Sub<PhysicalAddr> for PhysicalAddr {
    type Output = u64;

    fn sub(self, other: PhysicalAddr) -> (r: u64) {
        self.0 - other.0
    }
}

impl vstd::std_specs::ops::SubSpecImpl<PhysicalAddr> for PhysicalAddr {
    open spec fn obeys_sub_spec() -> bool {
        true
    }

    open spec fn sub_req(self, other: PhysicalAddr) -> bool {
        self.0 >= other.0
    }

    open spec fn sub_spec(self, other: PhysicalAddr) -> u64 {
        (self.0 - other.0) as u64
    }
}

impl PhysicalAddr {
    /// `self += other`.
    pub fn add_assign(&mut self, other: u64)
        requires
            old(self).0 + other <= u64::MAX,
        ensures
            final(self).0 == old(self).0 + other,
    {
        self.0 = self.0 + other;
    }

    /// `self -= other`.
    pub fn sub_assign(&mut self, other: u64)
        requires
            old(self).0 >= other,
        ensures
            final(self).0 == old(self).0 - other,
    {
        self.0 = self.0 - other;
    }
}

#[derive(Clone, Copy, PartialEq, Eq, Structural, PartialOrd, Ord, Debug)]
pub struct VirtualAddr(pub u64);

impl VirtualAddr {
    pub fn new(addr: u64) -> (r: Self)
        ensures
            r.0 == addr,
    {
        VirtualAddr(addr)
    }

    /// The physical frame behind an address of the linear map.
    pub fn page_frame(&self) -> (r: PageFrame)
        ensures
            r.0 == self.0.wrapping_sub(PAGE_OFF) / 4096,
    {
        let pfn: u64 = self.0.wrapping_sub(PAGE_OFF) / PAGE_SIZE;
        PageFrame::new(pfn)
    }

    /// The page number of the raw virtual address: `addr >> 12`.
    pub fn virtual_page_frame(&self) -> (r: PageFrame)
        ensures
            r.0 == self.0 / 4096,
    {
        PageFrame::new(self.0 / PAGE_SIZE)
    }

    /// The first physical frame that starts at or after this address of the linear map.
    pub fn page_frame_round_up(&self) -> (r: PageFrame)
        requires
            self.0.wrapping_sub(PAGE_OFF) <= u64::MAX - 4095,
        ensures
            r.0 == spec_align_up(self.0.wrapping_sub(PAGE_OFF) as int, 4096) / 4096,
            r.0 == (self.0.wrapping_sub(PAGE_OFF) + 4095) / 4096,
    {
        let pfn: u64 = page_align_up(self.0.wrapping_sub(PAGE_OFF)) / PAGE_SIZE;
        PageFrame::new(pfn)
    }

    /// The raw virtual address rounded up to a page boundary, as a page number.
    pub fn virtual_page_frame_round_up(&self) -> (r: PageFrame)
        requires
            self.0 <= u64::MAX - 4095,
        ensures
            r.0 == spec_align_up(self.0 as int, 4096) / 4096,
            r.0 == (self.0 + 4095) / 4096,
    {
        let pfn: u64 = page_align_up(self.0) / PAGE_SIZE;
        PageFrame::new(pfn)
    }
}

impl From<PhysicalAddr> for VirtualAddr {
    /// Enters the linear map: adds `PAGE_OFF`, wrapping, so that it is total.
    fn from(addr: PhysicalAddr) -> (r: Self) {
        VirtualAddr(addr.0.wrapping_add(PAGE_OFF))
    }
}

impl vstd::std_specs::convert::FromSpecImpl<PhysicalAddr> for VirtualAddr {
    open spec fn obeys_from_spec() -> bool {
        true
    }

    open spec fn from_spec(addr: PhysicalAddr) -> Self {
        VirtualAddr(addr.0.wrapping_add(PAGE_OFF))
    }
}

impl From<VirtualAddr> for u64 {
    fn from(addr: VirtualAddr) -> (r: Self) {
        addr.0
    }
}

impl vstd::std_specs::convert::FromSpecImpl<VirtualAddr> for u64 {
    open spec fn obeys_from_spec() -> bool {
        true
    }

    open spec fn from_spec(addr: VirtualAddr) -> Self {
        addr.0
    }
}

impl core::ops::Add<u64> for VirtualAddr {
    type Output = Self;

    fn add(self, other: u64) -> (r: Self) {
        VirtualAddr(self.0 + other)
    }
}

impl vstd::std_specs::ops::AddSpecImpl<u64> for VirtualAddr {
    open spec fn obeys_add_spec() -> bool {
        true
    }

    open spec fn add_req(self, other: u64) -> bool {
        self.0 + other <= u64::MAX
    }

    open spec fn add_spec(self, other: u64) -> Self {
        VirtualAddr((self.0 + other) as u64)
    }
}

impl core::ops::Sub<u64> for VirtualAddr {
    type Output = Self;

    fn sub(self, other: u64) -> (r: Self) {
        VirtualAddr(self.0 - other)
    }
}

impl vstd::std_specs::ops::SubSpecImpl<u64> for VirtualAddr {
    open spec fn obeys_sub_spec() -> bool {
        true
    }

    open spec fn sub_req(self, other: u64) -> bool {
        self.0 >= other
    }

    open spec fn sub_spec(self, other: u64) -> Self {
        VirtualAddr((self.0 - other) as u64)
    }
}

impl core::ops::Sub<VirtualAddr> for VirtualAddr {
    type Output = u64;

    fn sub(self, other: VirtualAddr) -> (r: u64) {
        self.0 - other.0
    }
}

impl vstd::std_specs::ops::SubSpecImpl<VirtualAddr> for VirtualAddr {
    open spec fn obeys_sub_spec() -> bool {
        true
    }

    open spec fn sub_req(self, other: VirtualAddr) -> bool {
        self.0 >= other.0
    }

    open spec fn sub_spec(self, other: VirtualAddr) -> u64 {
        (self.0 - other.0) as u64
    }
}

impl VirtualAddr {
    /// `self += other`.
    pub fn add_assign(&mut self, other: u64)
        requires
            old(self).0 + other <= u64::MAX,
        ensures
            final(self).0 == old(self).0 + other,
    {
        self.0 = self.0 + other;
    }

    /// `self -= other`.
    pub fn sub_assign(&mut self, other: u64)
        requires
            old(self).0 >= other,
        ensures
            final(self).0 == old(self).0 - other,
    {
        self.0 = self.0 - other;
    }
}

/// Physical to virtual and back is the identity, and so is virtual to physical and back.
pub proof fn lemma_phys_virt_round_trip(pa: PhysicalAddr, va: VirtualAddr)
    ensures
        PhysicalAddr::from_spec(VirtualAddr::from_spec(pa)) == pa,
        VirtualAddr::from_spec(PhysicalAddr::from_spec(va)) == va,
        pa.0 + PAGE_OFF <= u64::MAX ==> VirtualAddr::from_spec(pa).0 == pa.0 + PAGE_OFF,
        va.0 >= PAGE_OFF ==> PhysicalAddr::from_spec(va).0 == va.0 - PAGE_OFF,
{
}

} // verus!
