//! Bringing the memory subsystem up.
//!
//! The boot hart learns where RAM is, sets the kernel image aside, carves the
//! descriptor table out of what is left, and hands the rest to the buddy
//! allocator. From then on the heap is in order.

use vstd::prelude::*;

use super::allocator::heap::Slub;
use super::allocator::slub::pages_cover;
use super::buddy::buddy::Buddy;
use super::memblock::{can_carve, carved, spec_insert, spec_reserve, MemBlock, MemBlockRegion};
use super::memory::{Memory, LINEAR_LIMIT};
use super::page::{Pages, PAGE_DESC_BYTES};
use super::{PageFrame, PhysicalAddr, VirtualAddr, MEMORY_OFFSET, PAGE_OFF};
use crate::sync::Spin;

verus! {

/// The memory subsystem after boot.
pub struct MemoryCore {
    pub memblock: MemBlock<128, 128>,
    pub pages: Pages,
    pub buddy: Spin<Buddy<10>>,
    pub mem: Memory,
    pub heap: Slub,
    /// The regions that memblock had left, which went to the buddy allocator.
    pub freed: Vec<MemBlockRegion>,
}

/// Why the memory subsystem could not be brought up.
#[derive(Clone, Copy, PartialEq, Eq, Structural, Debug)]
pub enum InitError {
    /// RAM does not start at `MEMORY_OFFSET`, or the kernel ends before it.
    Misplaced,
    /// RAM runs past the last address.
    Overlap,
    /// The kernel image does not lie in RAM.
    Unsupported,
    /// There is no room for the descriptor table.
    NoPages,
    /// RAM lies out of reach of the linear map.
    OutOfReach,
}

/// The first whole frame of a region.
pub open spec fn first_frame(r: MemBlockRegion) -> int {
    (r.base.0 + 4095) / 4096
}

/// One past the last whole frame of a region.
pub open spec fn end_frame(r: MemBlockRegion) -> int {
    (r.base.0 + r.size) / 4096
}

/// Whether a region has a whole frame and its whole frames lie in the `words` words of
/// memory at physical address `base`.
pub open spec fn usable_in(base: u64, words: nat, r: MemBlockRegion) -> bool {
    &&& first_frame(r) < end_frame(r)
    &&& base <= first_frame(r) * 4096
    &&& end_frame(r) * 4096 <= base + 8 * words
}

/// Whether a region has a whole frame and its whole frames lie in `mem`.
pub open spec fn usable(mem: &Memory, r: MemBlockRegion) -> bool {
    usable_in(mem.base, mem@.len(), r)
}

/// The free lists after the whole frames of the usable regions among the first `n` of
/// `regions` were carved into runs, lowest region first.
pub open spec fn spec_free_regions(
    lists: Seq<Seq<u64>>,
    base: u64,
    words: nat,
    regions: Seq<MemBlockRegion>,
    n: nat,
) -> Seq<Seq<u64>>
    decreases n,
{
    if n == 0 {
        lists
    } else {
        let before = spec_free_regions(lists, base, words, regions, (n - 1) as nat);
        if usable_in(base, words, regions[n - 1]) {
            super::buddy::buddy::spec_carve(
                before,
                first_frame(regions[n - 1]),
                end_frame(regions[n - 1]),
            )
        } else {
            before
        }
    }
}

/// Whether byte address `x` lies in a whole frame of a usable region among the first
/// `n` of `regions`.
pub open spec fn in_freed(mem: &Memory, regions: Seq<MemBlockRegion>, n: int, x: int) -> bool {
    exists|i: int|
        0 <= i < n && usable(mem, #[trigger] regions[i]) && first_frame(regions[i]) * 4096
            + PAGE_OFF <= x < end_frame(regions[i]) * 4096 + PAGE_OFF
}

/// The one region of RAM.
pub open spec fn spec_ram(ram: PhysicalAddr, len: u64) -> MemBlockRegion {
    MemBlockRegion { base: ram, size: len }
}

/// The kernel image: from the start of RAM up to the end of the kernel.
pub open spec fn spec_image(kernel_end: VirtualAddr) -> MemBlockRegion {
    MemBlockRegion {
        base: PhysicalAddr(MEMORY_OFFSET),
        size: (kernel_end.0 - PAGE_OFF - MEMORY_OFFSET) as u64,
    }
}

/// What memblock holds as available once RAM was added and the kernel image set
/// aside.
pub open spec fn spec_after_image(ram: PhysicalAddr, len: u64, kernel_end: VirtualAddr) -> Seq<
    MemBlockRegion,
> {
    spec_reserve(
        spec_insert(Seq::<MemBlockRegion>::empty(), spec_ram(ram, len), 0),
        spec_image(kernel_end),
    )
}

/// Hands the whole frames of each usable region to the buddy allocator, lowest region
/// first.
pub fn free_regions(
    buddy: &mut Spin<Buddy<10>>,
    mem: &mut Memory,
    hart: usize,
    regions: &Vec<MemBlockRegion>,
)
    requires
        old(buddy).free(),
        hart <= isize::MAX,
        old(buddy).data.wf(old(mem)),
        super::memblock::regions_wf(regions@),
        forall|x: int| !old(buddy).data.is_free(x),
    ensures
        final(buddy).free(),
        final(buddy).data.wf(final(mem)),
        final(mem).same_shape(old(mem)),
        final(buddy).data@ == spec_free_regions(
            old(buddy).data@,
            old(mem).base,
            old(mem)@.len(),
            regions@,
            regions@.len(),
        ),
        forall|x: int|
            final(buddy).data.is_free(x) <==> in_freed(
                final(mem),
                regions@,
                regions@.len() as int,
                x,
            ),
{
    let mut i: usize = 0;
    while i < regions.len()
        invariant
            i <= regions@.len(),
            buddy.free(),
            hart <= isize::MAX,
            buddy.data.wf(mem),
            mem.same_shape(old(mem)),
            super::memblock::regions_wf(regions@),
            forall|x: int| buddy.data.is_free(x) <==> in_freed(mem, regions@, i as int, x),
            buddy.data@ == spec_free_regions(
                old(buddy).data@,
                old(mem).base,
                old(mem)@.len(),
                regions@,
                i as nat,
            ),
        decreases regions@.len() - i,
    {
        let r: MemBlockRegion = regions[i];
        let start: u64 = (r.base.0 / 4096) + if r.base.0 % 4096 == 0 {
            0
        } else {
            1
        };
        assert(r.end() <= u64::MAX);
        let end: u64 = (r.base.0 + r.size) / 4096;
        let ghost before = *buddy;
        let ghost m0 = *mem;
        if start < end && mem.has_frame(start) && mem.has_frame(end - 1) {
            proof {
                assert(usable(mem, r));
                assert forall|x: int|
                    start * 4096 + PAGE_OFF <= x < end * 4096 + PAGE_OFF implies !buddy.data.is_free(
                    x,
                ) by {
                    if buddy.data.is_free(x) {
                        let j = choose|j: int|
                            0 <= j < i && usable(mem, #[trigger] regions@[j]) && first_frame(
                                regions@[j],
                            ) * 4096 + PAGE_OFF <= x < end_frame(regions@[j]) * 4096 + PAGE_OFF;
                        assert(regions@[j].end() <= regions@[i as int].base.0);
                    }
                }
            }
            super::allocator::free_to_buddy(buddy, mem, hart, r.base, r.size);
            proof {
                assert forall|x: int| buddy.data.is_free(x) <==> in_freed(
                    mem,
                    regions@,
                    i + 1,
                    x,
                ) by {
                    if in_freed(mem, regions@, i + 1, x) {
                        let j = choose|j: int|
                            0 <= j < i + 1 && usable(mem, #[trigger] regions@[j]) && first_frame(
                                regions@[j],
                            ) * 4096 + PAGE_OFF <= x < end_frame(regions@[j]) * 4096 + PAGE_OFF;
                        if j < i {
                            assert(usable(&m0, regions@[j]));
                            assert(in_freed(&m0, regions@, i as int, x));
                        }
                    }
                    if before.data.is_free(x) {
                        let j = choose|j: int|
                            0 <= j < i && usable(&m0, #[trigger] regions@[j]) && first_frame(
                                regions@[j],
                            ) * 4096 + PAGE_OFF <= x < end_frame(regions@[j]) * 4096 + PAGE_OFF;
                        assert(usable(mem, regions@[j]));
                    }
                    if start * 4096 + PAGE_OFF <= x < end * 4096 + PAGE_OFF {
                        assert(usable(mem, regions@[i as int]));
                    }
                }
            }
        } else {
            proof {
                assert(!usable(mem, r));
                assert forall|x: int| buddy.data.is_free(x) <==> in_freed(
                    mem,
                    regions@,
                    i + 1,
                    x,
                ) by {
                    if in_freed(mem, regions@, i + 1, x) {
                        let j = choose|j: int|
                            0 <= j < i + 1 && usable(mem, #[trigger] regions@[j]) && first_frame(
                                regions@[j],
                            ) * 4096 + PAGE_OFF <= x < end_frame(regions@[j]) * 4096 + PAGE_OFF;
                        assert(j < i);
                    }
                    if in_freed(mem, regions@, i as int, x) {
                        let j = choose|j: int|
                            0 <= j < i && usable(mem, #[trigger] regions@[j]) && first_frame(
                                regions@[j],
                            ) * 4096 + PAGE_OFF <= x < end_frame(regions@[j]) * 4096 + PAGE_OFF;
                    }
                }
            }
        }
        i = i + 1;
    }
}

/// Brings the memory subsystem up for the RAM of `len` bytes at `ram` and a kernel
/// that ends at `kernel_end`: RAM goes into memblock, the kernel image is set aside,
/// the descriptor table for all frames of RAM is carved out of what is left, and the
/// rest goes to the buddy allocator.
pub fn init_early(ram: PhysicalAddr, len: u64, kernel_end: VirtualAddr, hart: usize) -> (r: Result<
    MemoryCore,
    InitError,
>)
    requires
        hart <= isize::MAX,
    ensures
        match r {
            Ok(c) => {
                &&& c.heap.wf(&c.pages, &c.mem, &c.buddy.data)
                &&& c.buddy.free()
                &&& c.buddy.data.wf(&c.mem)
                &&& c.memblock.wf()
                &&& c.memblock.memory@ == Seq::<MemBlockRegion>::empty()
                &&& c.mem.base == ram.0
                &&& c.mem@.len() == len / 4096 * 512
                &&& c.pages@.len() == len / 4096
                &&& exists|a: u64| #[trigger]
                    carved(
                        spec_after_image(ram, len, kernel_end),
                        c.freed@,
                        (len / 4096 * PAGE_DESC_BYTES) as u64,
                        a,
                    )
                &&& forall|x: int|
                    c.buddy.data.is_free(x) <==> in_freed(&c.mem, c.freed@, c.freed@.len() as int, x)
                &&& c.buddy.data@ == spec_free_regions(
                    Seq::new(10, |k: int| Seq::<u64>::empty()),
                    ram.0,
                    (len / 4096 * 512) as nat,
                    c.freed@,
                    c.freed@.len(),
                )
                &&& forall|ptr: u64| !c.heap.allocated(ptr)
            },
            Err(e) => e == spec_init_error(ram, len, kernel_end),
        },
        r is Ok <==> spec_init_ok(ram, len, kernel_end),
{
    if ram.0 != MEMORY_OFFSET || kernel_end.0 < PAGE_OFF + MEMORY_OFFSET {
        return Err(InitError::Misplaced);
    }
    let mut memblock: MemBlock<128, 128> = MemBlock::new();
    if !memblock.can_add(ram, len) {
        proof {
            lemma_first_add(&memblock, ram, len);
        }
        return Err(InitError::Overlap);
    }
    proof {
        lemma_first_add(&memblock, ram, len);
    }
    memblock.add(ram, len);
    let image: u64 = kernel_end.0 - PAGE_OFF - MEMORY_OFFSET;
    proof {
        lemma_image(&memblock, ram, len, kernel_end);
    }
    if !memblock.can_reserve(PhysicalAddr(MEMORY_OFFSET), image) {
        return Err(InitError::Unsupported);
    }
    memblock.reserve(PhysicalAddr(MEMORY_OFFSET), image);
    assert(memblock.memory@ == spec_after_image(ram, len, kernel_end));
    let frames: u64 = len / 4096;
    let mut mem: Memory = match Memory::new(ram, frames * 4096) {
        Some(m) => m,
        None => {
            return Err(InitError::OutOfReach);
        },
    };
    if frames > usize::MAX as u64 {
        return Err(InitError::NoPages);
    }
    let ghost left = memblock.memory@;
    let pages: Pages = match Pages::init(&mut memblock, frames as usize) {
        Some(p) => p,
        None => {
            proof {
                assert(frames * PAGE_DESC_BYTES <= u64::MAX);
            }
            return Err(InitError::NoPages);
        },
    };
    let mut buddy: Spin<Buddy<10>> = Spin::new(Buddy::new());
    proof {
        assert forall|x: int| !buddy.data.is_free(x) by {
            if buddy.data.is_free(x) {
                let (k, b) = choose|k: int, b: u64|
                    0 <= k < 10 && #[trigger] buddy.data.level(k).contains(b) && b <= x < b
                        + super::buddy::buddy::run_bytes(k as nat);
            }
        }
    }
    let freed: Vec<MemBlockRegion> = memblock.free_all();
    assert(buddy.data@ =~= Seq::new(10, |k: int| Seq::<u64>::empty()));
    free_regions(&mut buddy, &mut mem, hart, &freed);
    let heap: Slub = Slub::new();
    proof {
        assert(pages_cover(&pages, &mem));
        assert(heap.wf(&pages, &mem, &buddy.data));
        assert(mem@.len() == len / 4096 * 512);
        assert(pages@.len() == len / 4096);
    }
    let core = MemoryCore { memblock, pages, buddy, mem, heap, freed };
    proof {
        let a = choose|a: u64| #[trigger]
            carved(left, core.freed@, ((frames as usize) * PAGE_DESC_BYTES) as u64, a);
        assert(carved(
            spec_after_image(ram, len, kernel_end),
            core.freed@,
            (len / 4096 * PAGE_DESC_BYTES) as u64,
            a,
        ));
    }
    Ok(core)
}

/// Whether the memory subsystem comes up: RAM starts at `MEMORY_OFFSET` and ends within
/// reach of the linear map, the kernel image lies in it, and what is left has room for
/// the descriptor table.
pub open spec fn spec_init_ok(ram: PhysicalAddr, len: u64, kernel_end: VirtualAddr) -> bool {
    &&& ram.0 == MEMORY_OFFSET
    &&& kernel_end.0 >= PAGE_OFF + MEMORY_OFFSET
    &&& ram.0 + len <= u64::MAX
    &&& kernel_end.0 - PAGE_OFF - MEMORY_OFFSET <= len
    &&& len / 4096 <= usize::MAX
    &&& exists|i: int|
        0 <= i < spec_after_image(ram, len, kernel_end).len() && can_carve(
            #[trigger] spec_after_image(ram, len, kernel_end)[i],
            (len / 4096 * PAGE_DESC_BYTES) as u64,
        )
    &&& ram.0 + len / 4096 * 4096 <= LINEAR_LIMIT
}

/// Why the memory subsystem does not come up, the first reason in the order of the
/// steps.
pub open spec fn spec_init_error(ram: PhysicalAddr, len: u64, kernel_end: VirtualAddr) -> InitError {
    if ram.0 != MEMORY_OFFSET || kernel_end.0 < PAGE_OFF + MEMORY_OFFSET {
        InitError::Misplaced
    } else if ram.0 + len > u64::MAX {
        InitError::Overlap
    } else if kernel_end.0 - PAGE_OFF - MEMORY_OFFSET > len {
        InitError::Unsupported
    } else if ram.0 + len / 4096 * 4096 > LINEAR_LIMIT {
        InitError::OutOfReach
    } else {
        InitError::NoPages
    }
}

/// RAM can be added to an empty memblock unless it runs past the last address.
pub proof fn lemma_first_add(mb: &MemBlock<128, 128>, ram: PhysicalAddr, len: u64)
    requires
        mb.wf(),
        mb.memory@ == Seq::<MemBlockRegion>::empty(),
        mb.reserved@ == Seq::<MemBlockRegion>::empty(),
    ensures
        mb.spec_can_add(spec_ram(ram, len)) == (ram.0 + len <= u64::MAX),
        super::memblock::spec_pos(mb.memory@, ram.0) == 0,
{
    assert(mb.memory@.len() == mb.memory.len);
}

/// The kernel image can be set aside in a memblock that holds RAM alone exactly if it
/// lies in RAM.
pub proof fn lemma_image(mb: &MemBlock<128, 128>, ram: PhysicalAddr, len: u64, kernel_end: VirtualAddr)
    requires
        mb.wf(),
        ram.0 == MEMORY_OFFSET,
        kernel_end.0 >= PAGE_OFF + MEMORY_OFFSET,
        mb.memory@ == spec_insert(Seq::<MemBlockRegion>::empty(), spec_ram(ram, len), 0),
        mb.reserved@ == Seq::<MemBlockRegion>::empty(),
    ensures
        mb.spec_can_reserve(spec_image(kernel_end)) == (kernel_end.0 - PAGE_OFF - MEMORY_OFFSET
            <= len),
{
    let s = mb.memory@;
    assert(s.len() == 1 && s[0] == spec_ram(ram, len));
    super::memblock::lemma_spec_pos(s, MEMORY_OFFSET, 0);
    assert(s[0].end() <= u64::MAX);
}

} // verus!
