//! The kernel heap: page allocation through the buddy system, and the slab
//! caches on top of it.

use vstd::prelude::*;

use vstd::arithmetic::power2::pow2;

use crate::mm::buddy::buddy::{
    frame_addr, frame_run_ok, holds_first, run_bytes, spec_alloc, spec_alloc_frame, spec_carve,
    spec_free, total_frames, Buddy,
};
use crate::mm::memory::Memory;
use crate::mm::{PageFrame, PhysicalAddr, PAGE_OFF};
use crate::sync::Spin;

pub mod double_linked_list;
pub mod heap;
pub mod slub;

pub use double_linked_list::DoubleLinkedList;
pub use heap::Slub;
pub use slub::MemCache;

verus! {

/// Hands the `len` bytes of physical memory at `addr` to the buddy allocator: the whole
/// frames in it, from the first that starts at or after `addr` up to the one that holds
/// `addr + len`. Hart `hart` takes the allocator's lock for that.
pub fn free_to_buddy(
    buddy: &mut Spin<Buddy<10>>,
    mem: &mut Memory,
    hart: usize,
    addr: PhysicalAddr,
    len: u64,
)
    requires
        old(buddy).free(),
        hart <= isize::MAX,
        old(buddy).data.wf(old(mem)),
        addr.0 + len <= u64::MAX,
        (addr.0 + 4095) / 4096 < (addr.0 + len) / 4096,
        old(mem).base <= (addr.0 + 4095) / 4096 * 4096,
        (addr.0 + len) / 4096 * 4096 <= old(mem).base + 8 * old(mem)@.len(),
        forall|x: int|
            (addr.0 + 4095) / 4096 * 4096 + PAGE_OFF <= x < (addr.0 + len) / 4096 * 4096 + PAGE_OFF
                ==> !old(buddy).data.is_free(x),
    ensures
        final(buddy).free(),
        final(buddy).data.wf(final(mem)),
        final(mem).same_shape(old(mem)),
        final(buddy).data@ == spec_carve(
            old(buddy).data@,
            (addr.0 + 4095) / 4096,
            (addr.0 + len) / 4096,
        ),
        forall|x: int|
            final(buddy).data.is_free(x) <==> (old(buddy).data.is_free(x) || (addr.0 + 4095) / 4096
                * 4096 + PAGE_OFF <= x < (addr.0 + len) / 4096 * 4096 + PAGE_OFF),
{
    let guard = buddy.lock(hart, false);
    buddy.data.add_free_memory(mem, addr.next_page_frame(), (addr + len).page_frame());
    buddy.unlock(guard);
}

/// Allocates a compound of `2^ord` frames under the allocator's lock, which hart `hart`
/// takes for the call: what `Buddy::alloc_pages` does.
pub fn alloc_pages<const ORDER: usize>(
    buddy: &mut Spin<Buddy<ORDER>>,
    mem: &mut Memory,
    hart: usize,
    ord: usize,
) -> (r: Option<PageFrame>)
    requires
        old(buddy).free(),
        hart <= isize::MAX,
        old(buddy).data.wf(old(mem)),
    ensures
        final(buddy).free(),
        final(buddy).data.wf(final(mem)),
        final(mem).same_shape(old(mem)),
        r == spec_alloc_frame(old(buddy).data@, ord as int),
        final(buddy).data@ == spec_alloc(old(buddy).data@, ord as int),
        r is Some <==> exists|k: int| ord <= k < ORDER && old(buddy).data.level(k).len() > 0,
        r is None ==> *final(mem) == *old(mem) && *final(buddy) == *old(buddy),
        r matches Some(f) ==> {
            &&& frame_run_ok(final(mem), f.0, ord as nat)
            &&& final(buddy).data.clear_of(frame_addr(f.0), ord as nat)
            &&& total_frames(final(buddy).data@) == total_frames(old(buddy).data@) - pow2(
                ord as nat,
            )
            &&& forall|x: int|
                final(buddy).data.is_free(x) <==> (old(buddy).data.is_free(x) && !(frame_addr(f.0)
                    <= x < frame_addr(f.0) + run_bytes(ord as nat)))
            &&& forall|x: int|
                frame_addr(f.0) <= x < frame_addr(f.0) + run_bytes(ord as nat) ==> old(
                    buddy,
                ).data.is_free(x)
        },
        forall|x: u64|
            old(mem).contains(x) && !old(buddy).data.is_free(x as int) ==> final(mem).word(x)
                == old(mem).word(x),
{
    let guard = buddy.lock(hart, false);
    let r = buddy.data.alloc_pages(mem, ord);
    buddy.unlock(guard);
    r
}

/// Gives the compound of `2^ord` frames at `frame` back under the allocator's lock,
/// which hart `hart` takes for the call: what `Buddy::free_pages` does.
pub fn free_pages<const ORDER: usize>(
    buddy: &mut Spin<Buddy<ORDER>>,
    mem: &mut Memory,
    hart: usize,
    frame: PageFrame,
    ord: usize,
)
    requires
        old(buddy).free(),
        hart <= isize::MAX,
        old(buddy).data.wf(old(mem)),
        ord < ORDER,
        frame_run_ok(old(mem), frame.0, ord as nat),
        old(buddy).data.clear_of(frame_addr(frame.0), ord as nat),
    ensures
        final(buddy).free(),
        final(buddy).data.wf(final(mem)),
        final(mem).same_shape(old(mem)),
        final(buddy).data@ == spec_free(old(buddy).data@, frame_addr(frame.0), ord as nat),
        total_frames(final(buddy).data@) == total_frames(old(buddy).data@) + pow2(ord as nat),
        forall|x: int|
            final(buddy).data.is_free(x) <==> (old(buddy).data.is_free(x) || frame_addr(frame.0)
                <= x < frame_addr(frame.0) + run_bytes(ord as nat)),
        exists|j: int|
            ord <= j < ORDER && holds_first(
                #[trigger] final(buddy).data.level(j),
                j as nat,
                frame_addr(frame.0),
                ord as nat,
            ),
        forall|x: u64|
            old(mem).contains(x) && !old(buddy).data.is_free(x as int) && !(frame_addr(frame.0)
                <= x < frame_addr(frame.0) + run_bytes(ord as nat)) ==> final(mem).word(x) == old(
                mem,
            ).word(x),
{
    let guard = buddy.lock(hart, false);
    buddy.data.free_pages(mem, frame, ord);
    buddy.unlock(guard);
}

} // verus!
