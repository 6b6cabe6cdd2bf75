//! The stack of a thread: four frames from the buddy allocator.

use vstd::prelude::*;

use crate::mm::buddy::buddy::{
    frame_addr, frame_run_ok, run_bytes, spec_alloc, spec_alloc_frame, spec_free, total_frames, Buddy,
};
use crate::mm::memory::Memory;
use crate::mm::PageFrame;
use crate::sync::Spin;

verus! {

/// The order of a stack: 16 KiB.
pub const STACK_ORD: usize = 2;

/// A stack.
pub struct Stack {
    pub pages: PageFrame,
}

impl Stack {
    /// A new stack: four frames in a row from the buddy allocator, which has them.
    pub fn new<const ORDER: usize>(
        buddy: &mut Spin<Buddy<ORDER>>,
        hart: usize,
        mem: &mut Memory,
    ) -> (r: Self)
        requires
            old(buddy).free(),
            hart <= isize::MAX,
            old(buddy).data.wf(old(mem)),
            spec_alloc_frame(old(buddy).data@, 2) is Some,
        ensures
            final(buddy).free(),
            final(buddy).data.wf(final(mem)),
            final(mem).same_shape(old(mem)),
            final(buddy).data@ == spec_alloc(old(buddy).data@, 2),
            total_frames(final(buddy).data@) == total_frames(old(buddy).data@) - 4,
            Some(r.pages) == spec_alloc_frame(old(buddy).data@, 2),
            r.pages.0 % 4 == 0,
            2 < ORDER,
            frame_run_ok(final(mem), r.pages.0, 2),
            final(buddy).data.clear_of(frame_addr(r.pages.0), 2),
            forall|x: int|
                final(buddy).data.is_free(x) <==> (old(buddy).data.is_free(x) && !(frame_addr(
                    r.pages.0,
                ) <= x < frame_addr(r.pages.0) + run_bytes(2))),
    {
        proof {
            vstd::arithmetic::power2::lemma2_to64();
        }
        let pages: PageFrame = crate::mm::allocator::alloc_pages(buddy, mem, hart, STACK_ORD).unwrap();
        Stack { pages }
    }

    /// Gives the frames of the stack back.
    pub fn release<const ORDER: usize>(
        self,
        buddy: &mut Spin<Buddy<ORDER>>,
        hart: usize,
        mem: &mut Memory,
    )
        requires
            old(buddy).free(),
            hart <= isize::MAX,
            old(buddy).data.wf(old(mem)),
            2 < ORDER,
            frame_run_ok(old(mem), self.pages.0, 2),
            old(buddy).data.clear_of(frame_addr(self.pages.0), 2),
        ensures
            final(buddy).free(),
            final(buddy).data.wf(final(mem)),
            final(mem).same_shape(old(mem)),
            final(buddy).data@ == spec_free(old(buddy).data@, frame_addr(self.pages.0), 2),
            total_frames(final(buddy).data@) == total_frames(old(buddy).data@) + 4,
            forall|x: int|
                final(buddy).data.is_free(x) <==> (old(buddy).data.is_free(x) || frame_addr(
                    self.pages.0,
                ) <= x < frame_addr(self.pages.0) + run_bytes(2)),
    {
        proof {
            vstd::arithmetic::power2::lemma2_to64();
        }
        crate::mm::allocator::free_pages(buddy, mem, hart, self.pages, STACK_ORD);
    }
}

} // verus!
