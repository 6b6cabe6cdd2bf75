//! Page frames and the per-frame descriptor table.

use vstd::prelude::*;
use vstd::std_specs::convert::FromSpec;

use super::allocator::DoubleLinkedList;
use super::buddy::LinkedList;
use super::memblock::{can_carve, carved, MemBlock};
use super::{VirtualAddr, PAGE_OFF};
use crate::sync::Spin;

verus! {

/// A physical page number, `phys >> 12`.
#[derive(Clone, Copy, PartialEq, Eq, Structural, PartialOrd, Ord, Debug)]
pub struct PageFrame(pub u64);

impl PageFrame {
    pub fn new(pfn: u64) -> (r: Self)
        ensures
            r.0 == pfn,
    {
        PageFrame(pfn)
    }

    pub fn get_ppn(&self) -> (r: u64)
        ensures
            r == self.0,
    {
        self.0
    }
}

/// The largest frame number whose byte address still fits a machine word.
pub const MAX_FRAME: u64 = 0xf_ffff_ffff_ffff;

impl From<PageFrame> for VirtualAddr {
    /// The address of the frame in the linear map: `(ppn << 12) + PAGE_OFF`, on machine words.
    fn from(frame: PageFrame) -> (r: Self) {
        VirtualAddr((frame.0 % 0x10_0000_0000_0000 * 4096).wrapping_add(PAGE_OFF))
    }
}

impl vstd::std_specs::convert::FromSpecImpl<PageFrame> for VirtualAddr {
    open spec fn obeys_from_spec() -> bool {
        true
    }

    open spec fn from_spec(frame: PageFrame) -> Self {
        VirtualAddr(((frame.0 % 0x10_0000_0000_0000 * 4096) as u64).wrapping_add(PAGE_OFF))
    }
}

impl PageFrame {
    /// Number of steps from `start` up to `end`, if `end` is not below `start`.
    pub fn steps_between(start: &Self, end: &Self) -> (r: Option<u64>)
        ensures
            r == (if start.0 <= end.0 {
                Some((end.0 - start.0) as u64)
            } else {
                None
            }),
    {
        if start.0 <= end.0 {
            Some(end.0 - start.0)
        } else {
            None
        }
    }

    /// The frame `count` steps after `start`, unless that overflows.
    pub fn forward_checked(start: Self, count: u64) -> (r: Option<Self>)
        ensures
            r == (if start.0 + count <= u64::MAX {
                Some(PageFrame((start.0 + count) as u64))
            } else {
                None
            }),
    {
        match start.0.checked_add(count) {
            Some(n) => Some(PageFrame(n)),
            None => None,
        }
    }

    /// The frame `count` steps before `start`, unless that underflows.
    pub fn backward_checked(start: Self, count: u64) -> (r: Option<Self>)
        ensures
            r == (if start.0 >= count {
                Some(PageFrame((start.0 - count) as u64))
            } else {
                None
            }),
    {
        match start.0.checked_sub(count) {
            Some(n) => Some(PageFrame(n)),
            None => None,
        }
    }
}

/// A frame's address in the linear map leads back to the frame.
pub proof fn lemma_frame_round_trip(frame: PageFrame)
    requires
        frame.0 <= MAX_FRAME,
    ensures
        VirtualAddr::from_spec(frame).0.wrapping_sub(PAGE_OFF) / 4096 == frame.0,
        frame.0 < 0x400_0000 ==> VirtualAddr::from_spec(frame).0 == frame.0 * 4096 + PAGE_OFF,
{
}

/// The number of the first frame of RAM, which the first descriptor stands for.
pub const PAGE_FRAME_OFFSET: u64 = 0x8_0000;

/// The bytes that one descriptor takes in the table that is carved out at boot.
pub const PAGE_DESC_BYTES: u64 = 80;

/// The two-byte field that a slab page reads as its number of objects and a raw
/// compound as its buddy order.
#[derive(Clone, Copy, PartialEq, Eq, Structural, Debug)]
pub struct SlubData {
    pub value: u16,
}

impl SlubData {
    /// The field, read as the number of objects of a slab page.
    pub fn objs(&self) -> (r: u16)
        ensures
            r == self.value,
    {
        self.value
    }

    /// The field, read as the buddy order of a raw compound.
    pub fn ord(&self) -> (r: u16)
        ensures
            r == self.value,
    {
        self.value
    }
}

/// The descriptor of one physical frame.
#[derive(Clone, Copy)]
pub struct Page {
    /// Hook into the partial list of the owning cache, under its lock.
    pub list_node: Spin<DoubleLinkedList>,
    /// The head frame of the compound that this frame belongs to.
    pub head_page: u64,
    /// The index of the owning cache, or `None` for a raw buddy allocation.
    pub slub: Option<usize>,
    /// The free objects of this slab page that no hart holds, under their lock.
    pub freelist: Spin<LinkedList>,
    /// The objects of this slab page that are not on `freelist`.
    pub inuse: u16,
    pub slub_data: SlubData,
}

impl Page {
    /// Nobody holds a lock of the descriptor.
    pub open spec fn unlocked(&self) -> bool {
        self.list_node.free() && self.freelist.free()
    }

    /// A descriptor that belongs to nothing.
    pub fn new() -> (r: Page)
        ensures
            r.head_page == 0,
            r.slub is None,
            r.freelist.data@ == Seq::<u64>::empty(),
            r.freelist.data.head == 0,
            r.inuse == 0,
            r.slub_data.value == 0,
            r.list_node.data == (DoubleLinkedList { next: 0, prev: 0 }),
            r.unlocked(),
    {
        Page {
            list_node: Spin::new(DoubleLinkedList::new()),
            head_page: 0,
            slub: None,
            freelist: Spin::new(LinkedList::new()),
            inuse: 0,
            slub_data: SlubData { value: 0 },
        }
    }
}

/// The descriptor table: one `Page` for each frame from `PAGE_FRAME_OFFSET` on.
pub struct Pages {
    pub pages: Vec<Page>,
}

impl View for Pages {
    type V = Seq<Page>;

    open spec fn view(&self) -> Seq<Page> {
        self.pages@
    }
}

impl Pages {
    /// Whether the table has a descriptor for `frame`.
    pub open spec fn has(&self, frame: u64) -> bool {
        PAGE_FRAME_OFFSET <= frame && frame - PAGE_FRAME_OFFSET < self@.len()
    }

    /// The descriptor of `frame`.
    pub open spec fn page(&self, frame: u64) -> Page {
        self@[frame - PAGE_FRAME_OFFSET]
    }

    /// Nobody holds a lock of a descriptor.
    pub open spec fn unlocked(&self) -> bool {
        forall|f: u64| self.has(f) ==> (#[trigger] self.page(f)).unlocked()
    }

    /// A table for `num_page` frames. The room for it, `num_page` descriptors of
    /// `PAGE_DESC_BYTES` each, is carved from `memblock` first; `None`, with nothing
    /// changed, where that overflows or `memblock` has no region that can hold it.
    pub fn init<const N: usize, const M: usize>(memblock: &mut MemBlock<N, M>, num_page: usize) -> (r:
        Option<Pages>)
        requires
            old(memblock).wf(),
        ensures
            final(memblock).wf(),
            final(memblock).reserved@ == old(memblock).reserved@,
            r is Some <==> num_page * PAGE_DESC_BYTES <= u64::MAX && exists|i: int|
                0 <= i < old(memblock).memory@.len() && can_carve(
                    #[trigger] old(memblock).memory@[i],
                    (num_page * PAGE_DESC_BYTES) as u64,
                ),
            r is None ==> final(memblock).memory@ == old(memblock).memory@,
            r is Some ==> exists|a: u64| #[trigger]
                carved(
                    old(memblock).memory@,
                    final(memblock).memory@,
                    (num_page * PAGE_DESC_BYTES) as u64,
                    a,
                ),
            r matches Some(t) ==> {
                &&& t@.len() == num_page
                &&& forall|i: int|
                    0 <= i < num_page ==> (#[trigger] t@[i]).head_page == 0 && t@[i].slub is None
                        && t@[i].inuse == 0 && t@[i].freelist.data@.len() == 0
                &&& t.unlocked()
            },
    {
        if num_page as u64 > u64::MAX / PAGE_DESC_BYTES {
            return None;
        }
        let size: u64 = num_page as u64 * PAGE_DESC_BYTES;
        match memblock.allocate(size) {
            None => None,
            Some(_) => {
                let mut pages: Vec<Page> = Vec::new();
                let mut i: usize = 0;
                while i < num_page
                    invariant
                        i <= num_page,
                        pages@.len() == i,
                        forall|k: int|
                            0 <= k < i ==> (#[trigger] pages@[k]).head_page == 0
                                && pages@[k].slub is None && pages@[k].inuse == 0
                                && pages@[k].freelist.data@.len() == 0 && pages@[k].unlocked(),
                    decreases num_page - i,
                {
                    pages.push(Page::new());
                    i = i + 1;
                }
                Some(Pages { pages })
            },
        }
    }

    /// Whether the table has a descriptor for `frame`.
    pub fn contains(&self, frame: PageFrame) -> (r: bool)
        ensures
            r == self.has(frame.0),
    {
        frame.0 >= PAGE_FRAME_OFFSET && frame.0 - PAGE_FRAME_OFFSET < self.pages.len() as u64
    }

    /// The frame that descriptor `idx` stands for.
    pub fn get_frame(&self, idx: usize) -> (r: PageFrame)
        requires
            idx < self@.len(),
            self@.len() <= 0x1000_0000_0000,
        ensures
            r.0 == idx + PAGE_FRAME_OFFSET,
            self.has(r.0),
    {
        PageFrame(idx as u64 + PAGE_FRAME_OFFSET)
    }
}

impl PageFrame {
    /// The descriptor of this frame.
    pub fn get_page<'a>(&self, pages: &'a Pages) -> (r: &'a Page)
        requires
            pages.has(self.0),
        ensures
            *r == pages.page(self.0),
    {
        let idx: u64 = self.0 - PAGE_FRAME_OFFSET;
        let n: usize = pages.pages.len();
        assert(idx < n);
        &pages.pages[idx as usize]
    }

    /// Replaces the descriptor of this frame.
    pub fn set_page(&self, pages: &mut Pages, page: Page)
        requires
            old(pages).has(self.0),
        ensures
            final(pages)@ == old(pages)@.update(self.0 - PAGE_FRAME_OFFSET, page),
    {
        let idx: u64 = self.0 - PAGE_FRAME_OFFSET;
        let n: usize = pages.pages.len();
        assert(idx < n);
        pages.pages[idx as usize] = page;
    }

    /// Makes this frame the head of a compound of `npages` frames: each of them
    /// records it as its head, so that the compound is found from any frame in it.
    pub fn set_head_page(&self, pages: &mut Pages, npages: u64)
        requires
            old(pages).has(self.0),
            self.0 - PAGE_FRAME_OFFSET + npages <= old(pages)@.len(),
        ensures
            final(pages)@.len() == old(pages)@.len(),
            forall|f: u64|
                self.0 <= f < self.0 + npages ==> #[trigger] final(pages).page(f) == (Page {
                    head_page: self.0,
                    ..old(pages).page(f)
                }),
            forall|f: u64|
                old(pages).has(f) && !(self.0 <= f < self.0 + npages) ==> #[trigger] final(pages).page(
                    f,
                ) == old(pages).page(f),
    {
        let idx: u64 = self.0 - PAGE_FRAME_OFFSET;
        let mut n: u64 = idx;
        let len: usize = pages.pages.len();
        while n < idx + npages
            invariant
                idx == self.0 - PAGE_FRAME_OFFSET,
                idx <= n <= idx + npages <= len,
                len == pages@.len() == old(pages)@.len(),
                forall|k: int|
                    idx <= k < n ==> #[trigger] pages@[k] == (Page {
                        head_page: self.0,
                        ..old(pages)@[k]
                    }),
                forall|k: int|
                    0 <= k < len && !(idx <= k < n) ==> #[trigger] pages@[k] == old(pages)@[k],
            decreases idx + npages - n,
        {
            let mut page: Page = pages.pages[n as usize];
            page.head_page = self.0;
            pages.pages[n as usize] = page;
            n = n + 1;
        }
    }

    /// The head frame of the compound that this frame belongs to.
    pub fn get_head_page(&self, pages: &Pages) -> (r: PageFrame)
        requires
            pages.has(self.0),
        ensures
            r.0 == pages.page(self.0).head_page,
    {
        PageFrame(self.get_page(pages).head_page)
    }
}

/// After a frame was made the head of a compound, the head is found from every frame of
/// the compound.
pub proof fn lemma_head_page(before: &Pages, after: &Pages, head: PageFrame, npages: u64, f: u64)
    requires
        forall|g: u64|
            head.0 <= g < head.0 + npages ==> #[trigger] after.page(g) == (Page {
                head_page: head.0,
                ..before.page(g)
            }),
        head.0 <= f < head.0 + npages,
    ensures
        after.page(f).head_page == head.0,
{
}

} // verus!
