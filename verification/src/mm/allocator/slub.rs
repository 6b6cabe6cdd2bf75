//! Slab allocator.
//!
//! A `MemCache` hands out objects of one size. It carves them from compound
//! pages that it takes from the buddy allocator: each hart has a current slab
//! page and a list of its free objects, and the pages that have free objects
//! which no hart holds wait on the cache's partial list.
//!
//! The fast paths touch the state of one hart only. The slow paths take locks: that
//! of the cache's node for the partial list and its count, that of a page's free list
//! for its objects, that of a page's hook to link and unlink it, and, through
//! `alloc_pages` and `free_pages`, that of the buddy allocator. A cache in order holds
//! none of them between calls.

use vstd::arithmetic::power2::pow2;
use vstd::prelude::*;

use super::double_linked_list::{dll_wf, DoubleLinkedList};
use crate::mm::buddy::buddy::{frame_run_ok, run_bytes, Buddy};
use crate::mm::buddy::LinkedList;
use crate::mm::memory::Memory;
use crate::mm::buddy::buddy::{frame_addr, index_in, spec_alloc, spec_alloc_frame, spec_free, total_frames};
use crate::mm::page::{Page, Pages, SlubData, PAGE_FRAME_OFFSET};
use crate::mm::{spec_align_up, PageFrame, PAGE_OFF};
use crate::sync::spin::NO_OWNER;
use crate::sync::{PerCpu, Spin, SpinGuard, NCPU};

verus! {

/// A slab holds at least this many objects, the order allowing.
pub const SLUB_MIN_OBJ: u64 = 16;

/// The highest order of a slab: 8 frames.
pub const SLUB_MAX_ORD: u16 = 3;

/// The smaller of two.
pub fn min(a: u16, b: u16) -> (r: u16)
    ensures
        r == (if a > b {
            b
        } else {
            a
        }),
{
    if a > b {
        b
    } else {
        a
    }
}

/// The slab state of one hart: the slab page that it draws from, and the free objects
/// of that page that it holds.
#[derive(Clone, Copy)]
pub struct MemCacheCpu {
    pub page: Option<PageFrame>,
    pub freelist: LinkedList,
}

/// The address of the first free object that a hart holds, and the objects that stay:
/// the fast path of allocation. The address is 0 where the hart holds none.
pub open spec fn spec_try_alloc(list: Seq<u64>) -> (u64, Seq<u64>) {
    if list.len() == 0 {
        (0, list)
    } else {
        (list[0], list.drop_first())
    }
}

/// The objects that a hart holds after `ptr` of slab page `page` came back to it, where
/// `page` is the slab page that it draws from: the fast path of freeing.
pub open spec fn spec_try_dealloc(cur: Option<PageFrame>, list: Seq<u64>, ptr: u64, page: PageFrame) -> (
    bool,
    Seq<u64>,
) {
    if cur == Some(page) {
        (true, seq![ptr] + list)
    } else {
        (false, list)
    }
}

/// An object that came back on the fast path is the next that the fast path hands out.
pub proof fn lemma_fast_path_round_trip(
    cur: Option<PageFrame>,
    list: Seq<u64>,
    ptr: u64,
    page: PageFrame,
)
    requires
        cur == Some(page),
    ensures
        spec_try_dealloc(cur, list, ptr, page).0,
        spec_try_alloc(spec_try_dealloc(cur, list, ptr, page).1) == (ptr, list),
{
    assert((seq![ptr] + list).drop_first() =~= list);
}

impl MemCacheCpu {
    /// A hart that draws from no page yet.
    pub fn new() -> (r: Self)
        ensures
            r.page is None,
            r.freelist@ == Seq::<u64>::empty(),
            r.freelist.head == 0,
    {
        MemCacheCpu { page: None, freelist: LinkedList::new() }
    }

    /// Takes the first free object that this hart holds; 0 where it holds none.
    pub fn try_alloc(&mut self, mem: &Memory) -> (r: u64)
        requires
            mem.wf(),
            old(self).freelist.wf(mem),
        ensures
            final(self).freelist.wf(mem),
            final(self).page == old(self).page,
            (r, final(self).freelist@) == spec_try_alloc(old(self).freelist@),
            r != 0 <==> old(self).freelist@.len() > 0,
    {
        proof {
            self.freelist.lemma_head(mem);
            if self.freelist@.len() > 0 {
                assert(mem.contains(self.freelist@[0]));
            }
        }
        match self.freelist.pop(mem) {
            Some(node) => node,
            None => 0,
        }
    }

    /// Takes `ptr` back where `page`, the head frame of its slab, is the page that this
    /// hart draws from, and says whether it did.
    pub fn try_dealloc(&mut self, mem: &mut Memory, ptr: u64, page: PageFrame) -> (r: bool)
        requires
            old(mem).wf(),
            old(self).freelist.wf(old(mem)),
            old(mem).contains(ptr),
            !old(self).freelist@.contains(ptr),
        ensures
            final(mem).wf(),
            final(mem).same_shape(old(mem)),
            final(self).freelist.wf(final(mem)),
            final(self).page == old(self).page,
            (r, final(self).freelist@) == spec_try_dealloc(
                old(self).page,
                old(self).freelist@,
                ptr,
                page,
            ),
            !r ==> *final(mem) == *old(mem),
            forall|a: u64|
                old(mem).contains(a) && a != ptr ==> final(mem).word(a) == old(mem).word(a),
    {
        if let Some(f) = self.page {
            if f.0 == page.0 {
                self.freelist.push(mem, ptr);
                return true;
            }
        }
        false
    }
}

/// The state that the harts share: the slab pages that have free objects which no hart
/// holds, and how many they are.
pub struct MemCacheNode {
    pub nr_partial: usize,
    pub partial: DoubleLinkedList,
    /// The head frames of the pages on the partial list, first to last.
    pub frames: Ghost<Seq<u64>>,
}

impl MemCacheNode {
    /// No page.
    pub fn new() -> (r: Self)
        ensures
            r.nr_partial == 0,
            r.partial == (DoubleLinkedList { next: 0, prev: 0 }),
            r.frames@ == Seq::<u64>::empty(),
    {
        MemCacheNode { nr_partial: 0, partial: DoubleLinkedList::new(), frames: Ghost(Seq::empty()) }
    }
}

/// Who holds an object of a slab.
pub enum Owner {
    /// It is allocated.
    User,
    /// It is on the free list of this hart.
    Cpu(int),
    /// It is on the free list of its slab page.
    Page,
}

/// What the cache knows of an object: the head frame of its slab, its index in the
/// slab, and who holds it.
pub struct ObjState {
    pub slab: u64,
    pub index: int,
    pub owner: Owner,
}

/// The order of the slabs of a cache for objects of `size` bytes: the lowest at which a
/// slab holds `SLUB_MIN_OBJ` objects, and `SLUB_MAX_ORD` at most.
pub open spec fn spec_cache_ord(size: u64) -> u16 {
    if size * 16 <= 4096 {
        0
    } else if size * 16 <= 8192 {
        1
    } else if size * 16 <= 16384 {
        2
    } else {
        3
    }
}

/// A cache of objects of one size.
pub struct MemCache {
    pub cpu_slub: PerCpu<MemCacheCpu>,
    pub node: Spin<MemCacheNode>,
    /// The size of an object.
    pub size: u64,
    /// The order of a slab.
    pub ord: u16,
    /// The objects in a slab.
    pub nobjs: u16,
    /// The partial pages that are kept though all their objects are free.
    pub min_partial: usize,
    /// The index of this cache in the table of caches, which its pages record.
    pub id: usize,
    /// The head frames of the slabs of this cache.
    pub slabs: Ghost<Set<u64>>,
    /// The objects of the slabs of this cache, by address.
    pub objs: Ghost<Map<u64, ObjState>>,
    /// For each slab the objects of it that are not on the free list of its page.
    pub outs: Ghost<Map<u64, Set<u64>>>,
}

/// Taking the first object off the free list of a hart and marking it allocated keeps
/// the cache in order.
pub proof fn lemma_fast_alloc(
    before: &MemCache,
    after: &MemCache,
    pages: &Pages,
    mem: &Memory,
    hart: int,
    r: u64,
)
    requires
        before.wf(pages, mem),
        0 <= hart < NCPU,
        before.cpu(hart).freelist@.len() > 0,
        r == before.cpu(hart).freelist@[0],
        after.cpu_slub.data@ == before.cpu_slub.data@.update(
            hart,
            MemCacheCpu { page: before.cpu(hart).page, freelist: after.cpu(hart).freelist },
        ),
        after.cpu(hart).freelist@ == before.cpu(hart).freelist@.drop_first(),
        after.cpu(hart).freelist.wf(mem),
        after.objs@ == before.objs@.insert(
            r,
            ObjState { owner: Owner::User, ..before.objs@[r] },
        ),
        after.node == before.node,
        after.size == before.size,
        after.ord == before.ord,
        after.nobjs == before.nobjs,
        after.min_partial == before.min_partial,
        after.id == before.id,
        after.slabs == before.slabs,
        after.outs == before.outs,
    ensures
        after.wf(pages, mem),
        !before.allocated(r),
        after.allocated(r),
        forall|o: u64| o != r ==> after.allocated(o) == before.allocated(o),
{
    reveal(MemCache::wf);
    reveal(MemCache::core_ok);
    let l0 = before.cpu(hart).freelist@;
    let l1 = after.cpu(hart).freelist@;
    assert(before.cpu_ok(mem, hart));
    assert(l0.contains(l0[0]));
    assert(before.obj_ok(r));
    assert(l0.no_duplicates());
    assert forall|o: u64| l1.contains(o) implies l0.contains(o) && o != r by {
        let i = choose|i: int| 0 <= i < l1.len() && l1[i] == o;
        assert(l0[i + 1] == o);
    }
    assert forall|f: u64| #[trigger] after.slabs@.contains(f) implies after.slab_ok(
        pages,
        mem,
        f,
    ) by {
        assert(before.slab_ok(pages, mem, f));
        assert forall|o: u64| #[trigger] pages.page(f).freelist.data@.contains(o) implies o != r by {
            assert(before.objs@[o].owner is Page);
        }
    }
    assert forall|o: u64| #[trigger] after.objs@.contains_key(o) implies after.obj_ok(o) by {
        if o != r {
            assert(before.obj_ok(o));
        }
    }
    assert forall|h: int| 0 <= h < NCPU implies #[trigger] after.cpu_ok(mem, h) by {
        assert(before.cpu_ok(mem, h));
        if h != hart {
            assert(after.cpu(h) == before.cpu(h));
            assert forall|o: u64| #[trigger] after.cpu(h).freelist@.contains(o) implies o != r by {
                assert(before.objs@[o].owner == Owner::Cpu(h));
            }
        }
    }
}

/// Object `i` of `n` objects of `size` bytes lies within the `n * size` bytes of all,
/// at a multiple of 8 where `size` is one.
pub proof fn lemma_obj_bounds(size: int, n: int, i: int)
    requires
        size > 0,
        0 <= i < n,
    ensures
        0 <= i * size,
        i * size + size <= n * size,
        size % 8 == 0 ==> (i * size) % 8 == 0,
{
    assert(0 <= i * size && i * size + size <= n * size) by (nonlinear_arith)
        requires
            size > 0,
            0 <= i < n,
    ;
    if size % 8 == 0 {
        let q = size / 8;
        assert(size == q * 8);
        assert(i * (q * 8) == (i * q) * 8) by (nonlinear_arith);
        crate::mm::buddy::buddy::lemma_multiple(i * size, i * q, 8);
    }
}

/// Of two objects the one with the lower index ends before the other starts.
pub proof fn lemma_obj_order(size: int, i: int, j: int)
    requires
        size > 0,
        0 <= i < j,
    ensures
        i * size + size <= j * size,
{
    assert(i * size + size <= j * size) by (nonlinear_arith)
        requires
            size > 0,
            0 <= i < j,
    ;
}

/// An object that the cache knows of is a word of memory inside a slab of the cache.
pub proof fn lemma_obj_owned(c: &MemCache, pages: &Pages, mem: &Memory, o: u64)
    requires
        c.wf(pages, mem),
        c.objs@.contains_key(o),
    ensures
        c.owns(o as int),
        mem.contains(o),
        c.slabs@.contains(c.objs@[o].slab),
        c.objs@[o].slab * 4096 + PAGE_OFF <= o,
        o + c.size <= c.objs@[o].slab * 4096 + PAGE_OFF + run_bytes(c.ord as nat),
{
    reveal(MemCache::wf);
    reveal(MemCache::core_ok);
    let f = c.objs@[o].slab;
    let i = c.objs@[o].index;
    reveal(crate::mm::memory::addr_ok);
    assert(c.obj_ok(o));
    assert(c.slab_ok(pages, mem, f));
    lemma_obj_bounds(c.size as int, c.nobjs as int, i);
    crate::mm::buddy::buddy::lemma_frame_run(mem, f, c.ord as nat);
    crate::mm::buddy::buddy::lemma_run_bytes(c.ord as nat);
}

/// From the address of an object the descriptor table leads to its slab and its cache:
/// the frame that holds the address names the head frame of the slab, and the
/// descriptor of the head frame names the cache.
pub proof fn lemma_obj_frame(c: &MemCache, pages: &Pages, mem: &Memory, o: u64)
    requires
        c.wf(pages, mem),
        c.objs@.contains_key(o),
    ensures
        o >= PAGE_OFF,
        pages.has(((o - PAGE_OFF) / 4096) as u64),
        pages.page(((o - PAGE_OFF) / 4096) as u64).head_page == c.objs@[o].slab,
        pages.has(c.objs@[o].slab),
        pages.page(c.objs@[o].slab).slub == Some(c.id),
        c.owns(o as int),
{
    reveal(MemCache::wf);
    reveal(MemCache::core_ok);
    lemma_obj_owned(c, pages, mem, o);
    let f = c.objs@[o].slab;
    let i = c.objs@[o].index;
    assert(c.obj_ok(o));
    assert(c.slab_ok(pages, mem, f));
    lemma_obj_bounds(c.size as int, c.nobjs as int, i);
    crate::mm::buddy::buddy::lemma_run_bytes(c.ord as nat);
    let off = i * c.size;
    let p = pow2(c.ord as nat) as int;
    assert(0 <= off < 4096 * p);
    let g = ((o - PAGE_OFF) / 4096) as u64;
    assert(o - PAGE_OFF == f * 4096 + off);
    assert(f <= g < f + p) by {
        assert((f * 4096 + off) / 4096 == f + off / 4096);
        assert(off / 4096 < p);
    }
}

/// Every frame of a slab names the head frame of the slab.
pub proof fn lemma_compound_head(c: &MemCache, pages: &Pages, mem: &Memory, f: u64, g: u64)
    requires
        c.wf(pages, mem),
        c.slabs@.contains(f),
        f <= g < f + pow2(c.ord as nat),
    ensures
        pages.page(g).head_page == f,
{
    reveal(MemCache::wf);
    reveal(MemCache::core_ok);
    assert(c.slab_ok(pages, mem, f));
}

/// A slab page on the partial list has less than all its objects in use; a slab page
/// that is not on it has them all in use.
pub proof fn lemma_partial_in_use(c: &MemCache, pages: &Pages, mem: &Memory, f: u64)
    requires
        c.wf(pages, mem),
        c.slabs@.contains(f),
    ensures
        c.node.data.frames@.contains(f) ==> pages.page(f).inuse < c.nobjs,
        !c.node.data.frames@.contains(f) ==> pages.page(f).inuse == c.nobjs,
        c.node.data.frames@.contains(f) <==> pages.page(f).freelist.data@.len() > 0,
{
    reveal(MemCache::wf);
    reveal(MemCache::core_ok);
    assert(c.slab_ok(pages, mem, f));
}

/// The cache stays in order when memory changes outside of its slabs.
pub proof fn lemma_mem_frame(c: &MemCache, pages: &Pages, m1: &Memory, m2: &Memory)
    requires
        c.wf(pages, m1),
        m2.wf(),
        m2.same_shape(m1),
        forall|x: u64| m1.contains(x) && c.owns(x as int) ==> m2.word(x) == m1.word(x),
    ensures
        c.wf(pages, m2),
{
    reveal(MemCache::wf);
    reveal(MemCache::core_ok);
    assert forall|f: u64| #[trigger] c.slabs@.contains(f) implies c.slab_ok(pages, m2, f) by {
        assert(c.slab_ok(pages, m1, f));
        let l = pages.page(f).freelist.data;
        assert forall|i: int| 0 <= i < l@.len() implies m2.word(#[trigger] l@[i]) == m1.word(
            l@[i],
        ) by {
            assert(l@.contains(l@[i]));
            lemma_obj_owned(c, pages, m1, l@[i]);
        }
        l.lemma_wf_frame(m1, m2);
    }
    assert forall|h: int| 0 <= h < NCPU implies #[trigger] c.cpu_ok(m2, h) by {
        assert(c.cpu_ok(m1, h));
        let l = c.cpu(h).freelist;
        assert forall|i: int| 0 <= i < l@.len() implies m2.word(#[trigger] l@[i]) == m1.word(
            l@[i],
        ) by {
            assert(l@.contains(l@[i]));
            lemma_obj_owned(c, pages, m1, l@[i]);
        }
        l.lemma_wf_frame(m1, m2);
    }
}

/// Whether `g` is a frame of a slab of the cache.
pub open spec fn owns_frame(c: &MemCache, g: u64) -> bool {
    exists|f: u64| #[trigger] c.slabs@.contains(f) && f <= g < f + pow2(c.ord as nat)
}

/// The cache stays in order when descriptors change that are not of its slabs.
pub proof fn lemma_pages_frame(c: &MemCache, p1: &Pages, p2: &Pages, mem: &Memory)
    requires
        c.wf(p1, mem),
        p2@.len() == p1@.len(),
        p2.unlocked(),
        forall|g: u64| p1.has(g) && owns_frame(c, g) ==> #[trigger] p2.page(g) == p1.page(g),
    ensures
        c.wf(p2, mem),
{
    reveal(MemCache::wf);
    reveal(MemCache::core_ok);
    vstd::arithmetic::power2::lemma_pow2_pos(c.ord as nat);
    assert forall|f: u64| #[trigger] c.slabs@.contains(f) implies c.slab_ok(p2, mem, f) by {
        assert(c.slab_ok(p1, mem, f));
        assert(owns_frame(c, f));
        assert forall|g: u64| f <= g < f + pow2(c.ord as nat) implies (#[trigger] p2.page(
            g,
        )).head_page == f by {
            assert(owns_frame(c, g));
            assert(p1.page(g).head_page == f);
        }
    }
    let s = c.node.data.frames@;
    assert forall|i: int| 0 <= i < s.len() implies p2.page(#[trigger] s[i]) == p1.page(s[i]) by {
        assert(s.contains(s[i]));
        assert(owns_frame(c, s[i]));
    }
    assert forall|f: u64| #[trigger]
        c.node.data.frames@.contains(f) <==> (c.slabs@.contains(f) && p2.page(f).freelist.data@.len()
            > 0) by {
        if c.slabs@.contains(f) {
            assert(owns_frame(c, f));
            assert(c.slab_ok(p1, mem, f));
        }
    }
}

/// The descriptor table has a descriptor for every frame of `mem`.
pub open spec fn pages_cover(pages: &Pages, mem: &Memory) -> bool {
    &&& mem.base >= PAGE_FRAME_OFFSET * 4096
    &&& mem.base + 8 * mem@.len() <= (PAGE_FRAME_OFFSET + pages@.len()) * 4096
}

/// How the cache and the descriptors stand after hart `hart` got the compound at frame
/// `f` as a new slab and object `r` from it: the frames of the compound name `f` as
/// their head, the descriptor of `f` names this cache and counts all objects as in
/// use, the hart draws from the slab and holds all its objects but the first, `r`,
/// which is allocated now.
pub open spec fn refilled(
    before: &MemCache,
    pages0: &Pages,
    after: &MemCache,
    pages1: &Pages,
    hart: int,
    f: u64,
    r: u64,
) -> bool {
    &&& !before.slabs@.contains(f)
    &&& after.slabs@ == before.slabs@.insert(f)
    &&& r == f * 4096 + PAGE_OFF
    &&& after.node == before.node
    &&& after.cpu(hart).page == Some(PageFrame(f))
    &&& after.cpu(hart).freelist@ == after.slab_objects(f).drop_first()
    &&& forall|h: int| 0 <= h < NCPU && h != hart ==> after.cpu(h) == before.cpu(h)
    &&& pages1.page(f) == (Page {
        list_node: pages1.page(f).list_node,
        head_page: f,
        slub: Some(before.id),
        freelist: pages1.page(f).freelist,
        inuse: before.nobjs,
        slub_data: SlubData { value: before.nobjs },
    })
    &&& pages1.page(f).list_node.data == (DoubleLinkedList { next: 0, prev: 0 })
    &&& pages1.page(f).freelist.data@.len() == 0
    &&& forall|g: u64|
        f < g < f + pow2(before.ord as nat) ==> #[trigger] pages1.page(g) == (Page {
            head_page: f,
            ..pages0.page(g)
        })
    &&& forall|g: u64|
        pages0.has(g) && !(f <= g < f + pow2(before.ord as nat)) ==> #[trigger] pages1.page(g)
            == pages0.page(g)
    &&& !before.objs@.contains_key(r)
    &&& after.allocated(r)
    &&& forall|o: u64| o != r ==> after.allocated(o) == before.allocated(o)
}

/// What `mark_slab` does to the descriptor table for the compound at frame `f`.
pub open spec fn slab_marked(c: &MemCache, pages0: &Pages, pages1: &Pages, f: u64) -> bool {
    &&& pages1@.len() == pages0@.len()
    &&& pages1.has(f)
    &&& f - PAGE_FRAME_OFFSET + pow2(c.ord as nat) <= pages1@.len()
    &&& pages1.page(f) == (Page {
        list_node: pages1.page(f).list_node,
        head_page: f,
        slub: Some(c.id),
        freelist: pages1.page(f).freelist,
        inuse: c.nobjs,
        slub_data: SlubData { value: c.nobjs },
    })
    &&& pages1.page(f).list_node.data == (DoubleLinkedList { next: 0, prev: 0 })
    &&& pages1.page(f).freelist.data@.len() == 0
    &&& pages1.page(f).freelist.data.head == 0
    &&& pages0.unlocked() ==> pages1.unlocked()
    &&& forall|g: u64|
        f < g < f + pow2(c.ord as nat) ==> #[trigger] pages1.page(g) == (Page {
            head_page: f,
            ..pages0.page(g)
        })
    &&& forall|g: u64|
        pages0.has(g) && !(f <= g < f + pow2(c.ord as nat)) ==> #[trigger] pages1.page(g)
            == pages0.page(g)
}

/// A list of the cache stays a list when an allocated object is written to.
pub proof fn lemma_list_frame(
    c: &MemCache,
    pages: &Pages,
    m1: &Memory,
    m2: &Memory,
    l: LinkedList,
    ptr: u64,
)
    requires
        l.wf(m1),
        m2.same_shape(m1),
        forall|a: u64| m1.contains(a) && a != ptr ==> m2.word(a) == m1.word(a),
        !l@.contains(ptr),
    ensures
        l.wf(m2),
{
    assert forall|i: int| 0 <= i < l@.len() implies m2.word(#[trigger] l@[i]) == m1.word(l@[i]) by {
        assert(l@.contains(l@[i]));
    }
    l.lemma_wf_frame(m1, m2);
}

/// Putting an allocated object in front of the free list of the hart that draws from
/// its slab keeps the cache in order.
pub proof fn lemma_fast_dealloc(
    before: &MemCache,
    after: &MemCache,
    pages: &Pages,
    m1: &Memory,
    m2: &Memory,
    hart: int,
    ptr: u64,
)
    requires
        before.wf(pages, m1),
        0 <= hart < NCPU,
        before.allocated(ptr),
        before.cpu(hart).page == Some(PageFrame(before.objs@[ptr].slab)),
        m2.wf(),
        m2.same_shape(m1),
        forall|a: u64| m1.contains(a) && a != ptr ==> m2.word(a) == m1.word(a),
        after.cpu_slub.data@ == before.cpu_slub.data@.update(hart, after.cpu(hart)),
        after.cpu(hart).page == before.cpu(hart).page,
        after.cpu(hart).freelist@ == seq![ptr] + before.cpu(hart).freelist@,
        after.cpu(hart).freelist.wf(m2),
        after.objs@ == before.objs@.insert(
            ptr,
            ObjState { owner: Owner::Cpu(hart), ..before.objs@[ptr] },
        ),
        after.node == before.node,
        after.size == before.size,
        after.ord == before.ord,
        after.nobjs == before.nobjs,
        after.min_partial == before.min_partial,
        after.id == before.id,
        after.slabs == before.slabs,
        after.outs == before.outs,
    ensures
        after.wf(pages, m2),
        !after.allocated(ptr),
        forall|o: u64| o != ptr ==> after.allocated(o) == before.allocated(o),
{
    reveal(MemCache::wf);
    reveal(MemCache::core_ok);
    let l0 = before.cpu(hart).freelist@;
    let l1 = after.cpu(hart).freelist@;
    assert(before.obj_ok(ptr));
    crate::mm::buddy::buddy::lemma_push_contains(l0, ptr);
    assert forall|f: u64| #[trigger] after.slabs@.contains(f) implies after.slab_ok(pages, m2, f) by {
        assert(before.slab_ok(pages, m1, f));
        let l = pages.page(f).freelist.data;
        if l@.contains(ptr) {
            assert(before.objs@[ptr].owner is Page);
        }
        lemma_list_frame(before, pages, m1, m2, l, ptr);
        crate::mm::buddy::buddy::lemma_frame_run(m1, f, before.ord as nat);
    }
    assert forall|o: u64| #[trigger] after.objs@.contains_key(o) implies after.obj_ok(o) by {
        if o != ptr {
            assert(before.obj_ok(o));
        }
    }
    assert forall|h: int| 0 <= h < NCPU implies #[trigger] after.cpu_ok(m2, h) by {
        assert(before.cpu_ok(m1, h));
        if h != hart {
            assert(after.cpu(h) == before.cpu(h));
            let l = before.cpu(h).freelist;
            if l@.contains(ptr) {
                assert(before.objs@[ptr].owner == Owner::Cpu(h));
            }
            lemma_list_frame(before, pages, m1, m2, l, ptr);
        } else {
            assert forall|o: u64| #[trigger]
                after.cpu(h).freelist@.contains(o) implies after.objs@.contains_key(o)
                && after.objs@[o].owner == Owner::Cpu(h) && after.cpu(h).page == Some(
                PageFrame(after.objs@[o].slab),
            ) by {
                if o != ptr {
                    assert(l0.contains(o));
                }
            }
        }
    }
}

/// The cache is in order but for the place of the slab page `f` on the partial list:
/// the page has a free object, and it is on the list exactly if `missing` is false.
pub open spec fn half_ok(c: &MemCache, pages: &Pages, mem: &Memory, f: u64, missing: bool) -> bool {
    &&& c.core_ok(pages, mem)
    &&& c.node.free()
    &&& pages.unlocked()
    &&& dll_wf(c.node.data.partial, pages, c.node.data.frames@)
    &&& c.node.data.nr_partial == c.node.data.frames@.len()
    &&& c.slabs@.contains(f)
    &&& pages.page(f).freelist.data@.len() > 0
    &&& c.node.data.frames@.contains(f) <==> !missing
    &&& forall|g: u64|
        g != f ==> (#[trigger] c.node.data.frames@.contains(g) <==> (c.slabs@.contains(g) && pages.page(
            g,
        ).freelist.data@.len() > 0))
}

/// A page that is on the partial list as it should be: the cache is in order.
pub proof fn lemma_half_whole(c: &MemCache, pages: &Pages, mem: &Memory, f: u64)
    requires
        half_ok(c, pages, mem, f, false),
    ensures
        c.wf(pages, mem),
{
    reveal(MemCache::wf);
    reveal(MemCache::core_ok);
}

/// How the cache and the descriptors stand after the allocated object `ptr` went on the
/// free list of its slab page `f`.
pub open spec fn pushed(
    before: &MemCache,
    pages0: &Pages,
    after: &MemCache,
    pages1: &Pages,
    mem1: &Memory,
    ptr: u64,
    f: u64,
    full: bool,
) -> bool {
    &&& half_ok(after, pages1, mem1, f, full)
    &&& pages0.has(f)
    &&& pages1@.len() == pages0@.len()
    &&& pages0.page(f).inuse >= 1
    &&& pages1.page(f) == (Page {
        freelist: pages1.page(f).freelist,
        inuse: (pages0.page(f).inuse - 1) as u16,
        ..pages0.page(f)
    })
    &&& pages1.page(f).freelist.data@ == seq![ptr] + pages0.page(f).freelist.data@
    &&& forall|g: u64| pages0.has(g) && g != f ==> #[trigger] pages1.page(g) == pages0.page(g)
    &&& after.node == before.node
    &&& after.cpu_slub == before.cpu_slub
    &&& after.slabs@ == before.slabs@
    &&& after.objs@.contains_key(ptr)
    &&& !after.allocated(ptr)
    &&& forall|o: u64| o != ptr ==> after.allocated(o) == before.allocated(o)
    &&& after.objs@.dom() == before.objs@.dom()
}

/// What the slow path of freeing may rely on: the object is a word of memory, its slab
/// has a descriptor, it is on no list, and it counts as in use.
pub proof fn lemma_push_ready(c: &MemCache, pages: &Pages, mem: &Memory, ptr: u64)
    requires
        c.wf(pages, mem),
        c.allocated(ptr),
    ensures
        mem.wf(),
        mem.contains(ptr),
        pages.has(c.objs@[ptr].slab),
        pages.page(c.objs@[ptr].slab).freelist.data.wf(mem),
        !pages.page(c.objs@[ptr].slab).freelist.data@.contains(ptr),
        pages.page(c.objs@[ptr].slab).inuse >= 1,
        (pages.page(c.objs@[ptr].slab).freelist.data.head == 0) == (pages.page(
            c.objs@[ptr].slab,
        ).freelist.data@.len() == 0),
{
    reveal(MemCache::wf);
    reveal(MemCache::core_ok);
    lemma_obj_owned(c, pages, mem, ptr);
    let f = c.objs@[ptr].slab;
    assert(c.obj_ok(ptr));
    assert(c.slab_ok(pages, mem, f));
    if pages.page(f).freelist.data@.contains(ptr) {
        assert(c.objs@[ptr].owner is Page);
    }
    assert(c.outs@[f].contains(ptr));
    if c.outs@[f].len() == 0 {
        c.outs@[f].lemma_len0_is_empty();
    }
    pages.page(f).freelist.data.lemma_head(mem);
}

/// Putting an allocated object on the free list of its slab page keeps the slabs, the
/// objects and the harts in order.
pub proof fn lemma_page_push(
    before: &MemCache,
    pages0: &Pages,
    m1: &Memory,
    after: &MemCache,
    pages1: &Pages,
    m2: &Memory,
    ptr: u64,
)
    requires
        before.wf(pages0, m1),
        before.allocated(ptr),
        m2.wf(),
        m2.same_shape(m1),
        forall|a: u64| m1.contains(a) && a != ptr ==> m2.word(a) == m1.word(a),
        pages1.unlocked(),
        pages1@ == pages0@.update(
            before.objs@[ptr].slab - PAGE_FRAME_OFFSET,
            Page {
                freelist: pages1.page(before.objs@[ptr].slab).freelist,
                inuse: (pages0.page(before.objs@[ptr].slab).inuse - 1) as u16,
                ..pages0.page(before.objs@[ptr].slab)
            },
        ),
        pages0.page(before.objs@[ptr].slab).inuse >= 1,
        pages1.page(before.objs@[ptr].slab).freelist.data@ == seq![ptr] + pages0.page(
            before.objs@[ptr].slab,
        ).freelist.data@,
        pages1.page(before.objs@[ptr].slab).freelist.data.wf(m2),
        after.objs@ == before.objs@.insert(
            ptr,
            ObjState { owner: Owner::Page, ..before.objs@[ptr] },
        ),
        after.outs@ == before.outs@.insert(
            before.objs@[ptr].slab,
            before.outs@[before.objs@[ptr].slab].remove(ptr),
        ),
        after.cpu_slub == before.cpu_slub,
        after.node == before.node,
        after.size == before.size,
        after.ord == before.ord,
        after.nobjs == before.nobjs,
        after.min_partial == before.min_partial,
        after.id == before.id,
        after.slabs == before.slabs,
    ensures
        pushed(
            before,
            pages0,
            after,
            pages1,
            m2,
            ptr,
            before.objs@[ptr].slab,
            pages0.page(before.objs@[ptr].slab).freelist.data@.len() == 0,
        ),
{
    reveal(MemCache::wf);
    reveal(MemCache::core_ok);
    let f = before.objs@[ptr].slab;
    let l0 = pages0.page(f).freelist.data@;
    lemma_push_ready(before, pages0, m1, ptr);
    assert(before.obj_ok(ptr));
    assert(before.slab_ok(pages0, m1, f));
    crate::mm::buddy::buddy::lemma_push_contains(l0, ptr);
    assert forall|g: u64| pages0.has(g) && g != f implies #[trigger] pages1.page(g) == pages0.page(
        g,
    ) by {}
    assert forall|g: u64| #[trigger] after.slabs@.contains(g) implies after.slab_ok(
        pages1,
        m2,
        g,
    ) by {
        assert(before.slab_ok(pages0, m1, g));
        crate::mm::buddy::buddy::lemma_frame_run(m1, g, before.ord as nat);
        assert forall|k: u64|
            g <= k < g + pow2(after.ord as nat) implies (#[trigger] pages1.page(k)).head_page
            == g by {
            assert(pages0.page(k).head_page == g);
        }
        if g != f {
            let l = pages0.page(g).freelist.data;
            if l@.contains(ptr) {
                assert(before.objs@[ptr].owner is Page);
            }
            lemma_list_frame(before, pages0, m1, m2, l, ptr);
            assert forall|o: u64| #[trigger] after.outs@[g].contains(o) implies after.objs@.contains_key(
                o,
            ) && after.objs@[o].slab == g by {
                assert(before.objs@[o].slab == g);
            }
        } else {
            assert forall|o: u64| #[trigger]
                pages1.page(g).freelist.data@.contains(o) implies after.objs@.contains_key(o)
                && after.objs@[o].owner is Page && after.objs@[o].slab == g by {
                if o != ptr {
                    assert(l0.contains(o));
                }
            }
        }
    }
    assert forall|o: u64| #[trigger] after.objs@.contains_key(o) implies after.obj_ok(o) by {
        if o != ptr {
            assert(before.obj_ok(o));
        }
    }
    assert forall|h: int| 0 <= h < NCPU implies #[trigger] after.cpu_ok(m2, h) by {
        assert(before.cpu_ok(m1, h));
        let l = before.cpu(h).freelist;
        if l@.contains(ptr) {
            assert(before.objs@[ptr].owner == Owner::Cpu(h));
        }
        lemma_list_frame(before, pages0, m1, m2, l, ptr);
    }
    let s = before.node.data.frames@;
    assert forall|i: int| 0 <= i < s.len() implies pages1.has(#[trigger] s[i]) && pages1.page(
        s[i],
    ).list_node == pages0.page(s[i]).list_node by {
        assert(pages0.has(s[i]));
    }
    assert forall|g: u64|
        g != f implies (#[trigger] after.node.data.frames@.contains(g) <==> (after.slabs@.contains(g)
        && pages1.page(g).freelist.data@.len() > 0)) by {
        if after.slabs@.contains(g) {
            assert(before.slab_ok(pages0, m1, g));
        }
        if s.contains(g) {
            assert(before.slabs@.contains(g));
        }
    }
    assert(after.objs@.dom() =~= before.objs@.dom());
}

/// In a cache that is in order nobody holds a lock.
pub proof fn lemma_wf_unlocked(c: &MemCache, pages: &Pages, mem: &Memory)
    requires
        c.wf(pages, mem),
    ensures
        pages.unlocked(),
        c.node.free(),
{
    reveal(MemCache::wf);
}

/// Takes the lock of the hook of `frame` for hart `hart`.
fn lock_hook(pages: &mut Pages, frame: PageFrame, hart: usize) -> (g: SpinGuard)
    requires
        old(pages).has(frame.0),
        old(pages).page(frame.0).list_node.free(),
        hart <= isize::MAX,
    ensures
        final(pages)@ == old(pages)@.update(
            frame.0 - PAGE_FRAME_OFFSET,
            Page {
                list_node: Spin {
                    locked: true,
                    owner: hart as isize,
                    data: old(pages).page(frame.0).list_node.data,
                },
                ..old(pages).page(frame.0)
            },
        ),
{
    let mut page: Page = *frame.get_page(pages);
    let g = page.list_node.lock(hart, false);
    frame.set_page(pages, page);
    g
}

/// Gives the lock of the hook of `frame` back.
fn unlock_hook(pages: &mut Pages, frame: PageFrame, guard: SpinGuard)
    requires
        old(pages).has(frame.0),
        old(pages).page(frame.0).list_node.locked,
    ensures
        final(pages)@ == old(pages)@.update(
            frame.0 - PAGE_FRAME_OFFSET,
            Page {
                list_node: Spin {
                    locked: false,
                    owner: NO_OWNER,
                    data: old(pages).page(frame.0).list_node.data,
                },
                ..old(pages).page(frame.0)
            },
        ),
{
    let mut page: Page = *frame.get_page(pages);
    page.list_node.unlock(guard);
    frame.set_page(pages, page);
}

/// A list stays what it is where only the locks of the hooks change.
proof fn lemma_relock(head: DoubleLinkedList, p0: &Pages, p1: &Pages, s: Seq<u64>)
    requires
        dll_wf(head, p0, s),
        p1@.len() == p0@.len(),
        forall|g: u64|
            p0.has(g) ==> (#[trigger] p1.page(g)).list_node.data == p0.page(g).list_node.data,
    ensures
        dll_wf(head, p1, s),
{
    assert forall|i: int| 0 <= i < s.len() implies p1.page(#[trigger] s[i]).list_node.data
        == p0.page(s[i]).list_node.data by {
        assert(p0.has(s[i]));
    }
}

/// Putting a page that is missing on the partial list in front of it sets the cache in
/// order.
pub proof fn lemma_link_partial(
    before: &MemCache,
    pages0: &Pages,
    after: &MemCache,
    pages1: &Pages,
    mem: &Memory,
    f: u64,
)
    requires
        half_ok(before, pages0, mem, f, true),
        pages1.unlocked(),
        after.node.free(),
        dll_wf(after.node.data.partial, pages1, seq![f] + before.node.data.frames@),
        after.node.data.frames@ == seq![f] + before.node.data.frames@,
        after.node.data.nr_partial == before.node.data.nr_partial + 1,
        pages1@.len() == pages0@.len(),
        forall|g: u64|
            pages0.has(g) ==> #[trigger] pages1.page(g) == (Page {
                list_node: pages1.page(g).list_node,
                ..pages0.page(g)
            }),
        after.cpu_slub == before.cpu_slub,
        after.size == before.size,
        after.ord == before.ord,
        after.nobjs == before.nobjs,
        after.min_partial == before.min_partial,
        after.id == before.id,
        after.slabs == before.slabs,
        after.objs == before.objs,
        after.outs == before.outs,
    ensures
        after.wf(pages1, mem),
{
    reveal(MemCache::wf);
    reveal(MemCache::core_ok);
    crate::mm::buddy::buddy::lemma_push_contains(before.node.data.frames@, f);
    assert forall|g: u64| #[trigger] after.slabs@.contains(g) implies after.slab_ok(
        pages1,
        mem,
        g,
    ) by {
        assert(before.slab_ok(pages0, mem, g));
        assert forall|k: u64|
            g <= k < g + pow2(after.ord as nat) implies (#[trigger] pages1.page(k)).head_page
            == g by {
            assert(pages0.page(k).head_page == g);
        }
    }
    assert forall|o: u64| #[trigger] after.objs@.contains_key(o) implies after.obj_ok(o) by {
        assert(before.obj_ok(o));
    }
    assert forall|h: int| 0 <= h < NCPU implies #[trigger] after.cpu_ok(mem, h) by {
        assert(before.cpu_ok(mem, h));
    }
    assert forall|g: u64| #[trigger]
        after.node.data.frames@.contains(g) <==> (after.slabs@.contains(g) && pages1.page(
            g,
        ).freelist.data@.len() > 0) by {
        if g != f {
            assert(before.node.data.frames@.contains(g) <==> (before.slabs@.contains(g)
                && pages0.page(g).freelist.data@.len() > 0));
            if before.slabs@.contains(g) {
                assert(before.slab_ok(pages0, mem, g));
            }
        }
    }
}

/// Of two multiples of `p` the lower one lies `p` below the other at least.
pub proof fn lemma_apart(a: int, b: int, p: int)
    requires
        p > 0,
        0 <= a < b,
        a % p == 0,
        b % p == 0,
    ensures
        a + p <= b,
{
    crate::mm::buddy::buddy::lemma_factor(a, p);
    crate::mm::buddy::buddy::lemma_factor(b, p);
    let qa = a / p;
    let qb = b / p;
    assert(qa < qb) by (nonlinear_arith)
        requires
            a == qa * p,
            b == qb * p,
            a < b,
            p > 0,
    ;
    assert((qa + 1) * p <= qb * p) by (nonlinear_arith)
        requires
            qa + 1 <= qb,
            p > 0,
    ;
    assert((qa + 1) * p == qa * p + p) by (nonlinear_arith);
}

/// The frames on the partial list, and the frame of every object, are frames of slabs
/// of the cache.
pub proof fn lemma_frames_owned(c: &MemCache, pages: &Pages, mem: &Memory)
    requires
        c.wf(pages, mem),
    ensures
        forall|g: u64| c.node.data.frames@.contains(g) ==> owns_frame(c, g),
        forall|g: u64| #[trigger] c.slabs@.contains(g) ==> owns_frame(c, g) && pages.has(g),
{
    reveal(MemCache::wf);
    reveal(MemCache::core_ok);
    vstd::arithmetic::power2::lemma_pow2_pos(c.ord as nat);
    assert forall|g: u64| #[trigger] c.slabs@.contains(g) implies owns_frame(c, g) && pages.has(
        g,
    ) by {
        assert(c.slab_ok(pages, mem, g));
    }
    assert forall|g: u64| c.node.data.frames@.contains(g) implies owns_frame(c, g) by {
        assert(c.slabs@.contains(g));
    }
}

/// What an operation of the cache may touch: the buddy allocator gains at most what the
/// cache owned, the cache at most what was free, memory that was neither free nor the
/// cache's stays as it is, and so does every descriptor of a frame that the cache
/// owns neither before nor after.
#[verifier::opaque]
pub open spec fn frame_ok<const ORDER: usize>(
    c0: &MemCache,
    p0: &Pages,
    m0: &Memory,
    b0: &Buddy<ORDER>,
    c1: &MemCache,
    p1: &Pages,
    m1: &Memory,
    b1: &Buddy<ORDER>,
) -> bool {
    &&& m1.same_shape(m0)
    &&& p1@.len() == p0@.len()
    &&& forall|x: int| b1.is_free(x) ==> b0.is_free(x) || c0.owns(x)
    &&& forall|x: int| c1.owns(x) ==> c0.owns(x) || b0.is_free(x)
    &&& forall|x: u64|
        m0.contains(x) && !b0.is_free(x as int) && !c0.owns(x as int) ==> m1.word(x) == m0.word(x)
    &&& forall|g: u64|
        p0.has(g) && !owns_frame(c0, g) && !owns_frame(c1, g) ==> #[trigger] p1.page(g) == p0.page(
            g,
        )
}

/// An operation that changes nothing touches nothing.
pub proof fn lemma_frame_refl<const ORDER: usize>(
    c: &MemCache,
    p: &Pages,
    m: &Memory,
    b: &Buddy<ORDER>,
)
    ensures
        frame_ok(c, p, m, b, c, p, m, b),
{
    reveal(frame_ok);
}

/// A step that leaves the slabs and the buddy allocator as they are, followed by
/// another step, is a step.
pub proof fn lemma_frame_then<const ORDER: usize>(
    c0: &MemCache,
    p0: &Pages,
    m0: &Memory,
    b0: &Buddy<ORDER>,
    c1: &MemCache,
    p1: &Pages,
    m1: &Memory,
    c2: &MemCache,
    p2: &Pages,
    m2: &Memory,
    b2: &Buddy<ORDER>,
)
    requires
        frame_ok(c0, p0, m0, b0, c1, p1, m1, b0),
        c1.slabs@ == c0.slabs@,
        c1.ord == c0.ord,
        frame_ok(c1, p1, m1, b0, c2, p2, m2, b2),
    ensures
        frame_ok(c0, p0, m0, b0, c2, p2, m2, b2),
{
    reveal(frame_ok);
    lemma_owns_same(c0, c1);
    assert forall|x: u64|
        m0.contains(x) && !b0.is_free(x as int) && !c0.owns(x as int) implies m2.word(x)
        == m0.word(x) by {
        assert(m1.contains(x));
    }
    assert forall|g: u64|
        p0.has(g) && !owns_frame(c0, g) && !owns_frame(c2, g) implies #[trigger] p2.page(g)
        == p0.page(g) by {
        assert(p1.has(g));
        assert(p1.page(g) == p0.page(g));
    }
}

/// Writing to an allocated object of the cache leaves the buddy allocator well formed.
pub proof fn lemma_buddy_frame<const ORDER: usize>(
    c: &MemCache,
    buddy: &Buddy<ORDER>,
    m0: &Memory,
    m1: &Memory,
    ptr: u64,
)
    requires
        buddy.wf(m0),
        c.clear_of(buddy),
        c.owns(ptr as int),
        m1.wf(),
        m1.same_shape(m0),
        forall|a: u64| m0.contains(a) && a != ptr ==> m1.word(a) == m0.word(a),
    ensures
        buddy.wf(m1),
{
    assert forall|x: u64| m0.contains(x) && buddy.is_free(x as int) implies m1.word(x) == m0.word(
        x,
    ) by {}
    buddy.lemma_wf_frame(m0, m1);
}

/// Putting an object on the free list of its page touches the object and the
/// descriptor of the page only.
pub proof fn lemma_push_frame<const ORDER: usize>(
    before: &MemCache,
    pages0: &Pages,
    m0: &Memory,
    after: &MemCache,
    pages1: &Pages,
    m1: &Memory,
    buddy: &Buddy<ORDER>,
    ptr: u64,
    f: u64,
)
    requires
        before.owns(ptr as int),
        owns_frame(before, f),
        after.slabs@ == before.slabs@,
        after.ord == before.ord,
        before.clear_of(buddy),
        pages1@.len() == pages0@.len(),
        forall|g: u64| pages0.has(g) && g != f ==> #[trigger] pages1.page(g) == pages0.page(g),
        m1.same_shape(m0),
        forall|a: u64| m0.contains(a) && a != ptr ==> m1.word(a) == m0.word(a),
    ensures
        frame_ok(before, pages0, m0, buddy, after, pages1, m1, buddy),
        after.clear_of(buddy),
{
    reveal(frame_ok);
    lemma_owns_same(before, after);
}

/// What `pushed` says of the descriptors and of the partial list.
pub proof fn lemma_pushed_facts(
    before: &MemCache,
    pages0: &Pages,
    after: &MemCache,
    pages1: &Pages,
    m1: &Memory,
    ptr: u64,
    f: u64,
    full: bool,
)
    requires
        pushed(before, pages0, after, pages1, m1, ptr, f, full),
    ensures
        pages1@.len() == pages0@.len(),
        forall|g: u64| pages0.has(g) && g != f ==> #[trigger] pages1.page(g) == pages0.page(g),
        after.slabs@ == before.slabs@,
        after.node == before.node,
        after.cpu_slub == before.cpu_slub,
        before.node.data.frames@.contains(f) <==> !full,
        half_ok(after, pages1, m1, f, full),
        pages1.page(f).freelist.data@ == seq![ptr] + pages0.page(f).freelist.data@,
        pages1.page(f).inuse == pages0.page(f).inuse - 1,
        forall|o: u64| after.allocated(o) == (before.allocated(o) && o != ptr),
{
}

/// A slab page with one object in use has a free object.
pub proof fn lemma_last_in_use(c: &MemCache, pages: &Pages, mem: &Memory, f: u64)
    requires
        c.wf(pages, mem),
        c.slabs@.contains(f),
    ensures
        pages.page(f).inuse == 1 ==> pages.page(f).freelist.data@.len() > 0,
        pages.page(f).inuse + pages.page(f).freelist.data@.len() == c.nobjs,
{
    reveal(MemCache::wf);
    reveal(MemCache::core_ok);
    assert(c.slab_ok(pages, mem, f));
}

/// A sequence of different numbers below `n` has `n` members at most.
pub proof fn lemma_bounded_len(s: Seq<u64>, n: nat)
    requires
        s.no_duplicates(),
        forall|i: int| 0 <= i < s.len() ==> s[i] < n,
    ensures
        s.len() <= n,
    decreases n,
{
    if n == 0 {
        if s.len() > 0 {
            assert(s[0] < 0);
        }
    } else if exists|j: int| 0 <= j < s.len() && s[j] == n - 1 {
        let j = choose|j: int| 0 <= j < s.len() && s[j] == n - 1;
        let t = s.remove(j);
        assert forall|i: int| 0 <= i < t.len() implies t[i] < n - 1 by {
            let si = if i < j { i } else { i + 1 };
            assert(t[i] == s[si]);
            assert(s[si] != s[j]);
        }
        assert forall|i: int, k: int| 0 <= i < t.len() && 0 <= k < t.len() && i != k implies t[i]
            != t[k] by {
            let si = if i < j { i } else { i + 1 };
            let sk = if k < j { k } else { k + 1 };
            assert(t[i] == s[si] && t[k] == s[sk]);
        }
        lemma_bounded_len(t, (n - 1) as nat);
    } else {
        assert forall|i: int| 0 <= i < s.len() implies s[i] < n - 1 by {
            assert(s[i] != n - 1);
        }
        lemma_bounded_len(s, (n - 1) as nat);
    }
}

/// The partial list has less pages than the linear map has frames.
pub proof fn lemma_partial_bound(c: &MemCache, pages: &Pages, mem: &Memory, f: u64)
    requires
        exists|missing: bool| half_ok(c, pages, mem, f, missing),
    ensures
        c.node.data.frames@.len() <= 0x400_0000,
        c.node.data.nr_partial < usize::MAX,
{
    reveal(MemCache::core_ok);
    let s = c.node.data.frames@;
    assert(s.no_duplicates());
    assert forall|i: int| 0 <= i < s.len() implies s[i] < 0x400_0000 by {
        assert(s.contains(s[i]));
        assert(c.slabs@.contains(s[i]));
        assert(c.slab_ok(pages, mem, s[i]));
        crate::mm::buddy::buddy::lemma_run_bytes(c.ord as nat);
    }
    lemma_bounded_len(s, 0x400_0000);
}

/// What allocating on hart `hart` does and returns. Where the hart holds free objects, it
/// hands out the first and nothing else changes. Else, where there is a partial page,
/// the hart takes the first one over and hands out its first free object. Else the
/// buddy allocator is asked for a compound, which becomes a slab whose first object is
/// handed out; 0 is returned where it has none.
pub open spec fn allocated_by<const ORDER: usize>(
    c0: &MemCache,
    p0: &Pages,
    m0: &Memory,
    b0: &Buddy<ORDER>,
    c1: &MemCache,
    p1: &Pages,
    m1: &Memory,
    b1: &Buddy<ORDER>,
    hart: int,
    r: u64,
) -> bool {
    if c0.cpu(hart).freelist@.len() > 0 {
        &&& (r, c1.cpu(hart).freelist@) == spec_try_alloc(c0.cpu(hart).freelist@)
        &&& c1.cpu(hart).page == c0.cpu(hart).page
        &&& c1.node == c0.node
        &&& c1.slabs@ == c0.slabs@
        &&& *p1 == *p0
        &&& *m1 == *m0
        &&& *b1 == *b0
    } else if c0.node.data.frames@.len() > 0 {
        &&& partial_taken(c0, p0, c1, p1, hart, r)
        &&& c1.slabs@ == c0.slabs@
        &&& *m1 == *m0
        &&& *b1 == *b0
    } else {
        &&& b1@ == spec_alloc(b0@, c0.ord as int)
        &&& r != 0 ==> refilled(
            c0,
            p0,
            c1,
            p1,
            hart,
            spec_alloc_frame(b0@, c0.ord as int).unwrap().0,
            r,
        )
    }
}

/// What freeing the object `ptr` of the slab at frame `f` on hart `hart` does. Where the
/// hart draws from that slab, the object goes in front of the hart's free objects and
/// nothing else changes. Else it goes in front of the free list of its page, which
/// counts one object less as in use; where that leaves none in use and the partial
/// list holds more than `min_partial` pages, the page leaves the partial list and the
/// slab goes back to the buddy allocator; else, where the page had no free object
/// before, it goes in front of the partial list.
pub open spec fn freed_by<const ORDER: usize>(
    c0: &MemCache,
    p0: &Pages,
    b0: &Buddy<ORDER>,
    c1: &MemCache,
    p1: &Pages,
    b1: &Buddy<ORDER>,
    hart: int,
    ptr: u64,
    f: u64,
) -> bool {
    if c0.cpu(hart).page == Some(PageFrame(f)) {
        &&& c1.cpu(hart).freelist@ == seq![ptr] + c0.cpu(hart).freelist@
        &&& c1.cpu(hart).page == c0.cpu(hart).page
        &&& c1.node == c0.node
        &&& c1.slabs@ == c0.slabs@
        &&& *p1 == *p0
        &&& *b1 == *b0
    } else if p0.page(f).inuse == 1 && c0.node.data.nr_partial > c0.min_partial {
        &&& c1.slabs@ == c0.slabs@.remove(f)
        &&& c1.node.data.frames@ == c0.node.data.frames@.remove(index_in(c0.node.data.frames@, f))
        &&& b1@ == spec_free(b0@, frame_addr(f), c0.ord as nat)
        &&& total_frames(b1@) == total_frames(b0@) + pow2(c0.ord as nat)
        &&& forall|x: int|
            b1.is_free(x) <==> (b0.is_free(x) || frame_addr(f) <= x < frame_addr(f) + run_bytes(
                c0.ord as nat,
            ))
        &&& c1.cpu_slub == c0.cpu_slub
    } else {
        &&& c1.slabs@ == c0.slabs@
        &&& *b1 == *b0
        &&& c1.cpu_slub == c0.cpu_slub
        &&& p1.page(f).freelist.data@ == seq![ptr] + p0.page(f).freelist.data@
        &&& p1.page(f).inuse == p0.page(f).inuse - 1
        &&& c1.node.data.frames@ == (if p0.page(f).freelist.data@.len() == 0 {
            seq![f] + c0.node.data.frames@
        } else {
            c0.node.data.frames@
        })
    }
}

/// Putting a page on the partial list touches descriptors of slabs of the cache only.
pub proof fn lemma_link_frame<const ORDER: usize>(
    c1: &MemCache,
    p1: &Pages,
    m1: &Memory,
    c2: &MemCache,
    p2: &Pages,
    buddy: &Buddy<ORDER>,
    f: u64,
)
    requires
        half_ok(c1, p1, m1, f, true),
        c1.clear_of(buddy),
        c2.slabs@ == c1.slabs@,
        c2.ord == c1.ord,
        p2@.len() == p1@.len(),
        forall|g: u64|
            p1.has(g) && g != f && !c1.node.data.frames@.contains(g) ==> #[trigger] p2.page(g)
                == p1.page(g),
    ensures
        frame_ok(c1, p1, m1, buddy, c2, p2, m1, buddy),
        c2.clear_of(buddy),
{
    reveal(frame_ok);
    lemma_owns_same(c1, c2);
    vstd::arithmetic::power2::lemma_pow2_pos(c1.ord as nat);
    assert forall|g: u64|
        p1.has(g) && !owns_frame(c1, g) && !owns_frame(c2, g) implies #[trigger] p2.page(g)
        == p1.page(g) by {
        if g == f {
            assert(c1.slabs@.contains(f));
        }
        if c1.node.data.frames@.contains(g) {
            assert(c1.slabs@.contains(g));
        }
    }
}

/// Giving a slab back to the buddy allocator touches the slab, the free runs, and
/// descriptors of slabs of the cache only.
pub proof fn lemma_release_frame<const ORDER: usize>(
    c0: &MemCache,
    p0: &Pages,
    m0: &Memory,
    b0: &Buddy<ORDER>,
    c1: &MemCache,
    p1: &Pages,
    m1: &Memory,
    b1: &Buddy<ORDER>,
    f: u64,
)
    requires
        half_ok(c0, p0, m0, f, false),
        c0.clear_of(b0),
        c1.slabs@ == c0.slabs@.remove(f),
        c1.ord == c0.ord,
        m1.same_shape(m0),
        p1@.len() == p0@.len(),
        forall|g: u64|
            #![trigger p1.page(g)]
            p0.has(g) && !c0.node.data.frames@.contains(g) ==> p1.page(g) == p0.page(g),
        forall|x: int|
            c1.owns(x) ==> c0.owns(x) && !(f * 4096 + PAGE_OFF <= x < f * 4096 + PAGE_OFF
                + run_bytes(c0.ord as nat)),
        forall|x: int|
            f * 4096 + PAGE_OFF <= x < f * 4096 + PAGE_OFF + run_bytes(c0.ord as nat)
                ==> c0.owns(x),
        frame_addr(f) == f * 4096 + PAGE_OFF,
        forall|x: int|
            b1.is_free(x) ==> (b0.is_free(x) || frame_addr(f) <= x < frame_addr(f) + run_bytes(
                c0.ord as nat,
            )),
        forall|x: u64|
            m0.contains(x) && !b0.is_free(x as int) && !(frame_addr(f) <= x < frame_addr(f)
                + run_bytes(c0.ord as nat)) ==> m1.word(x) == m0.word(x),
    ensures
        frame_ok(c0, p0, m0, b0, c1, p1, m1, b1),
        c1.clear_of(b1),
{
    reveal(frame_ok);
    vstd::arithmetic::power2::lemma_pow2_pos(c0.ord as nat);
    assert forall|g: u64|
        p0.has(g) && !owns_frame(c0, g) && !owns_frame(c1, g) implies #[trigger] p1.page(g)
        == p0.page(g) by {
        if c0.node.data.frames@.contains(g) {
            assert(c0.slabs@.contains(g));
        }
    }
}

/// Taking the page of a slab that has no object in use off the partial list, and the
/// slab out of the cache, keeps the cache in order.
pub proof fn lemma_release(
    before: &MemCache,
    pages0: &Pages,
    after: &MemCache,
    pages1: &Pages,
    mem: &Memory,
    f: u64,
    i: int,
)
    requires
        half_ok(before, pages0, mem, f, false),
        pages0.page(f).inuse == 0,
        0 <= i < before.node.data.frames@.len(),
        before.node.data.frames@[i] == f,
        pages1.unlocked(),
        after.node.free(),
        dll_wf(after.node.data.partial, pages1, before.node.data.frames@.remove(i)),
        after.node.data.frames@ == before.node.data.frames@.remove(i),
        after.node.data.nr_partial == before.node.data.nr_partial - 1,
        pages1@.len() == pages0@.len(),
        forall|g: u64|
            pages0.has(g) ==> #[trigger] pages1.page(g) == (Page {
                list_node: pages1.page(g).list_node,
                ..pages0.page(g)
            }),
        after.slabs@ == before.slabs@.remove(f),
        after.objs@ == Map::new(
            |o: u64| before.objs@.contains_key(o) && before.objs@[o].slab != f,
            |o: u64| before.objs@[o],
        ),
        after.outs@ == before.outs@.remove(f),
        after.cpu_slub == before.cpu_slub,
        after.size == before.size,
        after.ord == before.ord,
        after.nobjs == before.nobjs,
        after.min_partial == before.min_partial,
        after.id == before.id,
    ensures
        after.wf(pages1, mem),
        forall|o: u64| after.allocated(o) == before.allocated(o),
{
    reveal(MemCache::wf);
    reveal(MemCache::core_ok);
    let frames = before.node.data.frames@;
    assert(before.slab_ok(pages0, mem, f));
    before.outs@[f].lemma_len0_is_empty();
    assert(frames.no_duplicates());
    crate::mm::buddy::buddy::lemma_remove_contains(frames, i);
    assert forall|o: u64|
        before.objs@.contains_key(o) && before.objs@[o].slab == f implies before.objs@[o].owner is Page by {
        assert(before.obj_ok(o));
    }
    assert forall|g: u64| #[trigger] after.slabs@.contains(g) implies after.slab_ok(
        pages1,
        mem,
        g,
    ) by {
        assert(before.slab_ok(pages0, mem, g));
        assert forall|k: u64|
            g <= k < g + pow2(after.ord as nat) implies (#[trigger] pages1.page(k)).head_page
            == g by {
            assert(pages0.page(k).head_page == g);
        }
    }
    assert forall|o: u64| #[trigger] after.objs@.contains_key(o) implies after.obj_ok(o) by {
        assert(before.obj_ok(o));
    }
    assert forall|h: int| 0 <= h < NCPU implies #[trigger] after.cpu_ok(mem, h) by {
        assert(before.cpu_ok(mem, h));
        assert forall|o: u64| #[trigger]
            after.cpu(h).freelist@.contains(o) implies after.objs@.contains_key(o)
            && after.objs@[o].owner == Owner::Cpu(h) && after.cpu(h).page == Some(
            PageFrame(after.objs@[o].slab),
        ) by {
            assert(before.objs@[o].owner == Owner::Cpu(h));
        }
    }
    assert forall|g: u64| #[trigger]
        after.node.data.frames@.contains(g) <==> (after.slabs@.contains(g) && pages1.page(
            g,
        ).freelist.data@.len() > 0) by {
        if g != f {
            assert(frames.contains(g) <==> (before.slabs@.contains(g) && pages0.page(
                g,
            ).freelist.data@.len() > 0));
            if before.slabs@.contains(g) {
                assert(before.slab_ok(pages0, mem, g));
            }
        }
    }
    assert forall|o: u64| after.allocated(o) == before.allocated(o) by {
        if before.objs@.contains_key(o) && before.objs@[o].slab == f {
            assert(before.objs@[o].owner is Page);
        }
    }
}

/// The slab that left the cache is clear of the free runs and of the slabs that stay.
pub proof fn lemma_release_regions<const ORDER: usize>(
    before: &MemCache,
    pages0: &Pages,
    after: &MemCache,
    mem: &Memory,
    buddy: &Buddy<ORDER>,
    f: u64,
)
    requires
        before.core_ok(pages0, mem),
        before.slabs@.contains(f),
        after.slabs@ == before.slabs@.remove(f),
        after.ord == before.ord,
        buddy.wf(mem),
        before.clear_of(buddy),
    ensures
        frame_run_ok(mem, f, before.ord as nat),
        buddy.clear_of(frame_addr(f), before.ord as nat),
        frame_addr(f) == f * 4096 + PAGE_OFF,
        forall|x: int|
            after.owns(x) ==> before.owns(x) && !(f * 4096 + PAGE_OFF <= x < f * 4096 + PAGE_OFF
                + run_bytes(before.ord as nat)),
        forall|x: int|
            f * 4096 + PAGE_OFF <= x < f * 4096 + PAGE_OFF + run_bytes(before.ord as nat)
                ==> before.owns(x),
{
    reveal(MemCache::core_ok);
    assert(before.slab_ok(pages0, mem, f));
    crate::mm::buddy::buddy::lemma_frame_run(mem, f, before.ord as nat);
    crate::mm::buddy::buddy::lemma_run_bytes(before.ord as nat);
    vstd::arithmetic::power2::lemma_pow2_pos(before.ord as nat);
    vstd::arithmetic::power2::lemma2_to64();
    let p = pow2(before.ord as nat) as int;
    assert forall|x: int|
        #![trigger buddy.is_free(x)]
        #![trigger before.owns(x)]
        f * 4096 + PAGE_OFF <= x < f * 4096 + PAGE_OFF + run_bytes(
            before.ord as nat,
        ) implies before.owns(x) && !buddy.is_free(x) by {
        assert(before.slabs@.contains(f));
    }
    buddy.lemma_clear_from_free(mem, frame_addr(f), before.ord as nat);
    assert forall|x: int| after.owns(x) implies before.owns(x) && !(f * 4096 + PAGE_OFF <= x < f
        * 4096 + PAGE_OFF + run_bytes(before.ord as nat)) by {
        let g = choose|g: u64| #[trigger]
            after.slabs@.contains(g) && g * 4096 + PAGE_OFF <= x < g * 4096 + PAGE_OFF + run_bytes(
                after.ord as nat,
            );
        assert(before.slabs@.contains(g));
        assert(before.slab_ok(pages0, mem, g));
        if g < f {
            lemma_apart(g as int, f as int, p);
        } else {
            lemma_apart(f as int, g as int, p);
        }
    }
}

/// Taking a partial page over touches the descriptors of slabs of the cache only.
pub proof fn lemma_partial_regions(
    before: &MemCache,
    pages0: &Pages,
    after: &MemCache,
    pages1: &Pages,
    mem: &Memory,
    hart: int,
    r: u64,
)
    requires
        before.wf(pages0, mem),
        partial_taken(before, pages0, after, pages1, hart, r),
        after.slabs@ == before.slabs@,
        after.ord == before.ord,
        forall|g: u64|
            pages0.has(g) && !before.node.data.frames@.contains(g) ==> #[trigger] pages1.page(g)
                == pages0.page(g),
    ensures
        forall|g: u64|
            pages0.has(g) && !owns_frame(after, g) ==> #[trigger] pages1.page(g) == pages0.page(g),
        forall|x: int| after.owns(x) <==> before.owns(x),
{
    reveal(MemCache::wf);
    reveal(MemCache::core_ok);
    vstd::arithmetic::power2::lemma_pow2_pos(before.ord as nat);
    assert forall|g: u64| pages0.has(g) && !owns_frame(after, g) implies #[trigger] pages1.page(g)
        == pages0.page(g) by {
        if before.node.data.frames@.contains(g) {
            assert(before.slabs@.contains(g));
            assert(owns_frame(after, g));
        }
    }
    assert forall|x: int| after.owns(x) <==> before.owns(x) by {
        if after.owns(x) {
            let g = choose|g: u64| #[trigger]
                after.slabs@.contains(g) && g * 4096 + PAGE_OFF <= x < g * 4096 + PAGE_OFF
                    + run_bytes(after.ord as nat);
            assert(before.slabs@.contains(g));
        }
        if before.owns(x) {
            let g = choose|g: u64| #[trigger]
                before.slabs@.contains(g) && g * 4096 + PAGE_OFF <= x < g * 4096 + PAGE_OFF
                    + run_bytes(before.ord as nat);
            assert(after.slabs@.contains(g));
        }
    }
}

/// Caches with the same slabs own the same memory.
pub proof fn lemma_owns_same(c1: &MemCache, c2: &MemCache)
    requires
        c1.slabs@ == c2.slabs@,
        c1.ord == c2.ord,
    ensures
        forall|x: int| c1.owns(x) <==> c2.owns(x),
        forall|g: u64| owns_frame(c1, g) <==> owns_frame(c2, g),
{
    assert forall|x: int| c1.owns(x) <==> c2.owns(x) by {
        if c1.owns(x) {
            let g = choose|g: u64| #[trigger]
                c1.slabs@.contains(g) && g * 4096 + PAGE_OFF <= x < g * 4096 + PAGE_OFF
                    + run_bytes(c1.ord as nat);
            assert(c2.slabs@.contains(g));
        }
        if c2.owns(x) {
            let g = choose|g: u64| #[trigger]
                c2.slabs@.contains(g) && g * 4096 + PAGE_OFF <= x < g * 4096 + PAGE_OFF
                    + run_bytes(c2.ord as nat);
            assert(c1.slabs@.contains(g));
        }
    }
    assert forall|g: u64| owns_frame(c1, g) <==> owns_frame(c2, g) by {
        if owns_frame(c1, g) {
            let f = choose|f: u64| #[trigger]
                c1.slabs@.contains(f) && f <= g < f + pow2(c1.ord as nat);
            assert(c2.slabs@.contains(f));
        }
        if owns_frame(c2, g) {
            let f = choose|f: u64| #[trigger]
                c2.slabs@.contains(f) && f <= g < f + pow2(c2.ord as nat);
            assert(c1.slabs@.contains(f));
        }
    }
}

/// A cache that is in order has sizes that fit.
pub proof fn lemma_cfg(c: &MemCache, pages: &Pages, mem: &Memory)
    requires
        c.wf(pages, mem),
    ensures
        c.cfg_ok(),
        mem.wf(),
{
    reveal(MemCache::wf);
    reveal(MemCache::core_ok);
}

/// In a marked compound every frame names the head.
pub proof fn lemma_marked(c: &MemCache, pages0: &Pages, pages1: &Pages, f: u64)
    requires
        slab_marked(c, pages0, pages1, f),
    ensures
        forall|g: u64| f <= g < f + pow2(c.ord as nat) ==> (#[trigger] pages1.page(g)).head_page == f,
{
}

/// The objects of a slab that lies in memory are words of memory, each at its own
/// address.
pub proof fn lemma_slab_objects(c: &MemCache, mem: &Memory, f: u64)
    requires
        c.cfg_ok(),
        mem.wf(),
        frame_run_ok(mem, f, c.ord as nat),
    ensures
        c.slab_objects(f).len() == c.nobjs,
        c.slab_objects(f).len() >= 2,
        c.slab_objects(f)[0] == f * 4096 + PAGE_OFF,
        mem.contains(c.slab_objects(f)[0]),
{
    reveal(crate::mm::memory::addr_ok);
    crate::mm::buddy::buddy::lemma_frame_run(mem, f, c.ord as nat);
    crate::mm::buddy::buddy::lemma_run_bytes(c.ord as nat);
    lemma_obj_bounds(c.size as int, c.nobjs as int, 0);
    assert(c.obj_addr(f, 0) == f * 4096 + PAGE_OFF) by (nonlinear_arith)
        requires
            c.obj_addr(f, 0) == f * 4096 + PAGE_OFF + 0 * c.size,
    ;
}

/// How the regions stand after a refill: the cache owns the new slab on top of what it
/// owned, the slab was free before, and no descriptor outside of the cache's slabs has
/// changed.
pub proof fn lemma_refill_regions<const ORDER: usize>(
    c0: &MemCache,
    after: &MemCache,
    pages0: &Pages,
    pages1: &Pages,
    b0: &Buddy<ORDER>,
    b1: &Buddy<ORDER>,
    f: u64,
)
    requires
        c0.clear_of(b0),
        after.slabs@ == c0.slabs@.insert(f),
        after.ord == c0.ord,
        slab_marked(c0, pages0, pages1, f),
        forall|x: int| b1.is_free(x) ==> b0.is_free(x),
        forall|x: int|
            #![trigger b0.is_free(x)]
            #![trigger b1.is_free(x)]
            f * 4096 + PAGE_OFF <= x < f * 4096 + PAGE_OFF + run_bytes(c0.ord as nat)
                ==> b0.is_free(x) && !b1.is_free(x),
    ensures
        after.clear_of(b1),
        forall|x: int| after.owns(x) ==> c0.owns(x) || b0.is_free(x),
        forall|g: u64|
            pages0.has(g) && !owns_frame(after, g) ==> #[trigger] pages1.page(g) == pages0.page(g),
{
    assert forall|x: int| after.owns(x) implies (c0.owns(x) || b0.is_free(x)) && !b1.is_free(
        x,
    ) by {
        let g = choose|g: u64| #[trigger]
            after.slabs@.contains(g) && g * 4096 + PAGE_OFF <= x < g * 4096 + PAGE_OFF + run_bytes(
                after.ord as nat,
            );
        if g != f {
            assert(c0.slabs@.contains(g));
            assert(c0.owns(x));
        }
    }
    assert forall|g: u64| pages0.has(g) && !owns_frame(after, g) implies #[trigger] pages1.page(g)
        == pages0.page(g) by {
        if f <= g < f + pow2(c0.ord as nat) {
            assert(after.slabs@.contains(f));
        }
    }
}

/// A compound that the buddy allocator held as free is no slab of the cache, and the
/// descriptor table has its frames.
pub proof fn lemma_fresh_frames<const ORDER: usize>(
    c: &MemCache,
    pages: &Pages,
    buddy: &Buddy<ORDER>,
    f: u64,
)
    requires
        c.clear_of(buddy),
        forall|x: int|
            f * 4096 + PAGE_OFF <= x < f * 4096 + PAGE_OFF + run_bytes(c.ord as nat)
                ==> buddy.is_free(x),
        c.ord <= 3,
    ensures
        forall|x: int|
            f * 4096 + PAGE_OFF <= x < f * 4096 + PAGE_OFF + run_bytes(c.ord as nat) ==> !c.owns(x),
        forall|g: u64| f <= g < f + pow2(c.ord as nat) ==> !owns_frame(c, g),
        !c.slabs@.contains(f),
{
    crate::mm::buddy::buddy::lemma_run_bytes(c.ord as nat);
    vstd::arithmetic::power2::lemma_pow2_pos(c.ord as nat);
    let p = pow2(c.ord as nat) as int;
    assert forall|g: u64| f <= g < f + p implies !owns_frame(c, g) by {
        if owns_frame(c, g) {
            let h = choose|h: u64| #[trigger] c.slabs@.contains(h) && h <= g < h + p;
            let x = g * 4096 + PAGE_OFF;
            assert(h * 4096 + PAGE_OFF <= x < h * 4096 + PAGE_OFF + 4096 * p);
            assert(c.owns(x));
            assert(f * 4096 + PAGE_OFF <= x < f * 4096 + PAGE_OFF + 4096 * p);
        }
    }
    if c.slabs@.contains(f) {
        assert(owns_frame(c, f));
    }
}

/// Making a fresh compound a slab and giving its objects to a hart keeps the cache in
/// order.
pub proof fn lemma_refill(
    c0: &MemCache,
    after: &MemCache,
    pages: &Pages,
    mem: &Memory,
    hart: int,
    f: u64,
    r: u64,
)
    requires
        c0.wf(pages, mem),
        0 <= hart < NCPU,
        forall|x: int|
            f * 4096 + PAGE_OFF <= x < f * 4096 + PAGE_OFF + run_bytes(c0.ord as nat) ==> !c0.owns(
                x,
            ),
        frame_run_ok(mem, f, c0.ord as nat),
        pages.has(f),
        f - PAGE_FRAME_OFFSET + pow2(c0.ord as nat) <= pages@.len(),
        pages.page(f).slub == Some(c0.id),
        pages.page(f).slub_data.value == c0.nobjs,
        pages.page(f).inuse == c0.nobjs,
        pages.page(f).freelist.data@.len() == 0,
        pages.page(f).freelist.data.head == 0,
        forall|g: u64| f <= g < f + pow2(c0.ord as nat) ==> (#[trigger] pages.page(g)).head_page == f,
        after.cpu_slub.data@ == c0.cpu_slub.data@.update(hart, after.cpu(hart)),
        after.cpu(hart).page == Some(PageFrame(f)),
        after.cpu(hart).freelist.wf(mem),
        c0.slab_objects(f).no_duplicates(),
        after.cpu(hart).freelist@ == c0.slab_objects(f).drop_first(),
        r == c0.slab_objects(f)[0],
        after.slabs@ == c0.slabs@.insert(f),
        after.objs@ == Map::new(
            |o: u64| c0.objs@.contains_key(o) || c0.slab_objects(f).contains(o),
            |o: u64|
                if c0.slab_objects(f).contains(o) {
                    ObjState {
                        slab: f,
                        index: index_in(c0.slab_objects(f), o),
                        owner: if o == r {
                            Owner::User
                        } else {
                            Owner::Cpu(hart)
                        },
                    }
                } else {
                    c0.objs@[o]
                },
        ),
        after.outs@ == c0.outs@.insert(f, c0.slab_objects(f).to_set()),
        after.node == c0.node,
        after.size == c0.size,
        after.ord == c0.ord,
        after.nobjs == c0.nobjs,
        after.min_partial == c0.min_partial,
        after.id == c0.id,
    ensures
        after.wf(pages, mem),
        !c0.slabs@.contains(f),
        !c0.objs@.contains_key(r),
        after.allocated(r),
        forall|o: u64| o != r ==> after.allocated(o) == c0.allocated(o),
        r == f * 4096 + PAGE_OFF,
        after.slab_objects(f) == c0.slab_objects(f),
{
    reveal(MemCache::wf);
    reveal(MemCache::core_ok);
    let q = c0.slab_objects(f);
    let l1 = after.cpu(hart).freelist@;
    crate::mm::buddy::buddy::lemma_run_bytes(c0.ord as nat);
    crate::mm::buddy::buddy::lemma_frame_run(mem, f, c0.ord as nat);
    assert(after.slab_objects(f) =~= q);
    // the objects of the new slab lie in its run, so the cache did not know them
    assert forall|i: int| 0 <= i < q.len() implies f * 4096 + PAGE_OFF <= #[trigger] q[i] < f
        * 4096 + PAGE_OFF + run_bytes(c0.ord as nat) && q[i] == c0.obj_addr(f, i) by {
        lemma_obj_bounds(c0.size as int, c0.nobjs as int, i);
    }
    assert forall|o: u64| q.contains(o) implies !c0.objs@.contains_key(o) && 0 <= index_in(q, o)
        < q.len() && q[index_in(q, o)] == o by {
        let i = choose|i: int| 0 <= i < q.len() && q[i] == o;
        if c0.objs@.contains_key(o) {
            lemma_obj_owned(c0, pages, mem, o);
        }
    }
    if c0.slabs@.contains(f) {
        assert(c0.owns(f * 4096 + PAGE_OFF));
    }
    assert(q.contains(q[0]));
    assert forall|o: u64| l1.contains(o) implies q.contains(o) && o != r by {
        let i = choose|i: int| 0 <= i < l1.len() && l1[i] == o;
        assert(q[i + 1] == o);
    }
    vstd::seq_lib::seq_to_set_is_finite(q);
    q.unique_seq_to_set();
    assert forall|g: u64| #[trigger] after.slabs@.contains(g) implies after.slab_ok(
        pages,
        mem,
        g,
    ) by {
        if g == f {
            assert forall|o: u64| #[trigger] after.outs@[g].contains(o) implies after.objs@.contains_key(
                o,
            ) && after.objs@[o].slab == g by {
                assert(q.contains(o));
            }
        } else {
            assert(c0.slab_ok(pages, mem, g));
            assert forall|o: u64| #[trigger]
                pages.page(g).freelist.data@.contains(o) implies after.objs@.contains_key(o)
                && after.objs@[o].owner is Page && after.objs@[o].slab == g by {
                assert(c0.objs@.contains_key(o));
            }
            assert forall|o: u64| #[trigger] after.outs@[g].contains(o) implies after.objs@.contains_key(
                o,
            ) && after.objs@[o].slab == g by {
                assert(c0.objs@.contains_key(o));
            }
        }
    }
    assert forall|o: u64| #[trigger] after.objs@.contains_key(o) implies after.obj_ok(o) by {
        if q.contains(o) {
            assert(q.to_set().contains(o));
        } else {
            assert(c0.obj_ok(o));
            assert(c0.objs@[o].slab != f);
        }
    }
    assert forall|h: int| 0 <= h < NCPU implies #[trigger] after.cpu_ok(mem, h) by {
        assert(c0.cpu_ok(mem, h));
        if h != hart {
            assert(after.cpu(h) == c0.cpu(h));
            assert forall|o: u64| #[trigger]
                after.cpu(h).freelist@.contains(o) implies after.objs@.contains_key(o)
                && after.objs@[o].owner == Owner::Cpu(h) && after.cpu(h).page == Some(
                PageFrame(after.objs@[o].slab),
            ) by {
                assert(c0.objs@.contains_key(o));
            }
        }
    }
    assert forall|g: u64| #[trigger]
        after.node.data.frames@.contains(g) <==> (after.slabs@.contains(g) && pages.page(
            g,
        ).freelist.data@.len() > 0) by {
        if g != f {
            assert(c0.node.data.frames@.contains(g) <==> (c0.slabs@.contains(g) && pages.page(
                g,
            ).freelist.data@.len() > 0));
        } else {
            if c0.node.data.frames@.contains(f) {
                assert(c0.slabs@.contains(f));
            }
        }
    }
    assert forall|o: u64| o != r implies after.allocated(o) == c0.allocated(o) by {}
}

/// How the cache and the descriptors stand after hart `hart` took the first partial page
/// `f` over and got object `r` from it: the page has left the partial list and has
/// no free object of its own, all its objects count as in use, the hart draws from it
/// and holds what was on its free list but `r`, which is allocated now.
pub open spec fn partial_taken(
    before: &MemCache,
    pages0: &Pages,
    after: &MemCache,
    pages1: &Pages,
    hart: int,
    r: u64,
) -> bool {
    let f = before.node.data.frames@[0];
    let list = pages0.page(f).freelist.data@;
    &&& before.node.data.frames@.len() > 0
    &&& list.len() > 0
    &&& r == list[0]
    &&& after.node.data.frames@ == before.node.data.frames@.drop_first()
    &&& after.node.data.nr_partial == before.node.data.nr_partial - 1
    &&& after.cpu(hart).page == Some(PageFrame(f))
    &&& after.cpu(hart).freelist@ == list.drop_first()
    &&& forall|h: int| 0 <= h < NCPU && h != hart ==> after.cpu(h) == before.cpu(h)
    &&& pages1.page(f).freelist.data@.len() == 0
    &&& pages1.page(f).inuse == before.nobjs
    &&& forall|g: u64|
        pages0.has(g) ==> #[trigger] pages1.page(g) == (Page {
            list_node: pages1.page(g).list_node,
            freelist: if g == f {
                pages1.page(g).freelist
            } else {
                pages0.page(g).freelist
            },
            inuse: if g == f {
                before.nobjs
            } else {
                pages0.page(g).inuse
            },
            ..pages0.page(g)
        })
    &&& !before.allocated(r)
    &&& after.allocated(r)
    &&& forall|o: u64| o != r ==> after.allocated(o) == before.allocated(o)
}

/// The first link of the partial list is the first of its frames, and a page on the
/// partial list has a free object.
pub proof fn lemma_partial_first(c: &MemCache, pages: &Pages, mem: &Memory)
    requires
        c.wf(pages, mem),
    ensures
        dll_wf(c.node.data.partial, pages, c.node.data.frames@),
        c.node.data.frames@.len() > 0 ==> c.slabs@.contains(c.node.data.frames@[0]) && pages.page(
            c.node.data.frames@[0],
        ).freelist.data@.len() > 0 && c.slab_ok(pages, mem, c.node.data.frames@[0]),
{
    reveal(MemCache::wf);
    reveal(MemCache::core_ok);
    if c.node.data.frames@.len() > 0 {
        assert(c.node.data.frames@.contains(c.node.data.frames@[0]));
    }
}

/// Taking the first partial page over keeps the cache in order.
pub proof fn lemma_partial_alloc(
    before: &MemCache,
    pages0: &Pages,
    after: &MemCache,
    pages1: &Pages,
    mem: &Memory,
    hart: int,
    r: u64,
)
    requires
        before.wf(pages0, mem),
        0 <= hart < NCPU,
        before.cpu(hart).freelist@.len() == 0,
        before.node.data.frames@.len() > 0,
        r == pages0.page(before.node.data.frames@[0]).freelist.data@[0],
        pages1@.len() == pages0@.len(),
        pages1.unlocked(),
        after.node.free(),
        dll_wf(after.node.data.partial, pages1, before.node.data.frames@.drop_first()),
        after.node.data.frames@ == before.node.data.frames@.drop_first(),
        after.node.data.nr_partial == before.node.data.nr_partial - 1,
        after.cpu_slub.data@ == before.cpu_slub.data@.update(hart, after.cpu(hart)),
        after.cpu(hart).page == Some(PageFrame(before.node.data.frames@[0])),
        after.cpu(hart).freelist@ == pages0.page(before.node.data.frames@[0]).freelist.data@.drop_first(),
        after.cpu(hart).freelist.wf(mem),
        pages1.page(before.node.data.frames@[0]).freelist.data@.len() == 0,
        pages1.page(before.node.data.frames@[0]).freelist.data.head == 0,
        pages1.page(before.node.data.frames@[0]).inuse == before.nobjs,
        forall|g: u64|
            pages0.has(g) ==> #[trigger] pages1.page(g) == (Page {
                list_node: pages1.page(g).list_node,
                freelist: if g == before.node.data.frames@[0] {
                    pages1.page(g).freelist
                } else {
                    pages0.page(g).freelist
                },
                inuse: if g == before.node.data.frames@[0] {
                    before.nobjs
                } else {
                    pages0.page(g).inuse
                },
                ..pages0.page(g)
            }),
        after.objs@ == Map::new(
            |o: u64| before.objs@.contains_key(o),
            |o: u64|
                if pages0.page(before.node.data.frames@[0]).freelist.data@.contains(o) {
                    ObjState {
                        owner: if o == r {
                            Owner::User
                        } else {
                            Owner::Cpu(hart)
                        },
                        ..before.objs@[o]
                    }
                } else {
                    before.objs@[o]
                },
        ),
        after.outs@ == before.outs@.insert(
            before.node.data.frames@[0],
            before.outs@[before.node.data.frames@[0]].union(
                pages0.page(before.node.data.frames@[0]).freelist.data@.to_set(),
            ),
        ),
        after.size == before.size,
        after.ord == before.ord,
        after.nobjs == before.nobjs,
        after.min_partial == before.min_partial,
        after.id == before.id,
        after.slabs == before.slabs,
    ensures
        after.wf(pages1, mem),
        partial_taken(before, pages0, after, pages1, hart, r),
{
    reveal(MemCache::wf);
    reveal(MemCache::core_ok);
    let f = before.node.data.frames@[0];
    let frames = before.node.data.frames@;
    let list = pages0.page(f).freelist.data@;
    let l1 = after.cpu(hart).freelist@;
    lemma_partial_first(before, pages0, mem);
    assert(before.slab_ok(pages0, mem, f));
    assert(list.contains(list[0]));
    assert(list.no_duplicates());
    assert forall|o: u64| l1.contains(o) implies list.contains(o) && o != r by {
        let i = choose|i: int| 0 <= i < l1.len() && l1[i] == o;
        assert(list[i + 1] == o);
    }
    // the objects of the page's list were not out, so the union counts them all
    let out0 = before.outs@[f];
    let set = list.to_set();
    vstd::seq_lib::seq_to_set_is_finite(list);
    list.unique_seq_to_set();
    assert(out0.disjoint(set)) by {
        assert forall|o: u64| out0.contains(o) implies !set.contains(o) by {
            if set.contains(o) {
                assert(list.contains(o));
                assert(before.obj_ok(o));
            }
        }
    }
    vstd::set_lib::lemma_set_disjoint_lens(out0, set);
    assert(out0 + set == out0.union(set));
    assert forall|g: u64| #[trigger] after.slabs@.contains(g) implies after.slab_ok(
        pages1,
        mem,
        g,
    ) by {
        assert(before.slab_ok(pages0, mem, g));
        assert forall|k: u64|
            g <= k < g + pow2(after.ord as nat) implies (#[trigger] pages1.page(k)).head_page
            == g by {
            assert(pages0.has(k));
            assert(pages0.page(k).head_page == g);
        }
        if g == f {
            assert forall|o: u64| #[trigger] pages1.page(g).freelist.data@.contains(o) implies false by {}
            assert forall|o: u64| #[trigger] after.outs@[g].contains(o) implies after.objs@.contains_key(
                o,
            ) && after.objs@[o].slab == g by {
                if set.contains(o) {
                    assert(list.contains(o));
                }
            }
        } else {
            assert forall|o: u64| #[trigger]
                pages1.page(g).freelist.data@.contains(o) implies after.objs@.contains_key(o)
                && after.objs@[o].owner is Page && after.objs@[o].slab == g by {
                assert(pages0.page(g).freelist.data@.contains(o));
                if list.contains(o) {
                    assert(before.objs@[o].slab == f);
                }
            }
        }
    }
    assert forall|o: u64| #[trigger] after.objs@.contains_key(o) implies after.obj_ok(o) by {
        assert(before.obj_ok(o));
        if list.contains(o) {
            assert(set.contains(o));
            assert(before.objs@[o].slab == f);
        } else {
            assert(!set.contains(o));
        }
    }
    assert forall|h: int| 0 <= h < NCPU implies #[trigger] after.cpu_ok(mem, h) by {
        assert(before.cpu_ok(mem, h));
        if h != hart {
            assert(after.cpu(h) == before.cpu(h));
            assert forall|o: u64| #[trigger]
                after.cpu(h).freelist@.contains(o) implies after.objs@.contains_key(o)
                && after.objs@[o].owner == Owner::Cpu(h) && after.cpu(h).page == Some(
                PageFrame(after.objs@[o].slab),
            ) by {
                assert(before.objs@[o].owner == Owner::Cpu(h));
                if list.contains(o) {
                    assert(before.objs@[o].owner is Page);
                }
            }
        } else {
            assert forall|o: u64| #[trigger]
                after.cpu(h).freelist@.contains(o) implies after.objs@.contains_key(o)
                && after.objs@[o].owner == Owner::Cpu(h) && after.cpu(h).page == Some(
                PageFrame(after.objs@[o].slab),
            ) by {
                assert(list.contains(o));
            }
        }
    }
    assert forall|g: u64| #[trigger]
        after.node.data.frames@.contains(g) <==> (after.slabs@.contains(g) && pages1.page(
            g,
        ).freelist.data@.len() > 0) by {
        let t = frames.drop_first();
        if t.contains(g) {
            let i = choose|i: int| 0 <= i < t.len() && t[i] == g;
            assert(frames[i + 1] == g);
            assert(frames.contains(g));
            assert(g != f);
        }
        if after.slabs@.contains(g) && pages1.page(g).freelist.data@.len() > 0 {
            assert(g != f);
            assert(frames.contains(g));
            let i = choose|i: int| 0 <= i < frames.len() && frames[i] == g;
            assert(t[i - 1] == g);
        }
    }
    assert(before.obj_ok(r));
    assert forall|o: u64| o != r implies after.allocated(o) == before.allocated(o) by {
        if before.objs@.contains_key(o) && list.contains(o) {
            assert(before.objs@[o].owner is Page);
        }
    }
}

impl MemCache {
    /// The address of object `i` of the slab at frame `f`.
    pub open spec fn obj_addr(&self, f: u64, i: int) -> int {
        f * 4096 + PAGE_OFF + i * self.size
    }

    /// The sizes fit: objects are whole words, a slab holds two objects at least, and
    /// `nobjs` is what fits into a slab.
    pub open spec fn cfg_ok(&self) -> bool {
        &&& self.size >= 8
        &&& self.size % 8 == 0
        &&& self.ord <= SLUB_MAX_ORD
        &&& self.nobjs >= 2
        &&& self.nobjs == run_bytes(self.ord as nat) / (self.size as int)
        &&& self.nobjs * self.size <= run_bytes(self.ord as nat)
    }

    /// The slab state of hart `h`.
    pub open spec fn cpu(&self, h: int) -> MemCacheCpu {
        self.cpu_slub.data@[h]
    }

    /// The slab at frame `f` is in order: it lies in memory, its frames name `f` as
    /// their head, its head descriptor names this cache and counts the objects that are
    /// not on its free list, and the objects on its free list are known as such.
    pub open spec fn slab_ok(&self, pages: &Pages, mem: &Memory, f: u64) -> bool {
        &&& frame_run_ok(mem, f, self.ord as nat)
        &&& pages.has(f)
        &&& f - PAGE_FRAME_OFFSET + pow2(self.ord as nat) <= pages@.len()
        &&& pages.page(f).slub == Some(self.id)
        &&& pages.page(f).slub_data.value == self.nobjs
        &&& pages.page(f).inuse + pages.page(f).freelist.data@.len() == self.nobjs
        &&& pages.page(f).freelist.data.wf(mem)
        &&& forall|g: u64|
            f <= g < f + pow2(self.ord as nat) ==> (#[trigger] pages.page(g)).head_page == f
        &&& self.outs@.contains_key(f)
        &&& self.outs@[f].finite()
        &&& self.outs@[f].len() == pages.page(f).inuse
        &&& forall|o: u64| #[trigger]
            pages.page(f).freelist.data@.contains(o) ==> self.objs@.contains_key(o)
                && self.objs@[o].owner is Page && self.objs@[o].slab == f
        &&& forall|o: u64| #[trigger]
            self.outs@[f].contains(o) ==> self.objs@.contains_key(o) && self.objs@[o].slab == f
    }

    /// What is known of object `o` is in order: it is object `index` of a slab of this
    /// cache, and it counts as out of its page's free list exactly if it is.
    pub open spec fn obj_ok(&self, o: u64) -> bool {
        &&& self.slabs@.contains(self.objs@[o].slab)
        &&& 0 <= self.objs@[o].index < self.nobjs
        &&& o == self.obj_addr(self.objs@[o].slab, self.objs@[o].index)
        &&& self.outs@[self.objs@[o].slab].contains(o) <==> !(self.objs@[o].owner is Page)
        &&& self.objs@[o].owner matches Owner::Cpu(h) ==> 0 <= h < NCPU
    }

    /// The state of hart `h` is in order: its free list is a list in memory of objects
    /// that are known to be on it, all of the slab page that the hart draws from.
    pub open spec fn cpu_ok(&self, mem: &Memory, h: int) -> bool {
        &&& self.cpu(h).freelist.wf(mem)
        &&& forall|o: u64| #[trigger]
            self.cpu(h).freelist@.contains(o) ==> self.objs@.contains_key(o) && self.objs@[o].owner
                == Owner::Cpu(h) && self.cpu(h).page == Some(PageFrame(self.objs@[o].slab))
    }

    /// The partial list is in order: it links the descriptors of `frames`, counts them,
    /// and holds exactly the slabs whose page has free objects.
    pub open spec fn partial_ok(&self, pages: &Pages) -> bool {
        &&& dll_wf(self.node.data.partial, pages, self.node.data.frames@)
        &&& self.node.data.nr_partial == self.node.data.frames@.len()
        &&& forall|f: u64| #[trigger]
            self.node.data.frames@.contains(f) <==> (self.slabs@.contains(f) && pages.page(
                f,
            ).freelist.data@.len() > 0)
    }

    /// The slabs, the objects and the harts are in order.
    #[verifier::opaque]
    pub open spec fn core_ok(&self, pages: &Pages, mem: &Memory) -> bool {
        &&& self.cfg_ok()
        &&& mem.wf()
        &&& forall|f: u64| #[trigger] self.slabs@.contains(f) ==> self.slab_ok(pages, mem, f)
        &&& forall|o: u64| #[trigger] self.objs@.contains_key(o) ==> self.obj_ok(o)
        &&& forall|h: int| 0 <= h < NCPU ==> #[trigger] self.cpu_ok(mem, h)
    }

    /// The cache is in order, and nobody holds its lock or a lock of a descriptor.
    #[verifier::opaque]
    pub open spec fn wf(&self, pages: &Pages, mem: &Memory) -> bool {
        &&& self.core_ok(pages, mem)
        &&& self.partial_ok(pages)
        &&& self.node.free()
        &&& pages.unlocked()
    }

    /// The fast path of freeing: hart `hart` takes the allocated object `ptr` back
    /// where `frame`, the head frame of its slab, is the page that the hart draws from.
    /// Says whether it did; nothing has changed where it did not.
    pub fn dealloc_fast(
        &mut self,
        hart: usize,
        pages: &Pages,
        mem: &mut Memory,
        ptr: u64,
        frame: PageFrame,
    ) -> (r: bool)
        requires
            old(self).wf(pages, old(mem)),
            hart < NCPU,
            old(self).allocated(ptr),
            frame.0 == old(self).objs@[ptr].slab,
        ensures
            final(self).wf(pages, final(mem)),
            final(mem).same_shape(old(mem)),
            (r, final(self).cpu(hart as int).freelist@) == spec_try_dealloc(
                old(self).cpu(hart as int).page,
                old(self).cpu(hart as int).freelist@,
                ptr,
                frame,
            ),
            !r ==> *final(self) == *old(self) && *final(mem) == *old(mem),
            r ==> {
                &&& !final(self).allocated(ptr)
                &&& final(self).objs@.contains_key(ptr)
                &&& forall|o: u64| o != ptr ==> final(self).allocated(o) == old(self).allocated(o)
                &&& final(self).slabs@ == old(self).slabs@
                &&& final(self).node == old(self).node
                &&& forall|h: int| 0 <= h < NCPU && h != hart ==> final(self).cpu(h) == old(self).cpu(h)
                &&& final(self).cpu(hart as int).page == old(self).cpu(hart as int).page
            },
            forall|a: u64|
                old(mem).contains(a) && a != ptr ==> final(mem).word(a) == old(mem).word(a),
            final(self).size == old(self).size,
            final(self).ord == old(self).ord,
            final(self).nobjs == old(self).nobjs,
            final(self).min_partial == old(self).min_partial,
            final(self).id == old(self).id,
    {
        let mut cpu: MemCacheCpu = self.cpu_slub.data[hart];
        proof {
            reveal(MemCache::wf);
            reveal(MemCache::core_ok);
            lemma_obj_owned(self, pages, mem, ptr);
            assert(self.cpu_ok(mem, hart as int));
            if cpu.freelist@.contains(ptr) {
                assert(self.objs@[ptr].owner == Owner::Cpu(hart as int));
            }
        }
        if !cpu.try_dealloc(mem, ptr, frame) {
            return false;
        }
        let ghost st = self.objs@[ptr];
        self.cpu_slub.data[hart] = cpu;
        self.objs = Ghost(self.objs@.insert(ptr, ObjState { owner: Owner::Cpu(hart as int), ..st }));
        proof {
            lemma_fast_dealloc(old(self), self, pages, old(mem), mem, hart as int, ptr);
        }
        true
    }

    /// Whether byte address `x` lies in a slab of this cache.
    pub open spec fn owns(&self, x: int) -> bool {
        exists|f: u64| #[trigger]
            self.slabs@.contains(f) && f * 4096 + PAGE_OFF <= x < f * 4096 + PAGE_OFF + run_bytes(
                self.ord as nat,
            )
    }

    /// No slab of this cache lies in memory that `buddy` holds as free.
    pub open spec fn clear_of<const ORDER: usize>(&self, buddy: &Buddy<ORDER>) -> bool {
        forall|x: int| self.owns(x) ==> !buddy.is_free(x)
    }

    /// Whether `o` is an object of this cache that is allocated.
    pub open spec fn allocated(&self, o: u64) -> bool {
        self.objs@.contains_key(o) && self.objs@[o].owner is User
    }

    /// The fast path of allocation: takes the first free object that hart `hart` holds;
    /// 0, with nothing changed, where it holds none.
    pub fn alloc_fast(&mut self, hart: usize, pages: &Pages, mem: &Memory) -> (r: u64)
        requires
            old(self).wf(pages, mem),
            hart < NCPU,
        ensures
            final(self).wf(pages, mem),
            r != 0 <==> old(self).cpu(hart as int).freelist@.len() > 0,
            (r, final(self).cpu(hart as int).freelist@) == spec_try_alloc(
                old(self).cpu(hart as int).freelist@,
            ),
            r == 0 ==> *final(self) == *old(self),
            r != 0 ==> {
                &&& !old(self).allocated(r)
                &&& final(self).allocated(r)
                &&& forall|o: u64| o != r ==> final(self).allocated(o) == old(self).allocated(o)
                &&& final(self).slabs@ == old(self).slabs@
                &&& final(self).node == old(self).node
                &&& forall|h: int| 0 <= h < NCPU && h != hart ==> final(self).cpu(h) == old(self).cpu(h)
                &&& final(self).cpu(hart as int).page == old(self).cpu(hart as int).page
            },
            final(self).size == old(self).size,
            final(self).ord == old(self).ord,
            final(self).nobjs == old(self).nobjs,
            final(self).min_partial == old(self).min_partial,
            final(self).id == old(self).id,
    {
        let mut cpu: MemCacheCpu = self.cpu_slub.data[hart];
        proof {
            reveal(MemCache::wf);
            reveal(MemCache::core_ok);
        }
        assert(cpu == self.cpu(hart as int));
        assert(self.cpu_ok(mem, hart as int));
        let r: u64 = cpu.try_alloc(mem);
        if r == 0 {
            return 0;
        }
        let ghost st = self.objs@[r];
        proof {
            assert(self.cpu(hart as int).freelist@.contains(r)) by {
                assert(self.cpu(hart as int).freelist@[0] == r);
            }
        }
        self.cpu_slub.data[hart] = cpu;
        self.objs = Ghost(self.objs@.insert(r, ObjState { owner: Owner::User, ..st }));
        proof {
            lemma_fast_alloc(old(self), self, pages, mem, hart as int, r);
        }
        r
    }

    /// The slow path of allocation, for a hart that holds no free object: under the
    /// lock of the node, takes the first page off the partial list and makes it the page
    /// that the hart draws from; under the lock of the page's free list, moves its free
    /// objects over to the hart, counts them all as in use, and hands out the first. 0,
    /// with nothing changed, where the partial list is empty.
    pub fn alloc_partial(&mut self, hart: usize, pages: &mut Pages, mem: &Memory) -> (r: u64)
        requires
            old(self).wf(old(pages), mem),
            hart < NCPU,
            old(self).cpu(hart as int).freelist@.len() == 0,
        ensures
            final(self).wf(final(pages), mem),
            r != 0 <==> old(self).node.data.frames@.len() > 0,
            r == 0 ==> *final(self) == *old(self) && *final(pages) == *old(pages),
            r != 0 ==> partial_taken(old(self), old(pages), final(self), final(pages), hart as int, r),
            final(self).size == old(self).size,
            final(self).ord == old(self).ord,
            final(self).nobjs == old(self).nobjs,
            final(self).min_partial == old(self).min_partial,
            final(self).id == old(self).id,
            final(self).slabs@ == old(self).slabs@,
            final(pages)@.len() == old(pages)@.len(),
            forall|g: u64|
                old(pages).has(g) && !old(self).node.data.frames@.contains(g) ==> #[trigger] final(pages).page(
                    g,
                ) == old(pages).page(g),
    {
        proof {
            reveal(MemCache::wf);
            reveal(MemCache::core_ok);
            lemma_partial_first(self, pages, mem);
            assert(self.cpu_ok(mem, hart as int));
            self.cpu(hart as int).freelist.lemma_head(mem);
        }
        let guard = self.node.lock(hart, false);
        let p: PageFrame = match self.node.data.partial.remove_next(pages) {
            None => {
                self.node.unlock(guard);
                assert(self.node == old(self).node);
                return 0;
            },
            Some(p) => p,
        };
        let ghost f: u64 = p.0;
        let ghost frames = self.node.data.frames@;
        let ghost mid = *pages;
        assert(frames.len() > 0 && frames[0] == f);
        assert(frames.contains(frames[0]));
        assert(old(self).slab_ok(old(pages), mem, f));
        self.node.data.nr_partial = self.node.data.nr_partial - 1;
        self.node.data.frames = Ghost(frames.drop_first());
        let mut page: Page = *p.get_page(pages);
        let ghost list = page.freelist.data@;
        let mut cpu: MemCacheCpu = self.cpu_slub.data[hart];
        let free = page.freelist.lock(hart, false);
        cpu.page = Some(p);
        cpu.freelist.swap(&mut page.freelist.data);
        page.inuse = self.nobjs;
        let r: u64 = match cpu.freelist.pop(mem) {
            Some(r) => r,
            None => 0,
        };
        page.freelist.unlock(free);
        p.set_page(pages, page);
        self.cpu_slub.data[hart] = cpu;
        self.node.unlock(guard);
        self.objs = Ghost(
            Map::new(
                |o: u64| old(self).objs@.contains_key(o),
                |o: u64|
                    if list.contains(o) {
                        ObjState {
                            owner: if o == r {
                                Owner::User
                            } else {
                                Owner::Cpu(hart as int)
                            },
                            ..old(self).objs@[o]
                        }
                    } else {
                        old(self).objs@[o]
                    },
            ),
        );
        self.outs = Ghost(self.outs@.insert(f, self.outs@[f].union(list.to_set())));
        proof {
            assert(mem.contains(list[0]));
            assert forall|g: u64|
                old(pages).has(g) && !frames.contains(g) implies #[trigger] pages.page(g) == old(
                pages,
            ).page(g) by {
                assert(frames.contains(frames[0]));
                if frames.len() > 1 {
                    assert(frames.contains(frames[1]));
                }
                assert(old(pages).page(f).list_node.data.next
                    == crate::mm::allocator::double_linked_list::next_link(frames, 0));
                assert(mid.page(g) == old(pages).page(g));
            }
            assert forall|g: u64| old(pages).has(g) implies #[trigger] pages.page(g) == (Page {
                list_node: pages.page(g).list_node,
                freelist: if g == f {
                    pages.page(g).freelist
                } else {
                    old(pages).page(g).freelist
                },
                inuse: if g == f {
                    self.nobjs
                } else {
                    old(pages).page(g).inuse
                },
                ..old(pages).page(g)
            }) by {
                assert(mid.page(g) == (Page {
                    list_node: mid.page(g).list_node,
                    ..old(pages).page(g)
                }));
            }
            lemma_partial_alloc(old(self), old(pages), self, pages, mem, hart as int, r);
        }
        r
    }

    /// The objects of the slab at frame `f`, lowest address first.
    pub open spec fn slab_objects(&self, f: u64) -> Seq<u64> {
        Seq::new(self.nobjs as nat, |i: int| self.obj_addr(f, i) as u64)
    }

    /// Carves the slab at `frame` into objects and links them into a list, pushing them
    /// from the highest address down, so that the list hands them out lowest first.
    #[verifier::spinoff_prover]
    #[verifier::rlimit(40)]
    pub fn carve_objects(&self, mem: &mut Memory, frame: PageFrame) -> (list: LinkedList)
        requires
            self.cfg_ok(),
            old(mem).wf(),
            frame_run_ok(old(mem), frame.0, self.ord as nat),
        ensures
            final(mem).wf(),
            final(mem).same_shape(old(mem)),
            list.wf(final(mem)),
            list@ == self.slab_objects(frame.0),
            forall|x: u64|
                old(mem).contains(x) && !(frame.0 * 4096 + PAGE_OFF <= x < frame.0 * 4096 + PAGE_OFF
                    + run_bytes(self.ord as nat)) ==> final(mem).word(x) == old(mem).word(x),
    {
        let ghost f = frame.0;
        proof {
            crate::mm::buddy::buddy::lemma_frame_run(mem, f, self.ord as nat);
            crate::mm::buddy::buddy::lemma_run_bytes(self.ord as nat);
            vstd::arithmetic::power2::lemma2_to64();
        }
        let addr: u64 = frame.0 * 4096 + PAGE_OFF;
        let mut list: LinkedList = LinkedList::new();
        let mut i: u64 = self.nobjs as u64;
        while i > 0
            invariant
                self.cfg_ok(),
                mem.wf(),
                mem.same_shape(old(mem)),
                f == frame.0,
                addr == f * 4096 + PAGE_OFF,
                frame_run_ok(mem, f, self.ord as nat),
                addr + run_bytes(self.ord as nat) <= mem.end(),
                mem.start() <= addr,
                (addr - mem.start()) % 8 == 0,
                0 <= i <= self.nobjs,
                list.wf(mem),
                list@.len() == self.nobjs - i,
                forall|k: int|
                    0 <= k < list@.len() ==> #[trigger] list@[k] == self.obj_addr(f, i + k),
                forall|x: u64|
                    old(mem).contains(x) && !(addr <= x < addr + run_bytes(self.ord as nat))
                        ==> mem.word(x) == old(mem).word(x),
            decreases i,
        {
            i = i - 1;
            proof {
                reveal(crate::mm::memory::addr_ok);
                lemma_obj_bounds(self.size as int, self.nobjs as int, i as int);
            }
            let obj: u64 = addr + i * self.size;
            let ghost mem0 = *mem;
            let ghost l0 = list@;
            proof {
                assert forall|k: int| 0 <= k < l0.len() implies l0[k] != obj by {
                    lemma_obj_order(self.size as int, i as int, i + 1 + k);
                    assert(l0[k] == self.obj_addr(f, i + 1 + k));
                }
            }
            list.push(mem, obj);
            proof {
                assert forall|k: int| 0 <= k < list@.len() implies #[trigger] list@[k]
                    == self.obj_addr(f, i + k) by {
                    if k > 0 {
                        assert(list@[k] == l0[k - 1]);
                    }
                }
                assert forall|x: u64|
                    old(mem).contains(x) && !(addr <= x < addr + run_bytes(
                        self.ord as nat,
                    )) implies mem.word(x) == old(mem).word(x) by {
                    assert(mem0.contains(x));
                }
            }
        }
        assert(list@ =~= self.slab_objects(f));
        list
    }

    /// Makes the compound at `page` a slab of this cache in the descriptor table: every
    /// frame of it records `page` as its head, and the head's descriptor names this
    /// cache, counts all objects as in use, and has an empty free list and a free hook,
    /// each reset under its lock.
    pub fn mark_slab(&self, hart: usize, pages: &mut Pages, page: PageFrame)
        requires
            hart < NCPU,
            self.ord <= 3,
            old(pages).unlocked(),
            old(pages).has(page.0),
            page.0 - PAGE_FRAME_OFFSET + pow2(self.ord as nat) <= old(pages)@.len(),
        ensures
            slab_marked(self, old(pages), final(pages), page.0),
    {
        proof {
            vstd::arithmetic::power2::lemma2_to64();
            vstd::bits::lemma_u64_shl_is_mul(1, self.ord as u64);
        }
        let ghost f = page.0;
        let npages: u64 = 1u64 << (self.ord as u64);
        page.set_head_page(pages, npages);
        let ghost pm = *pages;
        let mut d: Page = *page.get_page(pages);
        d.inuse = self.nobjs;
        d.slub_data = SlubData { value: self.nobjs };
        d.slub = Some(self.id);
        let free = d.freelist.lock(hart, false);
        d.freelist.data.reset();
        d.freelist.unlock(free);
        let hook = d.list_node.lock(hart, false);
        d.list_node.data.reset();
        d.list_node.unlock(hook);
        page.set_page(pages, d);
        proof {
            assert forall|g: u64| f < g < f + pow2(self.ord as nat) implies #[trigger] pages.page(g)
                == (Page { head_page: f, ..old(pages).page(g) }) by {
                assert(pm.page(g) == (Page { head_page: f, ..old(pages).page(g) }));
            }
            assert forall|g: u64|
                old(pages).has(g) && !(f <= g < f + pow2(self.ord as nat)) implies #[trigger] pages.page(
                g,
            ) == old(pages).page(g) by {
                assert(pm.page(g) == old(pages).page(g));
            }
        }
    }

    /// Takes a compound of the cache's order from the buddy allocator, makes it a slab
    /// in the descriptor table, and carves it into a list of objects. `None`, with
    /// nothing changed, where the buddy allocator has no such compound.
    pub fn take_compound<const ORDER: usize>(
        &self,
        hart: usize,
        pages: &mut Pages,
        buddy: &mut Spin<Buddy<ORDER>>,
        mem: &mut Memory,
    ) -> (r: Option<(PageFrame, LinkedList)>)
        requires
            old(buddy).free(),
            hart < NCPU,
            self.wf(old(pages), old(mem)),
            old(buddy).data.wf(old(mem)),
            self.clear_of(&old(buddy).data),
            pages_cover(old(pages), old(mem)),
        ensures
            final(buddy).free(),
            self.wf(final(pages), final(mem)),
            final(buddy).data.wf(final(mem)),
            final(mem).same_shape(old(mem)),
            final(pages)@.len() == old(pages)@.len(),
            final(buddy).data@ == spec_alloc(old(buddy).data@, self.ord as int),
            r is Some <==> spec_alloc_frame(old(buddy).data@, self.ord as int) is Some,
            r is None ==> *final(pages) == *old(pages) && *final(mem) == *old(mem) && *final(buddy)
                == *old(buddy),
            r matches Some((page, list)) ==> {
                &&& Some(page) == spec_alloc_frame(old(buddy).data@, self.ord as int)
                &&& frame_run_ok(final(mem), page.0, self.ord as nat)
                &&& slab_marked(self, old(pages), final(pages), page.0)
                &&& list.wf(final(mem))
                &&& list@ == self.slab_objects(page.0)
                &&& total_frames(final(buddy).data@) == total_frames(old(buddy).data@) - pow2(self.ord as nat)
                &&& forall|x: int|
                    #![trigger old(buddy).data.is_free(x)]
                    #![trigger final(buddy).data.is_free(x)]
                    #![trigger self.owns(x)]
                    page.0 * 4096 + PAGE_OFF <= x < page.0 * 4096 + PAGE_OFF + run_bytes(
                        self.ord as nat,
                    ) ==> old(buddy).data.is_free(x) && !final(buddy).data.is_free(x) && !self.owns(x)
            },
            forall|x: int| final(buddy).data.is_free(x) ==> old(buddy).data.is_free(x),
            forall|x: u64|
                old(mem).contains(x) && !old(buddy).data.is_free(x as int) ==> final(mem).word(x) == old(
                    mem,
                ).word(x),
    {
        proof {
            reveal(MemCache::wf);
            reveal(MemCache::core_ok);
        }
        let page: PageFrame = match super::alloc_pages(buddy, mem, hart, self.ord as usize) {
            Some(p) => p,
            None => {
                return None;
            },
        };
        let ghost f: u64 = page.0;
        let ghost m1 = *mem;
        proof {
            lemma_mem_frame(self, pages, old(mem), mem);
            crate::mm::buddy::buddy::lemma_frame_run(mem, f, self.ord as nat);
            crate::mm::buddy::buddy::lemma_run_bytes(self.ord as nat);
            assert(run_bytes(self.ord as nat) == 4096 * pow2(self.ord as nat));
            lemma_fresh_frames(self, pages, &old(buddy).data, f);
        }
        self.mark_slab(hart, pages, page);
        proof {
            assert forall|g: u64| old(pages).has(g) && owns_frame(self, g) implies #[trigger] pages.page(
                g,
            ) == old(pages).page(g) by {
                assert(!(f <= g < f + pow2(self.ord as nat)));
            }
            lemma_pages_frame(self, old(pages), pages, mem);
        }
        let list: LinkedList = self.carve_objects(mem, page);
        proof {
            lemma_mem_frame(self, pages, &m1, mem);
            assert forall|x: u64| m1.contains(x) && buddy.data.is_free(x as int) implies mem.word(x)
                == m1.word(x) by {}
            buddy.data.lemma_wf_frame(&m1, mem);
            assert forall|x: u64|
                old(mem).contains(x) && !old(buddy).data.is_free(x as int) implies mem.word(x) == old(
                mem,
            ).word(x) by {
                assert(m1.contains(x));
            }
        }
        Some((page, list))
    }

    /// The slowest path of allocation, for a hart that holds no free object: takes a
    /// compound of the cache's order from the buddy allocator, makes it a slab of this
    /// cache and the page that the hart draws from, carves it into objects, gives them
    /// all to the hart, and hands out the first. 0, with nothing changed, where the
    /// buddy allocator has no such compound.
    pub fn alloc_refill<const ORDER: usize>(
        &mut self,
        hart: usize,
        pages: &mut Pages,
        buddy: &mut Spin<Buddy<ORDER>>,
        mem: &mut Memory,
    ) -> (r: u64)
        requires
            old(buddy).free(),
            old(self).wf(old(pages), old(mem)),
            old(buddy).data.wf(old(mem)),
            old(self).clear_of(&old(buddy).data),
            pages_cover(old(pages), old(mem)),
            hart < NCPU,
            old(self).cpu(hart as int).freelist@.len() == 0,
        ensures
            final(buddy).free(),
            final(self).wf(final(pages), final(mem)),
            final(buddy).data.wf(final(mem)),
            final(self).clear_of(&final(buddy).data),
            final(mem).same_shape(old(mem)),
            final(pages)@.len() == old(pages)@.len(),
            final(buddy).data@ == spec_alloc(old(buddy).data@, old(self).ord as int),
            r != 0 <==> spec_alloc_frame(old(buddy).data@, old(self).ord as int) is Some,
            r == 0 ==> *final(self) == *old(self) && *final(pages) == *old(pages) && *final(mem)
                == *old(mem) && *final(buddy) == *old(buddy),
            r != 0 ==> refilled(
                old(self),
                old(pages),
                final(self),
                final(pages),
                hart as int,
                spec_alloc_frame(old(buddy).data@, old(self).ord as int).unwrap().0,
                r,
            ),
            r != 0 ==> total_frames(final(buddy).data@) == total_frames(old(buddy).data@) - pow2(
                old(self).ord as nat,
            ),
            forall|x: int| final(buddy).data.is_free(x) ==> old(buddy).data.is_free(x),
            forall|x: int| final(self).owns(x) ==> old(self).owns(x) || old(buddy).data.is_free(x),
            forall|x: u64|
                old(mem).contains(x) && !old(buddy).data.is_free(x as int) ==> final(mem).word(x) == old(
                    mem,
                ).word(x),
            forall|g: u64|
                old(pages).has(g) && !owns_frame(final(self), g) ==> #[trigger] final(pages).page(g)
                    == old(pages).page(g),
            final(self).size == old(self).size,
            final(self).ord == old(self).ord,
            final(self).nobjs == old(self).nobjs,
            final(self).min_partial == old(self).min_partial,
            final(self).id == old(self).id,
    {
        let (page, list) = match self.take_compound(hart, pages, buddy, mem) {
            Some(pl) => pl,
            None => {
                return 0;
            },
        };
        let ghost f: u64 = page.0;
        let ghost c0 = *self;
        let ghost objsq = self.slab_objects(f);
        let mut cpu: MemCacheCpu = self.cpu_slub.data[hart];
        cpu.page = Some(page);
        cpu.freelist = list;
        proof {
            lemma_cfg(self, pages, mem);
            lemma_slab_objects(self, mem, f);
        }
        let r: u64 = match cpu.freelist.pop(mem) {
            Some(r) => r,
            None => 0,
        };
        self.cpu_slub.data[hart] = cpu;
        self.slabs = Ghost(self.slabs@.insert(f));
        self.objs = Ghost(
            Map::new(
                |o: u64| c0.objs@.contains_key(o) || objsq.contains(o),
                |o: u64|
                    if objsq.contains(o) {
                        ObjState {
                            slab: f,
                            index: index_in(objsq, o),
                            owner: if o == r {
                                Owner::User
                            } else {
                                Owner::Cpu(hart as int)
                            },
                        }
                    } else {
                        c0.objs@[o]
                    },
            ),
        );
        self.outs = Ghost(self.outs@.insert(f, objsq.to_set()));
        proof {
            lemma_marked(&c0, old(pages), pages, f);
            lemma_refill(&c0, self, pages, mem, hart as int, f, r);
            lemma_refill_regions(&c0, self, old(pages), pages, &old(buddy).data, &buddy.data, f);
            assert(refilled(old(self), old(pages), self, pages, hart as int, f, r));
        }
        r
    }

    /// Allocates an object for hart `hart` and returns its address, or 0 where there is
    /// no memory. The hart's own free objects are tried first, then the first page of
    /// the partial list, then a new slab from the buddy allocator.
    pub fn allocate<const ORDER: usize>(
        &mut self,
        hart: usize,
        pages: &mut Pages,
        buddy: &mut Spin<Buddy<ORDER>>,
        mem: &mut Memory,
    ) -> (r: u64)
        requires
            old(buddy).free(),
            old(self).wf(old(pages), old(mem)),
            old(buddy).data.wf(old(mem)),
            old(self).clear_of(&old(buddy).data),
            pages_cover(old(pages), old(mem)),
            hart < NCPU,
        ensures
            final(buddy).free(),
            final(self).wf(final(pages), final(mem)),
            final(buddy).data.wf(final(mem)),
            final(self).clear_of(&final(buddy).data),
            final(mem).same_shape(old(mem)),
            final(pages)@.len() == old(pages)@.len(),
            r == 0 <==> old(self).cpu(hart as int).freelist@.len() == 0 && old(
                self,
            ).node.data.frames@.len() == 0 && spec_alloc_frame(old(buddy).data@, old(self).ord as int) is None,
            r == 0 ==> *final(self) == *old(self) && *final(pages) == *old(pages) && *final(mem)
                == *old(mem) && *final(buddy) == *old(buddy),
            r != 0 ==> !old(self).allocated(r) && final(self).allocated(r) && forall|o: u64|
                o != r ==> final(self).allocated(o) == old(self).allocated(o),
            allocated_by(
                old(self),
                old(pages),
                old(mem),
                &old(buddy).data,
                final(self),
                final(pages),
                final(mem),
                &final(buddy).data,
                hart as int,
                r,
            ),
            forall|h: int| 0 <= h < NCPU && h != hart ==> final(self).cpu(h) == old(self).cpu(h),
            frame_ok(
                old(self),
                old(pages),
                old(mem),
                &old(buddy).data,
                final(self),
                final(pages),
                final(mem),
                &final(buddy).data,
            ),
            final(self).size == old(self).size,
            final(self).ord == old(self).ord,
            final(self).nobjs == old(self).nobjs,
            final(self).min_partial == old(self).min_partial,
            final(self).id == old(self).id,
    {
        let r: u64 = self.alloc_fast(hart, pages, mem);
        if r != 0 {
            proof {
                lemma_owns_same(old(self), self);
                lemma_frame_refl(old(self), pages, mem, &buddy.data);
                reveal(frame_ok);
            }
            return r;
        }
        let r: u64 = self.alloc_partial(hart, pages, mem);
        if r != 0 {
            proof {
                lemma_partial_regions(old(self), old(pages), self, pages, mem, hart as int, r);
                reveal(frame_ok);
            }
            return r;
        }
        let r: u64 = self.alloc_refill(hart, pages, buddy, mem);
        proof {
            reveal(frame_ok);
        }
        r
    }

    /// The first step of the slow path of freeing: puts the allocated object `ptr` in
    /// front of the free list of its slab page `frame`, under the lock of that list, and
    /// counts one object less as in use. Returns whether the free list was empty before,
    /// and whether no object of the page is in use any more.
    pub fn page_push(
        &mut self,
        hart: usize,
        pages: &mut Pages,
        mem: &mut Memory,
        ptr: u64,
        frame: PageFrame,
    ) -> (r: (bool, bool))
        requires
            hart < NCPU,
            old(self).wf(old(pages), old(mem)),
            old(self).allocated(ptr),
            frame.0 == old(self).objs@[ptr].slab,
        ensures
            pushed(old(self), old(pages), final(self), final(pages), final(mem), ptr, frame.0, r.0),
            r.0 == (old(pages).page(frame.0).freelist.data@.len() == 0),
            r.1 == (old(pages).page(frame.0).inuse == 1),
            final(mem).same_shape(old(mem)),
            forall|a: u64|
                old(mem).contains(a) && a != ptr ==> final(mem).word(a) == old(mem).word(a),
            final(self).size == old(self).size,
            final(self).ord == old(self).ord,
            final(self).nobjs == old(self).nobjs,
            final(self).min_partial == old(self).min_partial,
            final(self).id == old(self).id,
    {
        proof {
            lemma_push_ready(self, pages, mem, ptr);
        }
        proof {
            lemma_wf_unlocked(self, pages, mem);
        }
        let ghost f = frame.0;
        let mut page: Page = *frame.get_page(pages);
        let free = page.freelist.lock(hart, false);
        let full: bool = page.freelist.data.empty();
        page.freelist.data.push(mem, ptr);
        page.freelist.unlock(free);
        let empty: bool = page.inuse == 1;
        page.inuse = page.inuse - 1;
        frame.set_page(pages, page);
        let ghost st = self.objs@[ptr];
        self.objs = Ghost(self.objs@.insert(ptr, ObjState { owner: Owner::Page, ..st }));
        self.outs = Ghost(self.outs@.insert(f, self.outs@[f].remove(ptr)));
        proof {
            assert forall|g: u64| pages.has(g) implies (#[trigger] pages.page(g)).unlocked() by {
                assert(old(pages).page(g).unlocked());
            }
            lemma_page_push(old(self), old(pages), old(mem), self, pages, mem, ptr);
        }
        (full, empty)
    }

    /// Puts the slab page `frame`, which has got its first free object, on the partial
    /// list, under the locks of the node and of the page's hook.
    pub fn link_partial(&mut self, hart: usize, pages: &mut Pages, mem: &Memory, frame: PageFrame)
        requires
            hart < NCPU,
            half_ok(old(self), old(pages), mem, frame.0, true),
        ensures
            final(self).wf(final(pages), mem),
            final(self).node.data.frames@ == seq![frame.0] + old(self).node.data.frames@,
            final(self).node.data.nr_partial == old(self).node.data.nr_partial + 1,
            final(self).cpu_slub == old(self).cpu_slub,
            final(self).slabs@ == old(self).slabs@,
            final(self).objs@ == old(self).objs@,
            final(pages)@.len() == old(pages)@.len(),
            forall|g: u64|
                old(pages).has(g) ==> #[trigger] final(pages).page(g) == (Page {
                    list_node: final(pages).page(g).list_node,
                    ..old(pages).page(g)
                }),
            forall|g: u64|
                old(pages).has(g) && g != frame.0 && !old(self).node.data.frames@.contains(g)
                    ==> #[trigger] final(pages).page(g) == old(pages).page(g),
            final(self).size == old(self).size,
            final(self).ord == old(self).ord,
            final(self).nobjs == old(self).nobjs,
            final(self).min_partial == old(self).min_partial,
            final(self).id == old(self).id,
    {
        let ghost frames = self.node.data.frames@;
        proof {
            lemma_partial_bound(self, pages, mem, frame.0);
            reveal(MemCache::core_ok);
            assert(self.slab_ok(pages, mem, frame.0));
            assert(dll_wf(self.node.data.partial, pages, frames) && !frames.contains(frame.0));
            if frame.0 == crate::mm::allocator::double_linked_list::LINK_HEAD {
                assert(pages.has(frame.0));
            }
            if frames.len() > 0 {
                assert(frames.contains(frames[0]));
            }
        }
        let guard = self.node.lock(hart, false);
        let hook = lock_hook(pages, frame, hart);
        proof {
            lemma_relock(self.node.data.partial, old(pages), pages, frames);
        }
        let ghost held = *pages;
        self.node.data.partial.insert(pages, frame);
        let ghost linked = *pages;
        self.node.data.nr_partial = self.node.data.nr_partial + 1;
        self.node.data.frames = Ghost(seq![frame.0] + frames);
        unlock_hook(pages, frame, hook);
        self.node.unlock(guard);
        proof {
            lemma_relock(self.node.data.partial, &linked, pages, seq![frame.0] + frames);
            assert forall|g: u64| old(pages).has(g) implies #[trigger] pages.page(g) == (Page {
                list_node: pages.page(g).list_node,
                ..old(pages).page(g)
            }) && pages.page(g).unlocked() && (g != frame.0 && !frames.contains(g) ==> pages.page(g)
                == old(pages).page(g)) by {
                assert(old(pages).page(g).unlocked());
                assert(held.page(g) == (Page {
                    list_node: held.page(g).list_node,
                    ..old(pages).page(g)
                }));
                assert(linked.page(g) == (Page {
                    list_node: linked.page(g).list_node,
                    ..held.page(g)
                }));
            }
            lemma_link_partial(old(self), old(pages), self, pages, mem, frame.0);
        }
    }

    /// Gives the slab at `frame`, all of whose objects are on its page's free list, back
    /// to the buddy allocator: takes its page off the partial list, under the locks of
    /// the node and of the page's hook, and frees the compound.
    pub fn release_slab<const ORDER: usize>(
        &mut self,
        pages: &mut Pages,
        buddy: &mut Spin<Buddy<ORDER>>,
        mem: &mut Memory,
        hart: usize,
        frame: PageFrame,
    )
        requires
            old(buddy).free(),
            hart < NCPU,
            half_ok(old(self), old(pages), old(mem), frame.0, false),
            old(self).ord < ORDER,
            old(pages).page(frame.0).inuse == 0,
            old(buddy).data.wf(old(mem)),
            old(self).clear_of(&old(buddy).data),
        ensures
            final(buddy).free(),
            final(self).wf(final(pages), final(mem)),
            final(buddy).data.wf(final(mem)),
            final(self).clear_of(&final(buddy).data),
            final(mem).same_shape(old(mem)),
            final(pages)@.len() == old(pages)@.len(),
            final(buddy).data@ == spec_free(old(buddy).data@, frame_addr(frame.0), old(self).ord as nat),
            total_frames(final(buddy).data@) == total_frames(old(buddy).data@) + pow2(
                old(self).ord as nat,
            ),
            forall|x: int|
                final(buddy).data.is_free(x) <==> (old(buddy).data.is_free(x) || frame_addr(frame.0)
                    <= x < frame_addr(frame.0) + run_bytes(old(self).ord as nat)),
            final(self).slabs@ == old(self).slabs@.remove(frame.0),
            final(self).node.data.frames@ == old(self).node.data.frames@.remove(
                index_in(old(self).node.data.frames@, frame.0),
            ),
            final(self).node.data.nr_partial == old(self).node.data.nr_partial - 1,
            final(self).cpu_slub == old(self).cpu_slub,
            forall|o: u64| final(self).allocated(o) == old(self).allocated(o),
            forall|g: u64|
                old(pages).has(g) ==> #[trigger] final(pages).page(g) == (Page {
                    list_node: final(pages).page(g).list_node,
                    ..old(pages).page(g)
                }),
            forall|g: u64|
                old(pages).has(g) && !old(self).node.data.frames@.contains(g) ==> #[trigger] final(pages).page(
                    g,
                ) == old(pages).page(g),
            frame_ok(
                old(self),
                old(pages),
                old(mem),
                &old(buddy).data,
                final(self),
                final(pages),
                final(mem),
                &final(buddy).data,
            ),
            final(self).size == old(self).size,
            final(self).ord == old(self).ord,
            final(self).nobjs == old(self).nobjs,
            final(self).min_partial == old(self).min_partial,
            final(self).id == old(self).id,
    {
        let ghost f = frame.0;
        let ghost frames = self.node.data.frames@;
        let ghost i = index_in(frames, f);
        proof {
            reveal(MemCache::core_ok);
            assert(frames.contains(f));
            assert(self.slab_ok(pages, mem, f));
        }
        let guard = self.node.lock(hart, false);
        let hook = lock_hook(pages, frame, hart);
        proof {
            lemma_relock(self.node.data.partial, old(pages), pages, frames);
        }
        let ghost held = *pages;
        self.node.data.partial.remove(pages, frame);
        let ghost cut = *pages;
        self.node.data.nr_partial = self.node.data.nr_partial - 1;
        self.node.data.frames = Ghost(frames.remove(i));
        unlock_hook(pages, frame, hook);
        self.node.unlock(guard);
        proof {
            lemma_relock(self.node.data.partial, &cut, pages, frames.remove(i));
            assert forall|g: u64| old(pages).has(g) implies #[trigger] pages.page(g) == (Page {
                list_node: pages.page(g).list_node,
                ..old(pages).page(g)
            }) && pages.page(g).unlocked() && (!frames.contains(g) ==> pages.page(g) == old(
                pages,
            ).page(g)) by {
                assert(old(pages).page(g).unlocked());
                assert(held.page(g) == (Page {
                    list_node: held.page(g).list_node,
                    ..old(pages).page(g)
                }));
                assert(cut.page(g) == (Page {
                    list_node: cut.page(g).list_node,
                    ..held.page(g)
                }));
            }
        }
        self.slabs = Ghost(self.slabs@.remove(f));
        self.objs = Ghost(
            Map::new(
                |o: u64| old(self).objs@.contains_key(o) && old(self).objs@[o].slab != f,
                |o: u64| old(self).objs@[o],
            ),
        );
        self.outs = Ghost(self.outs@.remove(f));
        proof {
            lemma_release(old(self), old(pages), self, pages, mem, f, i);
            lemma_release_regions(old(self), old(pages), self, mem, &buddy.data, f);
        }
        let ghost m0 = *mem;
        let ord: usize = self.ord as usize;
        super::free_pages(buddy, mem, hart, frame, ord);
        proof {
            crate::mm::buddy::buddy::lemma_frame_run(&m0, f, self.ord as nat);
            lemma_mem_frame(self, pages, &m0, mem);
            lemma_release_frame(
                old(self),
                old(pages),
                old(mem),
                &old(buddy).data,
                self,
                pages,
                mem,
                &buddy.data,
                f,
            );
        }
    }

    /// The slow path of freeing, for an object whose slab the hart does not draw from:
    /// the object goes on the free list of its page; then the page goes on the partial
    /// list where that was its first free object, or back to the buddy allocator where
    /// none of its objects is in use and the partial list holds more than
    /// `min_partial` pages.
    pub fn dealloc_slow<const ORDER: usize>(
        &mut self,
        hart: usize,
        pages: &mut Pages,
        buddy: &mut Spin<Buddy<ORDER>>,
        mem: &mut Memory,
        ptr: u64,
        frame: PageFrame,
    )
        requires
            old(self).ord < ORDER,
            old(buddy).free(),
            hart < NCPU,
            old(self).wf(old(pages), old(mem)),
            old(buddy).data.wf(old(mem)),
            old(self).clear_of(&old(buddy).data),
            old(self).allocated(ptr),
            frame.0 == old(self).objs@[ptr].slab,
        ensures
            final(buddy).free(),
            final(self).wf(final(pages), final(mem)),
            final(buddy).data.wf(final(mem)),
            final(self).clear_of(&final(buddy).data),
            frame_ok(
                old(self),
                old(pages),
                old(mem),
                &old(buddy).data,
                final(self),
                final(pages),
                final(mem),
                &final(buddy).data,
            ),
            forall|o: u64| final(self).allocated(o) == (old(self).allocated(o) && o != ptr),
            final(self).cpu_slub == old(self).cpu_slub,
            if old(pages).page(frame.0).inuse == 1 && old(self).node.data.nr_partial > old(
                self,
            ).min_partial {
                &&& final(self).slabs@ == old(self).slabs@.remove(frame.0)
                &&& final(self).node.data.frames@ == old(self).node.data.frames@.remove(
                    index_in(old(self).node.data.frames@, frame.0),
                )
                &&& final(buddy).data@ == spec_free(
                    old(buddy).data@,
                    frame_addr(frame.0),
                    old(self).ord as nat,
                )
                &&& total_frames(final(buddy).data@) == total_frames(old(buddy).data@) + pow2(
                    old(self).ord as nat,
                )
                &&& forall|x: int|
                    final(buddy).data.is_free(x) <==> (old(buddy).data.is_free(x) || frame_addr(
                        frame.0,
                    ) <= x < frame_addr(frame.0) + run_bytes(old(self).ord as nat))
            } else {
                &&& final(self).slabs@ == old(self).slabs@
                &&& *final(buddy) == *old(buddy)
                &&& final(pages).page(frame.0).freelist.data@ == seq![ptr] + old(pages).page(
                    frame.0,
                ).freelist.data@
                &&& final(pages).page(frame.0).inuse == old(pages).page(frame.0).inuse - 1
                &&& final(self).node.data.frames@ == (if old(pages).page(frame.0).freelist.data@.len() == 0 {
                    seq![frame.0] + old(self).node.data.frames@
                } else {
                    old(self).node.data.frames@
                })
            },
            final(self).size == old(self).size,
            final(self).ord == old(self).ord,
            final(self).nobjs == old(self).nobjs,
            final(self).min_partial == old(self).min_partial,
            final(self).id == old(self).id,
    {
        proof {
            lemma_obj_owned(self, pages, mem, ptr);
            lemma_frames_owned(self, pages, mem);
            lemma_last_in_use(self, pages, mem, frame.0);
        }
        let (full, empty) = self.page_push(hart, pages, mem, ptr, frame);
        let ghost c1 = *self;
        let ghost p1 = *pages;
        let ghost m1 = *mem;
        proof {
            lemma_pushed_facts(old(self), old(pages), self, pages, mem, ptr, frame.0, full);
            lemma_buddy_frame(old(self), &buddy.data, old(mem), mem, ptr);
            lemma_push_frame(old(self), old(pages), old(mem), self, pages, mem, &buddy.data, ptr, frame.0);
        }
        if empty {
            if self.node.data.nr_partial > self.min_partial {
                self.release_slab(pages, buddy, mem, hart, frame);
                proof {
                    lemma_frame_then(
                        old(self), old(pages), old(mem), &old(buddy).data, &c1, &p1, &m1, self, pages,
                        mem, &buddy.data,
                    );
                }
            } else {
                proof {
                    lemma_half_whole(self, pages, mem, frame.0);
                }
            }
        } else if full {
            self.link_partial(hart, pages, mem, frame);
            proof {
                lemma_link_frame(&c1, &p1, &m1, self, pages, &buddy.data, frame.0);
                lemma_frame_then(
                    old(self), old(pages), old(mem), &old(buddy).data, &c1, &p1, &m1, self, pages, mem,
                    &buddy.data,
                );
            }
        } else {
            proof {
                lemma_half_whole(self, pages, mem, frame.0);
            }
        }
    }

    /// Frees the allocated object `ptr` on hart `hart`; `frame` is the head frame of its
    /// slab. The hart takes the object back itself where it draws from that slab.
    /// Otherwise the object goes on the free list of its page. A page that has got its
    /// first free object by that goes on the partial list. A page none of whose objects
    /// is in use after that goes back to the buddy allocator, if the partial list holds
    /// more than `min_partial` pages.
    pub fn dealloc<const ORDER: usize>(
        &mut self,
        hart: usize,
        pages: &mut Pages,
        buddy: &mut Spin<Buddy<ORDER>>,
        mem: &mut Memory,
        ptr: u64,
        frame: PageFrame,
    )
        requires
            old(self).ord < ORDER,
            old(buddy).free(),
            old(self).wf(old(pages), old(mem)),
            old(buddy).data.wf(old(mem)),
            old(self).clear_of(&old(buddy).data),
            hart < NCPU,
            old(self).allocated(ptr),
            frame.0 == old(self).objs@[ptr].slab,
        ensures
            final(buddy).free(),
            final(self).wf(final(pages), final(mem)),
            final(buddy).data.wf(final(mem)),
            final(self).clear_of(&final(buddy).data),
            frame_ok(
                old(self),
                old(pages),
                old(mem),
                &old(buddy).data,
                final(self),
                final(pages),
                final(mem),
                &final(buddy).data,
            ),
            forall|o: u64| final(self).allocated(o) == (old(self).allocated(o) && o != ptr),
            freed_by(
                old(self),
                old(pages),
                &old(buddy).data,
                final(self),
                final(pages),
                &final(buddy).data,
                hart as int,
                ptr,
                frame.0,
            ),
            forall|h: int| 0 <= h < NCPU && h != hart ==> final(self).cpu(h) == old(self).cpu(h),
            final(self).size == old(self).size,
            final(self).ord == old(self).ord,
            final(self).nobjs == old(self).nobjs,
            final(self).min_partial == old(self).min_partial,
            final(self).id == old(self).id,
    {
        proof {
            lemma_obj_owned(self, pages, mem, ptr);
            lemma_frames_owned(self, pages, mem);
        }
        if self.dealloc_fast(hart, pages, mem, ptr, frame) {
            proof {
                lemma_buddy_frame(old(self), &buddy.data, old(mem), mem, ptr);
                lemma_push_frame(
                    old(self), pages, old(mem), self, pages, mem, &buddy.data, ptr, frame.0,
                );
            }
            return ;
        }
        self.dealloc_slow(hart, pages, buddy, mem, ptr, frame);
    }

    /// Tells a cache that has no slab yet its index in the table of caches.
    pub fn set_id(&mut self, id: usize)
        requires
            old(self).slabs@ == Set::<u64>::empty(),
        ensures
            *final(self) == (MemCache { id, ..*old(self) }),
            forall|pages: &Pages, mem: &Memory|
                old(self).wf(pages, mem) ==> #[trigger] final(self).wf(pages, mem),
            forall|x: int| !final(self).owns(x),
    {
        let ghost before = *self;
        self.id = id;
        proof {
            assert forall|pages: &Pages, mem: &Memory| before.wf(pages, mem) implies #[trigger] self.wf(
                pages,
                mem,
            ) by {
                reveal(MemCache::wf);
                reveal(MemCache::core_ok);
                assert forall|o: u64| #[trigger] self.objs@.contains_key(o) implies self.obj_ok(
                    o,
                ) by {
                    assert(before.obj_ok(o));
                }
                assert forall|h: int| 0 <= h < NCPU implies #[trigger] self.cpu_ok(mem, h) by {
                    assert(before.cpu_ok(mem, h));
                }
            }
        }
    }

    /// A cache for objects of `obj_size` bytes, rounded up to a multiple of `align`.
    pub fn new(obj_size: u64, align: u64) -> (r: Self)
        requires
            obj_size >= 8,
            crate::mm::is_power_of_two(align),
            spec_align_up(obj_size as int, align as int) <= 32768,
        ensures
            r.size == spec_align_up(obj_size as int, align as int),
            r.ord == spec_cache_ord(r.size),
            r.nobjs == run_bytes(r.ord as nat) / (r.size as int),
            r.min_partial == 8,
            r.id == 0,
            r.node.data.nr_partial == 0,
            r.node.data.frames@ == Seq::<u64>::empty(),
            r.slabs@ == Set::<u64>::empty(),
            r.objs@ == Map::<u64, ObjState>::empty(),
            forall|h: int| 0 <= h < NCPU ==> r.cpu_slub.data@[h].page is None && r.cpu_slub.data@[h].freelist@.len() == 0,
            r.size % 8 == 0 && r.size <= 16384 ==> r.cfg_ok(),
            r.size % 8 == 0 && r.size <= 16384 ==> forall|pages: &Pages, mem: &Memory|
                mem.wf() && pages.unlocked() ==> #[trigger] r.wf(pages, mem),
            forall|x: int| !r.owns(x),
            r.ord <= 3,
    {
        proof {
            vstd::arithmetic::power2::lemma2_to64();
            let k = choose|k: nat| k < 64 && align == #[trigger] pow2(k);
            vstd::arithmetic::power2::lemma_pow2_pos(k);
        }
        let rem: u64 = obj_size % align;
        assert(rem <= obj_size && rem < align) by (nonlinear_arith)
            requires
                rem == obj_size % align,
                align > 0,
        ;
        let size: u64 = if rem == 0 {
            obj_size
        } else {
            obj_size - rem + align
        };
        let want: u64 = size * SLUB_MIN_OBJ;
        let ord: u16 = if want <= 4096 {
            0
        } else if want <= 8192 {
            1
        } else if want <= 16384 {
            2
        } else {
            3
        };
        let ord: u16 = min(ord, SLUB_MAX_ORD);
        let bytes: u64 = if ord == 0 {
            4096
        } else if ord == 1 {
            8192
        } else if ord == 2 {
            16384
        } else {
            32768
        };
        assert(bytes == run_bytes(ord as nat));
        let nobjs: u64 = bytes / size;
        proof {
            assert(nobjs * size <= bytes) by (nonlinear_arith)
                requires
                    nobjs == bytes / size,
                    size > 0,
            ;
            if size <= 16384 {
                assert(nobjs >= 2) by (nonlinear_arith)
                    requires
                        nobjs == bytes / size,
                        size > 0,
                        2 * size <= bytes,
                ;
            }
            assert(nobjs <= 4096) by (nonlinear_arith)
                requires
                    nobjs == bytes / size,
                    size >= 8,
                    bytes <= 32768,
            ;
        }
        let r = MemCache {
            cpu_slub: PerCpu::new(MemCacheCpu::new()),
            node: Spin::new(MemCacheNode::new()),
            size,
            ord,
            nobjs: nobjs as u16,
            min_partial: 8,
            id: 0,
            slabs: Ghost(Set::empty()),
            objs: Ghost(Map::empty()),
            outs: Ghost(Map::empty()),
        };
        proof {
            if r.size % 8 == 0 && r.size <= 16384 {
                assert forall|pages: &Pages, mem: &Memory|
                    mem.wf() && pages.unlocked() implies #[trigger] r.wf(pages, mem) by {
                    reveal(MemCache::wf);
                    reveal(MemCache::core_ok);
                    assert forall|h: int| 0 <= h < NCPU implies #[trigger] r.cpu_ok(mem, h) by {
                        assert(r.cpu(h).freelist@.len() == 0);
                    }
                }
            }
        }
        r
    }
}

} // verus!
