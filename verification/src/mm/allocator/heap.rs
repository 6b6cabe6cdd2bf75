//! The kernel heap.
//!
//! Requests up to the largest object size go to the slab cache of the next
//! size; larger ones get a compound of their own from the buddy allocator.
//! When an address comes back, the descriptor of its compound's head frame
//! tells which of the two it was.

use vstd::arithmetic::power2::pow2;
use vstd::prelude::*;

use super::slub::{allocated_by, frame_ok, freed_by, lemma_mem_frame, lemma_obj_frame, lemma_pages_frame, owns_frame, pages_cover, MemCache};
use crate::mm::buddy::buddy::{
    frame_addr, frame_run_ok, run_bytes, spec_alloc_frame, total_frames, Buddy,
};
use crate::mm::memory::Memory;
use crate::mm::page::{Page, Pages, SlubData};
use crate::mm::{PageFrame, VirtualAddr, PAGE_OFF};
use crate::sync::{Spin, NCPU};

verus! {

/// The number of slab caches.
pub const SLUB_LEN: usize = 13;

/// The object size of slab cache `i`.
pub open spec fn spec_slub_info(i: int) -> u64 {
    if i == 0 {
        8
    } else if i == 1 {
        16
    } else if i == 2 {
        32
    } else if i == 3 {
        64
    } else if i == 4 {
        96
    } else if i == 5 {
        128
    } else if i == 6 {
        192
    } else if i == 7 {
        256
    } else if i == 8 {
        512
    } else if i == 9 {
        1024
    } else if i == 10 {
        2048
    } else if i == 11 {
        4096
    } else {
        8192
    }
}

/// The object size of slab cache `i`.
pub fn slub_info(i: usize) -> (r: u64)
    requires
        i < SLUB_LEN,
    ensures
        r == spec_slub_info(i as int),
{
    let info: [u64; 13] = [8, 16, 32, 64, 96, 128, 192, 256, 512, 1024, 2048, 4096, 8192];
    info[i]
}

/// The cache that serves objects of `size` bytes: the first whose objects are large
/// enough. `SLUB_LEN` where none is.
pub open spec fn spec_cache_index(size: u64, i: int) -> int
    decreases SLUB_LEN - i,
{
    if i >= SLUB_LEN {
        SLUB_LEN as int
    } else if i >= 0 && spec_slub_info(i) >= size {
        i
    } else {
        spec_cache_index(size, i + 1)
    }
}

/// The order of the compound that serves a request of `size` bytes which is too large
/// for the caches: the lowest whose `2^k` pages hold it.
pub open spec fn spec_large_ord(size: u64, k: nat) -> nat
    decreases 64 - k,
{
    if k >= 63 || 4096 * pow2(k) >= size {
        k
    } else {
        spec_large_ord(size, k + 1)
    }
}

/// The heap: the slab caches, and the orders of the compounds that were handed out whole,
/// by head frame.
pub struct Slub {
    pub caches: Vec<MemCache>,
    pub large: Ghost<Map<u64, u16>>,
}

/// Whether byte address `x` lies in the compound of order `k` at frame `f`.
pub open spec fn in_run(f: u64, k: nat, x: int) -> bool {
    f * 4096 + PAGE_OFF <= x < f * 4096 + PAGE_OFF + run_bytes(k)
}

impl Slub {
    /// Cache `c`.
    pub open spec fn cache(&self, c: int) -> &MemCache {
        &self.caches@[c]
    }

    /// Whether byte address `x` lies in a compound that was handed out whole.
    pub open spec fn large_owns(&self, x: int) -> bool {
        exists|f: u64| #[trigger] self.large@.contains_key(f) && in_run(f, self.large@[f] as nat, x)
    }

    /// Whether byte address `x` lies in memory that the heap has taken from the buddy
    /// allocator: in a slab of one of its caches, or in a compound that was handed out
    /// whole.
    pub open spec fn owns(&self, x: int) -> bool {
        ||| exists|c: int| 0 <= c < SLUB_LEN && #[trigger] self.cache(c).owns(x)
        ||| self.large_owns(x)
    }

    /// Cache `c` is in order, knows its place in the table and its size, and owns no
    /// free memory.
    pub open spec fn cache_ok<const ORDER: usize>(
        &self,
        pages: &Pages,
        mem: &Memory,
        buddy: &Buddy<ORDER>,
        c: int,
    ) -> bool {
        &&& self.cache(c).wf(pages, mem)
        &&& self.cache(c).id == c
        &&& self.cache(c).size == spec_slub_info(c)
        &&& self.cache(c).ord <= 3
        &&& self.cache(c).ord < ORDER
        &&& self.cache(c).clear_of(buddy)
    }

    /// The compound at frame `f` that was handed out whole is marked as such: its head
    /// descriptor names no cache and records the order.
    pub open spec fn large_ok(&self, pages: &Pages, mem: &Memory, f: u64) -> bool {
        &&& frame_run_ok(mem, f, self.large@[f] as nat)
        &&& pages.has(f)
        &&& pages.page(f).slub is None
        &&& pages.page(f).slub_data.value == self.large@[f]
        &&& forall|g: u64|
            f <= g < f + pow2(self.large@[f] as nat) ==> pages.has(g) && (#[trigger] pages.page(
                g,
            )).head_page == f
    }

    /// The heap is in order: every cache is, no two caches own the same memory, the
    /// compounds that were handed out whole are marked, and they are neither free nor
    /// a cache's nor one another's.
    #[verifier::opaque]
    pub open spec fn wf<const ORDER: usize>(
        &self,
        pages: &Pages,
        mem: &Memory,
        buddy: &Buddy<ORDER>,
    ) -> bool {
        &&& self.caches@.len() == SLUB_LEN
        &&& buddy.wf(mem)
        &&& pages_cover(pages, mem)
        &&& forall|c: int| 0 <= c < SLUB_LEN ==> #[trigger] self.cache_ok(pages, mem, buddy, c)
        &&& forall|c: int, d: int, x: int|
            0 <= c < SLUB_LEN && 0 <= d < SLUB_LEN && c != d ==> !(#[trigger] self.cache(c).owns(x)
                && #[trigger] self.cache(d).owns(x))
        &&& forall|f: u64| #[trigger] self.large@.contains_key(f) ==> self.large_ok(pages, mem, f)
        &&& forall|f: u64| #[trigger] self.large@.contains_key(f) ==> self.large@[f] < ORDER
        &&& forall|x: int| self.large_owns(x) ==> !buddy.is_free(x)
        &&& forall|c: int, x: int|
            0 <= c < SLUB_LEN && self.large_owns(x) ==> !(#[trigger] self.cache(c).owns(x))
        &&& forall|f: u64, g: u64, x: int|
            #![trigger self.large@.contains_key(f), in_run(g, self.large@[g] as nat, x)]
            self.large@.contains_key(f) && self.large@.contains_key(g) && in_run(
                f,
                self.large@[f] as nat,
                x,
            ) && in_run(g, self.large@[g] as nat, x) ==> f == g
    }

    /// Whether `ptr` is an address that the heap has handed out and not got back.
    pub open spec fn allocated(&self, ptr: u64) -> bool {
        ||| exists|c: int| 0 <= c < SLUB_LEN && #[trigger] self.cache(c).allocated(ptr)
        ||| exists|f: u64| #[trigger] self.large@.contains_key(f) && ptr == f * 4096 + PAGE_OFF
    }

    /// A heap of thirteen empty caches, for objects of 8 to 8192 bytes.
    pub fn new() -> (r: Self)
        ensures
            r.caches@.len() == SLUB_LEN,
            r.large@ == Map::<u64, u16>::empty(),
            forall|c: int|
                0 <= c < SLUB_LEN ==> (#[trigger] r.cache(c)).size == spec_slub_info(c) && r.cache(
                    c,
                ).id == c && r.cache(c).slabs@ == Set::<u64>::empty(),
            forall|c: int|
                0 <= c < SLUB_LEN ==> {
                    &&& (#[trigger] r.cache(c)).ord == super::slub::spec_cache_ord(spec_slub_info(c))
                    &&& r.cache(c).nobjs == run_bytes(r.cache(c).ord as nat) / (spec_slub_info(
                        c,
                    ) as int)
                    &&& r.cache(c).min_partial == 8
                    &&& r.cache(c).node.data.nr_partial == 0
                    &&& r.cache(c).node.data.frames@ == Seq::<u64>::empty()
                    &&& forall|h: int|
                        0 <= h < NCPU ==> r.cache(c).cpu(h).page is None && r.cache(c).cpu(
                            h,
                        ).freelist@.len() == 0
                },
            forall|ptr: u64| !r.allocated(ptr),
            forall|pages: &Pages, mem: &Memory, buddy: &Buddy<10>|
                buddy.wf(mem) && pages_cover(pages, mem) && pages.unlocked() ==> #[trigger] r.wf(
                    pages,
                    mem,
                    buddy,
                ),
    {
        let mut caches: Vec<MemCache> = Vec::new();
        let mut i: usize = 0;
        proof {
            vstd::arithmetic::power2::lemma2_to64();
            assert(pow2(3) == 8);
        }
        while i < SLUB_LEN
            invariant
                i <= SLUB_LEN,
                caches@.len() == i,
                crate::mm::is_power_of_two(8),
                forall|c: int|
                    0 <= c < i ==> (#[trigger] caches@[c]).size == spec_slub_info(c) && caches@[c].id
                        == c && caches@[c].slabs@ == Set::<u64>::empty() && caches@[c].objs@
                        == Map::<u64, super::slub::ObjState>::empty() && caches@[c].ord <= 3,
                forall|c: int|
                    0 <= c < i ==> {
                        &&& (#[trigger] caches@[c]).ord == super::slub::spec_cache_ord(
                            spec_slub_info(c),
                        )
                        &&& caches@[c].nobjs == run_bytes(caches@[c].ord as nat) / (spec_slub_info(
                            c,
                        ) as int)
                        &&& caches@[c].min_partial == 8
                        &&& caches@[c].node.data.nr_partial == 0
                        &&& caches@[c].node.data.frames@ == Seq::<u64>::empty()
                        &&& forall|h: int|
                            0 <= h < NCPU ==> caches@[c].cpu(h).page is None && caches@[c].cpu(
                                h,
                            ).freelist@.len() == 0
                    },
                forall|c: int, x: int| 0 <= c < i ==> !(#[trigger] caches@[c].owns(x)),
                forall|c: int, pages: &Pages, mem: &Memory|
                    0 <= c < i && mem.wf() && pages.unlocked() ==> #[trigger] caches@[c].wf(
                        pages,
                        mem,
                    ),
            decreases SLUB_LEN - i,
        {
            let size: u64 = slub_info(i);
            assert(size % 8 == 0 && 8 <= size <= 8192);
            let mut cache: MemCache = MemCache::new(size, 8);
            let ghost c0 = cache;
            cache.set_id(i);
            proof {
                assert forall|pages: &Pages, mem: &Memory|
                    mem.wf() && pages.unlocked() implies #[trigger] cache.wf(pages, mem) by {
                    assert(c0.wf(pages, mem));
                }
            }
            caches.push(cache);
            i = i + 1;
        }
        let r = Slub { caches, large: Ghost(Map::empty()) };
        proof {
            assert forall|pages: &Pages, mem: &Memory, buddy: &Buddy<10>|
                buddy.wf(mem) && pages_cover(pages, mem) && pages.unlocked() implies #[trigger] r.wf(
                pages,
                mem,
                buddy,
            ) by {
                reveal(Slub::wf);
                assert forall|c: int| 0 <= c < SLUB_LEN implies #[trigger] r.cache_ok(
                    pages,
                    mem,
                    buddy,
                    c,
                ) by {
                    assert(r.caches@[c].wf(pages, mem));
                }
            }
        }
        r
    }
}

/// A frame of a slab of a cache is memory that the cache owns.
pub proof fn lemma_frame_owned(c: &MemCache, g: u64)
    requires
        owns_frame(c, g),
    ensures
        c.owns(g * 4096 + PAGE_OFF),
{
    let f = choose|f: u64| #[trigger] c.slabs@.contains(f) && f <= g < f + pow2(c.ord as nat);
    assert(run_bytes(c.ord as nat) == 4096 * pow2(c.ord as nat));
    assert(c.slabs@.contains(f));
}

/// After one cache of a heap that is in order has done a step of its own, the heap is in
/// order again.
pub proof fn lemma_cache_step<const ORDER: usize>(
    h0: &Slub,
    p0: &Pages,
    m0: &Memory,
    b0: &Buddy<ORDER>,
    h1: &Slub,
    p1: &Pages,
    m1: &Memory,
    b1: &Buddy<ORDER>,
    idx: int,
)
    requires
        h0.wf(p0, m0, b0),
        0 <= idx < SLUB_LEN,
        h1.caches@.len() == SLUB_LEN,
        forall|d: int| 0 <= d < SLUB_LEN && d != idx ==> h1.caches@[d] == h0.caches@[d],
        h1.large@ == h0.large@,
        h1.cache(idx).wf(p1, m1),
        h1.cache(idx).clear_of(b1),
        h1.cache(idx).id == h0.cache(idx).id,
        h1.cache(idx).size == h0.cache(idx).size,
        h1.cache(idx).ord == h0.cache(idx).ord,
        b1.wf(m1),
        frame_ok(h0.cache(idx), p0, m0, b0, h1.cache(idx), p1, m1, b1),
    ensures
        h1.wf(p1, m1, b1),
{
    reveal(Slub::wf);
    reveal(frame_ok);
    let c0 = h0.cache(idx);
    let c1 = h1.cache(idx);
    assert(h0.cache_ok(p0, m0, b0, idx));
    super::slub::lemma_cfg(c1, p1, m1);
    super::slub::lemma_wf_unlocked(c1, p1, m1);
    assert forall|d: int| 0 <= d < SLUB_LEN implies #[trigger] h1.cache_ok(p1, m1, b1, d) by {
        if d != idx {
            let cd = h0.cache(d);
            assert(h0.cache_ok(p0, m0, b0, d));
            assert(h1.cache(d) == cd);
            assert forall|x: u64| m0.contains(x) && cd.owns(x as int) implies m1.word(x)
                == m0.word(x) by {
                assert(!(h0.cache(idx).owns(x as int) && h0.cache(d).owns(x as int)));
            }
            lemma_mem_frame(cd, p0, m0, m1);
            assert forall|g: u64| p0.has(g) && owns_frame(cd, g) implies #[trigger] p1.page(g)
                == p0.page(g) by {
                lemma_frame_owned(cd, g);
                let x = g * 4096 + PAGE_OFF;
                if owns_frame(c0, g) {
                    lemma_frame_owned(c0, g);
                    assert(!(h0.cache(idx).owns(x) && h0.cache(d).owns(x)));
                }
                if owns_frame(c1, g) {
                    lemma_frame_owned(c1, g);
                    assert(!(h0.cache(idx).owns(x) && h0.cache(d).owns(x)));
                }
            }
            lemma_pages_frame(cd, p0, p1, m1);
            assert forall|x: int| cd.owns(x) implies !b1.is_free(x) by {
                assert(!(h0.cache(idx).owns(x) && h0.cache(d).owns(x)));
            }
        }
    }
    assert forall|c: int, d: int, x: int|
        0 <= c < SLUB_LEN && 0 <= d < SLUB_LEN && c != d implies !(#[trigger] h1.cache(c).owns(x)
        && #[trigger] h1.cache(d).owns(x)) by {
        if h1.cache(c).owns(x) && h1.cache(d).owns(x) {
            let o = if c == idx { d } else { c };
            assert(h0.cache_ok(p0, m0, b0, o));
            assert(h1.cache(o) == h0.cache(o));
            if c == idx || d == idx {
                assert(!(h0.cache(idx).owns(x) && h0.cache(o).owns(x)));
            } else {
                assert(!(h0.cache(c).owns(x) && h0.cache(d).owns(x)));
            }
        }
    }
    assert forall|x: int| h1.large_owns(x) implies h0.large_owns(x) by {
        let f = choose|f: u64| #[trigger]
            h1.large@.contains_key(f) && in_run(f, h1.large@[f] as nat, x);
        assert(h0.large@.contains_key(f));
    }
    assert forall|f: u64| #[trigger] h1.large@.contains_key(f) implies h1.large_ok(p1, m1, f) by {
        assert(h0.large_ok(p0, m0, f));
        let k = h0.large@[f] as nat;
        crate::mm::buddy::buddy::lemma_run_bytes(k);
        vstd::arithmetic::power2::lemma_pow2_pos(k);
        assert(run_bytes(k) == 4096 * pow2(k));
        assert forall|g: u64| f <= g < f + pow2(k) implies p1.page(g) == p0.page(g) by {
            let x = g * 4096 + PAGE_OFF;
            assert(in_run(f, k, x));
            assert(h0.large_owns(x));
            assert(p0.has(g) && p0.page(g).head_page == f);
            if owns_frame(c0, g) {
                lemma_frame_owned(c0, g);
                assert(!h0.cache(idx).owns(x));
            }
            if owns_frame(c1, g) {
                lemma_frame_owned(c1, g);
                assert(!h0.cache(idx).owns(x));
            }
        }
        assert forall|g: u64| f <= g < f + pow2(k) implies p1.has(g) && (#[trigger] p1.page(
            g,
        )).head_page == f by {
            assert(p0.has(g) && p0.page(g).head_page == f);
            assert(p1.page(g) == p0.page(g));
        }
        assert(p1.page(f) == p0.page(f));
    }
    assert forall|x: int| h1.large_owns(x) implies !b1.is_free(x) by {
        assert(!h0.cache(idx).owns(x));
    }
    assert forall|c: int, x: int| 0 <= c < SLUB_LEN && h1.large_owns(x) implies !(
    #[trigger] h1.cache(c).owns(x)) by {
        assert(!h0.cache(idx).owns(x));
        if c != idx {
            assert(h1.cache(c) == h0.cache(c));
            assert(!h0.cache(c).owns(x));
        }
    }
}

/// What a heap that is in order has: thirteen caches, each in order, a well-formed buddy
/// allocator, and a descriptor for every frame of memory.
pub proof fn lemma_heap_facts<const ORDER: usize>(
    h: &Slub,
    pages: &Pages,
    mem: &Memory,
    buddy: &Buddy<ORDER>,
    c: int,
)
    requires
        h.wf(pages, mem, buddy),
        0 <= c < SLUB_LEN,
    ensures
        h.caches@.len() == SLUB_LEN,
        buddy.wf(mem),
        pages_cover(pages, mem),
        h.cache_ok(pages, mem, buddy, c),
{
    reveal(Slub::wf);
}

/// None of the memory that a heap in order owns is free in the buddy allocator.
pub proof fn lemma_heap_clear<const ORDER: usize>(
    h: &Slub,
    pages: &Pages,
    mem: &Memory,
    buddy: &Buddy<ORDER>,
)
    requires
        h.wf(pages, mem, buddy),
    ensures
        forall|x: int| h.owns(x) ==> !buddy.is_free(x),
{
    reveal(Slub::wf);
    assert forall|x: int| h.owns(x) implies !buddy.is_free(x) by {
        if !h.large_owns(x) {
            let c = choose|c: int| 0 <= c < SLUB_LEN && #[trigger] h.cache(c).owns(x);
            assert(h.cache_ok(pages, mem, buddy, c));
        }
    }
}

/// The heap stays in order while the buddy allocator and memory change outside of what
/// the heap owns: while pages are taken from the buddy allocator and given back to it
/// for other uses.
pub proof fn lemma_heap_frame<const ORDER: usize>(
    h: &Slub,
    pages: &Pages,
    m0: &Memory,
    b0: &Buddy<ORDER>,
    m1: &Memory,
    b1: &Buddy<ORDER>,
)
    requires
        h.wf(pages, m0, b0),
        b1.wf(m1),
        m1.same_shape(m0),
        forall|x: int| h.owns(x) ==> !b1.is_free(x),
        forall|x: u64| m0.contains(x) && h.owns(x as int) ==> m1.word(x) == m0.word(x),
    ensures
        h.wf(pages, m1, b1),
{
    assert forall|d: int| 0 <= d < SLUB_LEN implies #[trigger] h.cache_ok(pages, m1, b1, d) by {
        lemma_heap_facts(h, pages, m0, b0, d);
        assert forall|x: int| h.cache(d).owns(x) implies !b1.is_free(x) by {
            assert(h.owns(x));
        }
        assert forall|x: u64| m0.contains(x) && h.cache(d).owns(x as int) implies m1.word(x)
            == m0.word(x) by {
            assert(h.owns(x as int));
        }
        lemma_mem_frame(h.cache(d), pages, m0, m1);
    }
    assert forall|f: u64| #[trigger] h.large@.contains_key(f) implies h.large_ok(pages, m1, f) by {
        reveal(Slub::wf);
        assert(h.large_ok(pages, m0, f));
    }
    assert forall|x: int| h.large_owns(x) implies !b1.is_free(x) by {
        assert(h.owns(x));
    }
    assert(pages_cover(pages, m1)) by {
        lemma_heap_facts(h, pages, m0, b0, 0);
    }
    lemma_heap_rest(h, pages, m0, b0);
    assert(h.wf(pages, m1, b1)) by {
        reveal(Slub::wf);
    }
}

/// What a heap in order says of its caches and compounds alone.
proof fn lemma_heap_rest<const ORDER: usize>(h: &Slub, pages: &Pages, mem: &Memory, buddy: &Buddy<ORDER>)
    requires
        h.wf(pages, mem, buddy),
    ensures
        h.caches@.len() == SLUB_LEN,
        forall|c: int, d: int, x: int|
            0 <= c < SLUB_LEN && 0 <= d < SLUB_LEN && c != d ==> !(#[trigger] h.cache(c).owns(x)
                && #[trigger] h.cache(d).owns(x)),
        forall|c: int, x: int|
            0 <= c < SLUB_LEN && h.large_owns(x) ==> !(#[trigger] h.cache(c).owns(x)),
        forall|f: u64, g: u64, x: int|
            #![trigger h.large@.contains_key(f), in_run(g, h.large@[g] as nat, x)]
            h.large@.contains_key(f) && h.large@.contains_key(g) && in_run(
                f,
                h.large@[f] as nat,
                x,
            ) && in_run(g, h.large@[g] as nat, x) ==> f == g,
{
    reveal(Slub::wf);
}

/// An address that a cache of the heap owns is allocated by the heap exactly if it is
/// by that cache.
pub proof fn lemma_allocated_in<const ORDER: usize>(
    h: &Slub,
    pages: &Pages,
    mem: &Memory,
    buddy: &Buddy<ORDER>,
    c: int,
    ptr: u64,
)
    requires
        h.wf(pages, mem, buddy),
        0 <= c < SLUB_LEN,
        h.cache(c).owns(ptr as int),
    ensures
        h.allocated(ptr) == h.cache(c).allocated(ptr),
{
    reveal(Slub::wf);
    if h.allocated(ptr) && !h.cache(c).allocated(ptr) {
        if exists|d: int| 0 <= d < SLUB_LEN && #[trigger] h.cache(d).allocated(ptr) {
            let d = choose|d: int| 0 <= d < SLUB_LEN && #[trigger] h.cache(d).allocated(ptr);
            assert(h.cache_ok(pages, mem, buddy, d));
            lemma_obj_frame(h.cache(d), pages, mem, ptr);
            assert(!(h.cache(c).owns(ptr as int) && h.cache(d).owns(ptr as int)));
        } else {
            let f = choose|f: u64| #[trigger] h.large@.contains_key(f) && ptr == f * 4096
                + PAGE_OFF;
            crate::mm::buddy::buddy::lemma_run_bytes(h.large@[f] as nat);
            assert(in_run(f, h.large@[f] as nat, ptr as int));
            assert(h.large_owns(ptr as int));
            assert(!h.cache(c).owns(ptr as int));
        }
    }
}

/// An address that no cache owned before and that one cache has allocated since, with
/// nothing else changed in what is allocated: how the heaps compare.
pub proof fn lemma_allocated_step(h0: &Slub, h1: &Slub, idx: int, ptr: u64)
    requires
        0 <= idx < SLUB_LEN,
        h0.caches@.len() == SLUB_LEN,
        h1.caches@.len() == SLUB_LEN,
        forall|d: int| 0 <= d < SLUB_LEN && d != idx ==> h1.caches@[d] == h0.caches@[d],
        h1.large@ == h0.large@,
        forall|o: u64| o != ptr ==> h1.cache(idx).allocated(o) == h0.cache(idx).allocated(o),
    ensures
        forall|o: u64| o != ptr ==> h1.allocated(o) == h0.allocated(o),
{
    assert forall|o: u64| o != ptr implies h1.allocated(o) == h0.allocated(o) by {
        if h1.allocated(o) {
            if exists|d: int| 0 <= d < SLUB_LEN && #[trigger] h1.cache(d).allocated(o) {
                let d = choose|d: int| 0 <= d < SLUB_LEN && #[trigger] h1.cache(d).allocated(o);
                assert(h0.cache(d).allocated(o));
            } else {
                let f = choose|f: u64| #[trigger] h1.large@.contains_key(f) && o == f * 4096
                    + PAGE_OFF;
                assert(h0.large@.contains_key(f));
            }
        }
        if h0.allocated(o) {
            if exists|d: int| 0 <= d < SLUB_LEN && #[trigger] h0.cache(d).allocated(o) {
                let d = choose|d: int| 0 <= d < SLUB_LEN && #[trigger] h0.cache(d).allocated(o);
                assert(h1.cache(d).allocated(o));
            } else {
                let f = choose|f: u64| #[trigger] h0.large@.contains_key(f) && o == f * 4096
                    + PAGE_OFF;
                assert(h1.large@.contains_key(f));
            }
        }
    }
}

impl Slub {
    /// Serves a request of `size` bytes, up to the largest object size, from the cache
    /// of the next size, on hart `hart`. 0 where there is no memory.
    pub fn alloc_small<const ORDER: usize>(
        &mut self,
        idx: usize,
        hart: usize,
        pages: &mut Pages,
        buddy: &mut Spin<Buddy<ORDER>>,
        mem: &mut Memory,
    ) -> (r: u64)
        requires
            old(buddy).free(),
            old(self).wf(old(pages), old(mem), &old(buddy).data),
            idx < SLUB_LEN,
            hart < NCPU,
        ensures
            final(buddy).free(),
            final(buddy).data.wf(final(mem)),
            final(self).wf(final(pages), final(mem), &final(buddy).data),
            final(mem).same_shape(old(mem)),
            final(pages)@.len() == old(pages)@.len(),
            r == 0 <==> old(self).cache(idx as int).cpu(hart as int).freelist@.len() == 0 && old(
                self,
            ).cache(idx as int).node.data.frames@.len() == 0 && spec_alloc_frame(
                old(buddy).data@,
                old(self).cache(idx as int).ord as int,
            ) is None,
            r == 0 ==> *final(pages) == *old(pages) && *final(mem) == *old(mem) && *final(buddy)
                == *old(buddy),
            r != 0 ==> !old(self).allocated(r) && final(self).allocated(r),
            forall|o: u64| o != r ==> final(self).allocated(o) == old(self).allocated(o),
            final(self).cache(idx as int).owns(r as int) || r == 0,
            allocated_by(
                old(self).cache(idx as int),
                old(pages),
                old(mem),
                &old(buddy).data,
                final(self).cache(idx as int),
                final(pages),
                final(mem),
                &final(buddy).data,
                hart as int,
                r,
            ),
            forall|d: int|
                0 <= d < SLUB_LEN && d != idx ==> final(self).caches@[d] == old(self).caches@[d],
            final(self).large@ == old(self).large@,
    {
        let ghost h0 = *self;
        proof {
            lemma_heap_facts(self, pages, mem, &buddy.data, idx as int);
        }
        let cache: &mut MemCache = &mut self.caches[idx];
        let r: u64 = cache.allocate(hart, pages, buddy, mem);
        proof {
            lemma_cache_step(&h0, old(pages), old(mem), &old(buddy).data, self, pages, mem, &buddy.data, idx as int);
            lemma_allocated_step(&h0, self, idx as int, r);
            reveal(frame_ok);
            if r != 0 {
                lemma_heap_facts(self, pages, mem, &buddy.data, idx as int);
                lemma_obj_frame(self.cache(idx as int), pages, mem, r);
                lemma_allocated_in(self, pages, mem, &buddy.data, idx as int, r);
                lemma_fresh(&h0, old(pages), old(mem), &old(buddy).data, self.cache(idx as int), idx as int, r);
            }
        }
        r
    }
}

/// The order of the compound for a request of `size` bytes that no cache serves.
pub fn large_ord(size: u64) -> (k: usize)
    ensures
        k == spec_large_ord(size, 0),
        k <= 63,
{
    let pages: u64 = size / 4096 + if size % 4096 == 0 {
        0
    } else {
        1
    };
    let mut k: usize = 0;
    let mut p: u64 = 1;
    proof {
        vstd::arithmetic::power2::lemma2_to64();
    }
    while k < 63 && p < pages
        invariant
            k <= 63,
            p == pow2(k as nat),
            pages == size / 4096 + if size % 4096 == 0 {
                0int
            } else {
                1int
            },
            spec_large_ord(size, 0) == spec_large_ord(size, k as nat),
        decreases 63 - k,
    {
        proof {
            vstd::arithmetic::power2::lemma_pow2_unfold((k + 1) as nat);
            assert(4096 * p < size);
        }
        p = p * 2;
        k = k + 1;
    }
    proof {
        if k < 63 {
            assert(4096 * p >= size);
        }
    }
    k
}

/// After the heap has handed out the compound at frame `f` whole, it is in order again.
pub proof fn lemma_large_alloc<const ORDER: usize>(
    h0: &Slub,
    p0: &Pages,
    m0: &Memory,
    b0: &Buddy<ORDER>,
    h1: &Slub,
    p1: &Pages,
    m1: &Memory,
    b1: &Buddy<ORDER>,
    f: u64,
    ord: u16,
)
    requires
        h0.wf(p0, m0, b0),
        h1.caches@ == h0.caches@,
        h1.large@ == h0.large@.insert(f, ord),
        b1.wf(m1),
        m1.same_shape(m0),
        p1@.len() == p0@.len(),
        ord < ORDER,
        frame_run_ok(m1, f, ord as nat),
        forall|x: int| b1.is_free(x) ==> b0.is_free(x),
        forall|x: int| in_run(f, ord as nat, x) ==> b0.is_free(x) && !b1.is_free(x),
        forall|x: u64| m0.contains(x) && !b0.is_free(x as int) ==> m1.word(x) == m0.word(x),
        p1.has(f),
        p1.unlocked(),
        p1.page(f).slub is None,
        p1.page(f).slub_data.value == ord,
        forall|g: u64|
            f <= g < f + pow2(ord as nat) ==> p1.has(g) && (#[trigger] p1.page(g)).head_page == f,
        forall|g: u64|
            p0.has(g) && !(f <= g < f + pow2(ord as nat)) ==> #[trigger] p1.page(g) == p0.page(g),
    ensures
        h1.wf(p1, m1, b1),
        !h0.allocated((f * 4096 + PAGE_OFF) as u64),
        h1.allocated((f * 4096 + PAGE_OFF) as u64),
        forall|o: u64| o != f * 4096 + PAGE_OFF ==> h1.allocated(o) == h0.allocated(o),
{
    reveal(Slub::wf);
    crate::mm::buddy::buddy::lemma_run_bytes(ord as nat);
    crate::mm::buddy::buddy::lemma_frame_run(m1, f, ord as nat);
    let a = (f * 4096 + PAGE_OFF) as u64;
    assert(in_run(f, ord as nat, a as int));
    assert(run_bytes(ord as nat) == 4096 * pow2(ord as nat));
    assert forall|d: int| 0 <= d < SLUB_LEN implies #[trigger] h1.cache_ok(p1, m1, b1, d) by {
        let cd = h0.cache(d);
        assert(h0.cache_ok(p0, m0, b0, d));
        lemma_mem_frame(cd, p0, m0, m1);
        assert forall|g: u64| p0.has(g) && owns_frame(cd, g) implies #[trigger] p1.page(g)
            == p0.page(g) by {
            lemma_frame_owned(cd, g);
            if f <= g < f + pow2(ord as nat) {
                assert(in_run(f, ord as nat, g * 4096 + PAGE_OFF));
            }
        }
        lemma_pages_frame(cd, p0, p1, m1);
    }
    assert forall|c: int, d: int, x: int|
        0 <= c < SLUB_LEN && 0 <= d < SLUB_LEN && c != d implies !(#[trigger] h1.cache(c).owns(x)
        && #[trigger] h1.cache(d).owns(x)) by {
        assert(!(h0.cache(c).owns(x) && h0.cache(d).owns(x)));
    }
    assert forall|x: int| h1.large_owns(x) implies h0.large_owns(x) || in_run(
        f,
        ord as nat,
        x,
    ) by {
        let g = choose|g: u64| #[trigger]
            h1.large@.contains_key(g) && in_run(g, h1.large@[g] as nat, x);
        if g != f {
            assert(h0.large@.contains_key(g));
        }
    }
    assert forall|g: u64| #[trigger] h1.large@.contains_key(g) implies h1.large_ok(p1, m1, g) by {
        if g != f {
            assert(h0.large_ok(p0, m0, g));
            let k = h0.large@[g] as nat;
            crate::mm::buddy::buddy::lemma_run_bytes(k);
            vstd::arithmetic::power2::lemma_pow2_pos(k);
            assert(run_bytes(k) == 4096 * pow2(k));
            assert forall|j: u64| g <= j < g + pow2(k) implies p1.has(j) && (#[trigger] p1.page(
                j,
            )).head_page == g by {
                let x = j * 4096 + PAGE_OFF;
                assert(in_run(g, k, x));
                assert(h0.large_owns(x));
                assert(p0.has(j) && p0.page(j).head_page == g);
                if f <= j < f + pow2(ord as nat) {
                    assert(in_run(f, ord as nat, x));
                }
            }
            assert(p1.page(g) == p0.page(g)) by {
                let x = g * 4096 + PAGE_OFF;
                assert(in_run(g, k, x));
                assert(h0.large_owns(x));
                if f <= g < f + pow2(ord as nat) {
                    assert(in_run(f, ord as nat, x));
                }
            }
        }
    }
    assert forall|c: int, x: int| 0 <= c < SLUB_LEN && h1.large_owns(x) implies !(
    #[trigger] h1.cache(c).owns(x)) by {
        assert(h0.cache_ok(p0, m0, b0, c));
        if h0.large_owns(x) {
            assert(!h0.cache(c).owns(x));
        }
    }
    assert forall|g: u64, k: u64, x: int|
        #![trigger h1.large@.contains_key(g), in_run(k, h1.large@[k] as nat, x)]
        h1.large@.contains_key(g) && h1.large@.contains_key(k) && in_run(
            g,
            h1.large@[g] as nat,
            x,
        ) && in_run(k, h1.large@[k] as nat, x) implies g == k by {
        if g != f && k != f {
            assert(h0.large@.contains_key(g) && in_run(k, h0.large@[k] as nat, x));
        } else if g != f {
            assert(h0.large@.contains_key(g) && in_run(g, h0.large@[g] as nat, x));
            assert(h0.large_owns(x));
        } else if k != f {
            assert(h0.large@.contains_key(k) && in_run(k, h0.large@[k] as nat, x));
            assert(h0.large_owns(x));
        }
    }
    assert(h1.large@.contains_key(f));
    if h0.allocated(a) {
        if exists|d: int| 0 <= d < SLUB_LEN && #[trigger] h0.cache(d).allocated(a) {
            let d = choose|d: int| 0 <= d < SLUB_LEN && #[trigger] h0.cache(d).allocated(a);
            assert(h0.cache_ok(p0, m0, b0, d));
            lemma_obj_frame(h0.cache(d), p0, m0, a);
        } else {
            let g = choose|g: u64| #[trigger] h0.large@.contains_key(g) && a == g * 4096
                + PAGE_OFF;
            assert(g == f);
            crate::mm::buddy::buddy::lemma_run_bytes(h0.large@[g] as nat);
            assert(in_run(g, h0.large@[g] as nat, a as int));
            assert(h0.large_owns(a as int));
        }
    }
    assert forall|o: u64| o != f * 4096 + PAGE_OFF implies h1.allocated(o) == h0.allocated(o) by {
        if h1.allocated(o) {
            if exists|d: int| 0 <= d < SLUB_LEN && #[trigger] h1.cache(d).allocated(o) {
                let d = choose|d: int| 0 <= d < SLUB_LEN && #[trigger] h1.cache(d).allocated(o);
                assert(h0.cache(d).allocated(o));
            } else {
                let g = choose|g: u64| #[trigger] h1.large@.contains_key(g) && o == g * 4096
                    + PAGE_OFF;
                assert(h0.large@.contains_key(g));
            }
        }
        if h0.allocated(o) {
            if exists|d: int| 0 <= d < SLUB_LEN && #[trigger] h0.cache(d).allocated(o) {
                let d = choose|d: int| 0 <= d < SLUB_LEN && #[trigger] h0.cache(d).allocated(o);
                assert(h1.cache(d).allocated(o));
            } else {
                let g = choose|g: u64| #[trigger] h0.large@.contains_key(g) && o == g * 4096
                    + PAGE_OFF;
                assert(h1.large@.contains_key(g));
            }
        }
    }
}

impl Slub {
    /// Serves a request that is too large for the caches with a compound of its own, of
    /// order `ord`: marks the compound in the descriptor table and returns its address.
    /// 0, with nothing changed, where the buddy allocator has no such compound.
    pub fn alloc_large<const ORDER: usize>(
        &mut self,
        ord: usize,
        hart: usize,
        pages: &mut Pages,
        buddy: &mut Spin<Buddy<ORDER>>,
        mem: &mut Memory,
    ) -> (r: u64)
        requires
            old(buddy).free(),
            hart < NCPU,
            old(self).wf(old(pages), old(mem), &old(buddy).data),
            ord <= 63,
        ensures
            final(buddy).free(),
            final(buddy).data.wf(final(mem)),
            final(self).wf(final(pages), final(mem), &final(buddy).data),
            final(mem).same_shape(old(mem)),
            final(pages)@.len() == old(pages)@.len(),
            r == 0 <==> spec_alloc_frame(old(buddy).data@, ord as int) is None,
            r == 0 ==> *final(self) == *old(self) && *final(pages) == *old(pages) && *final(mem)
                == *old(mem) && *final(buddy) == *old(buddy),
            r != 0 ==> r == spec_alloc_frame(old(buddy).data@, ord as int).unwrap().0 * 4096 + PAGE_OFF,
            r != 0 ==> final(self).large@ == old(self).large@.insert(
                spec_alloc_frame(old(buddy).data@, ord as int).unwrap().0,
                ord as u16,
            ),
            final(buddy).data@ == crate::mm::buddy::buddy::spec_alloc(old(buddy).data@, ord as int),
            final(self).caches@ == old(self).caches@,
            r != 0 ==> !old(self).allocated(r) && final(self).allocated(r),
            forall|o: u64| o != r ==> final(self).allocated(o) == old(self).allocated(o),
    {
        proof {
            lemma_heap_facts(self, pages, mem, &buddy.data, 0);
        }
        let page: PageFrame = match super::alloc_pages(buddy, mem, hart, ord) {
            Some(p) => p,
            None => {
                return 0;
            },
        };
        let ghost f = page.0;
        proof {
            crate::mm::buddy::buddy::lemma_frame_run(mem, f, ord as nat);
            crate::mm::buddy::buddy::lemma_run_bytes(ord as nat);
            vstd::arithmetic::power2::lemma2_to64();
            assert(ord < ORDER) by {
                if ord >= ORDER {
                    assert(forall|k: int| ord <= k < ORDER ==> old(buddy).data.level(k).len() == 0);
                }
            }
            if ord < 25 {
                vstd::arithmetic::power2::lemma_pow2_strictly_increases(ord as nat, 25);
            }
            vstd::bits::lemma_u64_shl_is_mul(1, ord as u64);
            assert(run_bytes(ord as nat) == 4096 * pow2(ord as nat));
        }
        let npages: u64 = 1u64 << (ord as u64);
        page.set_head_page(pages, npages);
        let ghost pm = *pages;
        let mut d: Page = *page.get_page(pages);
        d.slub = None;
        d.slub_data = SlubData { value: ord as u16 };
        page.set_page(pages, d);
        self.large = Ghost(self.large@.insert(f, ord as u16));
        proof {
            assert(pm.page(f).head_page == f);
            assert forall|g: u64|
                old(pages).has(g) && !(f <= g < f + pow2(ord as nat)) implies #[trigger] pages.page(
                g,
            ) == old(pages).page(g) by {
                assert(pm.page(g) == old(pages).page(g));
            }
            assert forall|g: u64| f <= g < f + pow2(ord as nat) implies pages.has(g) && (
            #[trigger] pages.page(g)).head_page == f by {
                assert(pm.page(g).head_page == f);
            }
            assert(old(pages).unlocked()) by {
                reveal(Slub::wf);
                assert(old(self).cache_ok(old(pages), old(mem), &old(buddy).data, 0));
                super::slub::lemma_wf_unlocked(&old(self).cache(0), old(pages), old(mem));
            }
            assert forall|g: u64| pages.has(g) implies (#[trigger] pages.page(g)).unlocked() by {
                assert(old(pages).page(g).unlocked());
                if f <= g < f + pow2(ord as nat) {
                    assert(pm.page(g) == (Page { head_page: f, ..old(pages).page(g) }));
                } else {
                    assert(pm.page(g) == old(pages).page(g));
                }
            }
            lemma_large_alloc(old(self), old(pages), old(mem), &old(buddy).data, self, pages, mem, &buddy.data, f, ord as u16);
        }
        page.0 * 4096 + PAGE_OFF
    }
}

/// An address that a cache has come to own and to allocate in one step was not allocated
/// by the heap before.
pub proof fn lemma_fresh<const ORDER: usize>(
    h0: &Slub,
    p0: &Pages,
    m0: &Memory,
    b0: &Buddy<ORDER>,
    c1: &MemCache,
    idx: int,
    ptr: u64,
)
    requires
        h0.wf(p0, m0, b0),
        0 <= idx < SLUB_LEN,
        !h0.cache(idx).allocated(ptr),
        c1.owns(ptr as int),
        forall|x: int| c1.owns(x) ==> h0.cache(idx).owns(x) || b0.is_free(x),
    ensures
        !h0.allocated(ptr),
{
    reveal(Slub::wf);
    if h0.allocated(ptr) {
        if exists|d: int| 0 <= d < SLUB_LEN && #[trigger] h0.cache(d).allocated(ptr) {
            let d = choose|d: int| 0 <= d < SLUB_LEN && #[trigger] h0.cache(d).allocated(ptr);
            assert(h0.cache_ok(p0, m0, b0, d));
            lemma_obj_frame(h0.cache(d), p0, m0, ptr);
            assert(!(h0.cache(idx).owns(ptr as int) && h0.cache(d).owns(ptr as int)));
        } else {
            let f = choose|f: u64| #[trigger] h0.large@.contains_key(f) && ptr == f * 4096
                + PAGE_OFF;
            crate::mm::buddy::buddy::lemma_run_bytes(h0.large@[f] as nat);
            assert(in_run(f, h0.large@[f] as nat, ptr as int));
            assert(h0.large_owns(ptr as int));
            assert(!h0.cache(idx).owns(ptr as int));
        }
    }
}

/// The first cache whose objects hold `size` bytes; `SLUB_LEN` where none does.
pub fn cache_index(size: u64) -> (r: usize)
    ensures
        r == spec_cache_index(size, 0),
        r <= SLUB_LEN,
        r < SLUB_LEN <==> size <= 8192,
{
    let mut i: usize = 0;
    while i < SLUB_LEN && slub_info(i) < size
        invariant
            i <= SLUB_LEN,
            spec_cache_index(size, 0) == spec_cache_index(size, i as int),
            i > 0 ==> size > spec_slub_info(i - 1),
        decreases SLUB_LEN - i,
    {
        i = i + 1;
    }
    i
}

/// When a request of `size` bytes on hart `hart` fails, and what it returns where it
/// goes to the buddy allocator. A request that a cache serves fails exactly if the hart
/// holds no free object of that cache, the cache has no partial page, and the buddy
/// allocator has no compound of the cache's order. A larger request fails exactly if
/// the buddy allocator has no compound of the request's order, and returns the address
/// of the compound else.
pub open spec fn spec_heap_alloc<const ORDER: usize>(
    h: &Slub,
    buddy: &Buddy<ORDER>,
    size: u64,
    hart: int,
    r: u64,
) -> bool {
    if size <= 8192 {
        let c = h.cache(spec_cache_index(size, 0));
        r == 0 <==> c.cpu(hart).freelist@.len() == 0 && c.node.data.frames@.len() == 0
            && spec_alloc_frame(buddy@, c.ord as int) is None
    } else {
        let frame = spec_alloc_frame(buddy@, spec_large_ord(size, 0) as int);
        &&& r == 0 <==> frame is None
        &&& r != 0 ==> r == frame.unwrap().0 * 4096 + PAGE_OFF
    }
}

/// Every frame of a compound that the heap has handed out, whole or as a slab, names
/// the head frame of the compound.
pub proof fn lemma_head_page<const ORDER: usize>(
    h: &Slub,
    pages: &Pages,
    mem: &Memory,
    buddy: &Buddy<ORDER>,
    head: u64,
    g: u64,
)
    requires
        h.wf(pages, mem, buddy),
    ensures
        h.large@.contains_key(head) && head <= g < head + pow2(h.large@[head] as nat)
            ==> pages.page(g).head_page == head,
        forall|c: int|
            0 <= c < SLUB_LEN && (#[trigger] h.cache(c)).slabs@.contains(head) && head <= g < head
                + pow2(h.cache(c).ord as nat) ==> pages.page(g).head_page == head,
{
    reveal(Slub::wf);
    if h.large@.contains_key(head) {
        assert(h.large_ok(pages, mem, head));
    }
    assert forall|c: int|
        0 <= c < SLUB_LEN && (#[trigger] h.cache(c)).slabs@.contains(head) && head <= g < head
            + pow2(h.cache(c).ord as nat) implies pages.page(g).head_page == head by {
        assert(h.cache_ok(pages, mem, buddy, c));
        super::slub::lemma_compound_head(h.cache(c), pages, mem, head, g);
    }
}

/// What taking the address `ptr` back on hart `hart` does. An object of a cache goes back
/// to that cache, as `freed_by` says, and the other caches stay as they are. A
/// compound that was handed out whole goes back to the buddy allocator with its order,
/// and the caches stay as they are.
pub open spec fn freed_from<const ORDER: usize>(
    h0: &Slub,
    p0: &Pages,
    b0: &Buddy<ORDER>,
    h1: &Slub,
    p1: &Pages,
    b1: &Buddy<ORDER>,
    hart: int,
    ptr: u64,
) -> bool {
    &&& forall|c: int|
        0 <= c < SLUB_LEN && (#[trigger] h0.cache(c)).allocated(ptr) ==> {
            &&& freed_by(
                h0.cache(c),
                p0,
                b0,
                h1.cache(c),
                p1,
                b1,
                hart,
                ptr,
                h0.cache(c).objs@[ptr].slab,
            )
            &&& h1.large@ == h0.large@
            &&& forall|d: int| 0 <= d < SLUB_LEN && d != c ==> h1.caches@[d] == h0.caches@[d]
        }
    &&& forall|f: u64|
        #[trigger] h0.large@.contains_key(f) && ptr == f * 4096 + PAGE_OFF ==> {
            &&& h1.large@ == h0.large@.remove(f)
            &&& h1.caches@ == h0.caches@
            &&& *p1 == *p0
            &&& b1@ == crate::mm::buddy::buddy::spec_free(b0@, frame_addr(f), h0.large@[f] as nat)
            &&& total_frames(b1@) == total_frames(b0@) + pow2(h0.large@[f] as nat)
            &&& forall|x: int| b1.is_free(x) <==> (b0.is_free(x) || in_run(f, h0.large@[f] as nat, x))
        }
}

/// An allocated address belongs to one cache only, or to one compound that was handed
/// out whole and to no cache.
pub proof fn lemma_one_owner<const ORDER: usize>(
    h: &Slub,
    pages: &Pages,
    mem: &Memory,
    buddy: &Buddy<ORDER>,
    ptr: u64,
)
    requires
        h.wf(pages, mem, buddy),
    ensures
        forall|c: int, d: int|
            0 <= c < SLUB_LEN && 0 <= d < SLUB_LEN && (#[trigger] h.cache(c)).allocated(ptr) && (
            #[trigger] h.cache(d)).allocated(ptr) ==> c == d,
        forall|c: int, f: u64|
            0 <= c < SLUB_LEN && (#[trigger] h.cache(c)).allocated(ptr) && #[trigger] h.large@.contains_key(
                f,
            ) ==> ptr != f * 4096 + PAGE_OFF,
        forall|c: int|
            0 <= c < SLUB_LEN && (#[trigger] h.cache(c)).allocated(ptr) ==> pages.page(
                h.cache(c).objs@[ptr].slab,
            ).slub == Some(c as usize),
        forall|f: u64, g: u64|
            #[trigger] h.large@.contains_key(f) && #[trigger] h.large@.contains_key(g) && ptr == f
                * 4096 + PAGE_OFF && ptr == g * 4096 + PAGE_OFF ==> f == g,
        forall|f: u64|
            #[trigger] h.large@.contains_key(f) ==> pages.page(f).slub is None && pages.page(
                f,
            ).head_page == f,
{
    reveal(Slub::wf);
    assert forall|c: int, d: int|
        0 <= c < SLUB_LEN && 0 <= d < SLUB_LEN && (#[trigger] h.cache(c)).allocated(ptr) && (
        #[trigger] h.cache(d)).allocated(ptr) implies c == d by {
        assert(h.cache_ok(pages, mem, buddy, c));
        assert(h.cache_ok(pages, mem, buddy, d));
        lemma_obj_frame(h.cache(c), pages, mem, ptr);
        lemma_obj_frame(h.cache(d), pages, mem, ptr);
        if c != d {
            assert(!(h.cache(c).owns(ptr as int) && h.cache(d).owns(ptr as int)));
        }
    }
    assert forall|c: int, f: u64|
        0 <= c < SLUB_LEN && (#[trigger] h.cache(c)).allocated(ptr) && #[trigger] h.large@.contains_key(
            f,
        ) implies ptr != f * 4096 + PAGE_OFF by {
        assert(h.cache_ok(pages, mem, buddy, c));
        lemma_obj_frame(h.cache(c), pages, mem, ptr);
        if ptr == f * 4096 + PAGE_OFF {
            crate::mm::buddy::buddy::lemma_run_bytes(h.large@[f] as nat);
            assert(in_run(f, h.large@[f] as nat, ptr as int));
            assert(h.large_owns(ptr as int));
            assert(!h.cache(c).owns(ptr as int));
        }
    }
    assert forall|c: int|
        0 <= c < SLUB_LEN && (#[trigger] h.cache(c)).allocated(ptr) implies pages.page(
        h.cache(c).objs@[ptr].slab,
    ).slub == Some(c as usize) by {
        assert(h.cache_ok(pages, mem, buddy, c));
        lemma_obj_frame(h.cache(c), pages, mem, ptr);
    }
    assert forall|f: u64|
        #[trigger] h.large@.contains_key(f) implies pages.page(f).slub is None && pages.page(
        f,
    ).head_page == f by {
        assert(h.large_ok(pages, mem, f));
        vstd::arithmetic::power2::lemma_pow2_pos(h.large@[f] as nat);
    }
}

/// From an allocated address the descriptor table leads to what it belongs to: the
/// frame that holds the address names the head frame of its compound, and the
/// descriptor of the head frame names the cache that allocated it, or no cache where
/// the compound was handed out whole.
pub proof fn lemma_locate<const ORDER: usize>(
    h: &Slub,
    pages: &Pages,
    mem: &Memory,
    buddy: &Buddy<ORDER>,
    ptr: u64,
)
    requires
        h.wf(pages, mem, buddy),
        h.allocated(ptr),
    ensures
        ptr >= PAGE_OFF,
        pages.has(((ptr - PAGE_OFF) / 4096) as u64),
        pages.has(pages.page(((ptr - PAGE_OFF) / 4096) as u64).head_page),
        match pages.page(pages.page(((ptr - PAGE_OFF) / 4096) as u64).head_page).slub {
            Some(id) => {
                &&& id < SLUB_LEN
                &&& h.cache(id as int).allocated(ptr)
                &&& h.cache(id as int).objs@[ptr].slab == pages.page(
                    ((ptr - PAGE_OFF) / 4096) as u64,
                ).head_page
            },
            None => {
                let f = pages.page(((ptr - PAGE_OFF) / 4096) as u64).head_page;
                &&& h.large@.contains_key(f)
                &&& ptr == f * 4096 + PAGE_OFF
                &&& pages.page(f).slub_data.value == h.large@[f]
                &&& h.large@[f] < ORDER
                &&& frame_run_ok(mem, f, h.large@[f] as nat)
                &&& forall|x: int| in_run(f, h.large@[f] as nat, x) ==> !buddy.is_free(x)
            },
        },
{
    reveal(Slub::wf);
    if exists|d: int| 0 <= d < SLUB_LEN && #[trigger] h.cache(d).allocated(ptr) {
        let d = choose|d: int| 0 <= d < SLUB_LEN && #[trigger] h.cache(d).allocated(ptr);
        assert(h.cache_ok(pages, mem, buddy, d));
        lemma_obj_frame(h.cache(d), pages, mem, ptr);
    } else {
        let f = choose|f: u64| #[trigger] h.large@.contains_key(f) && ptr == f * 4096 + PAGE_OFF;
        assert(h.large_ok(pages, mem, f));
        vstd::arithmetic::power2::lemma_pow2_pos(h.large@[f] as nat);
        assert(pages.page(f).head_page == f);
        assert forall|x: int| in_run(f, h.large@[f] as nat, x) implies !buddy.is_free(x) by {
            assert(h.large_owns(x));
        }
    }
}

/// After the heap has got the compound at frame `f` back that it had handed out whole,
/// it is in order again.
pub proof fn lemma_large_free<const ORDER: usize>(
    h0: &Slub,
    pages: &Pages,
    m0: &Memory,
    b0: &Buddy<ORDER>,
    h1: &Slub,
    m1: &Memory,
    b1: &Buddy<ORDER>,
    f: u64,
)
    requires
        h0.wf(pages, m0, b0),
        h0.large@.contains_key(f),
        h1.caches@ == h0.caches@,
        h1.large@ == h0.large@.remove(f),
        b1.wf(m1),
        m1.same_shape(m0),
        forall|x: int| b1.is_free(x) ==> b0.is_free(x) || in_run(f, h0.large@[f] as nat, x),
        forall|x: u64|
            m0.contains(x) && !b0.is_free(x as int) && !in_run(f, h0.large@[f] as nat, x as int)
                ==> m1.word(x) == m0.word(x),
    ensures
        h1.wf(pages, m1, b1),
        !h1.allocated((f * 4096 + PAGE_OFF) as u64),
        forall|o: u64| o != f * 4096 + PAGE_OFF ==> h1.allocated(o) == h0.allocated(o),
{
    reveal(Slub::wf);
    let k = h0.large@[f] as nat;
    let a = (f * 4096 + PAGE_OFF) as u64;
    assert(h0.large_ok(pages, m0, f));
    crate::mm::buddy::buddy::lemma_run_bytes(k);
    crate::mm::buddy::buddy::lemma_frame_run(m0, f, k);
    assert(in_run(f, k, a as int));
    assert forall|x: int| in_run(f, k, x) implies h0.large_owns(x) by {}
    assert forall|d: int| 0 <= d < SLUB_LEN implies #[trigger] h1.cache_ok(pages, m1, b1, d) by {
        let cd = h0.cache(d);
        assert(h0.cache_ok(pages, m0, b0, d));
        assert forall|x: u64| m0.contains(x) && cd.owns(x as int) implies m1.word(x) == m0.word(
            x,
        ) by {
            if in_run(f, k, x as int) {
                assert(h0.large_owns(x as int));
                assert(!h0.cache(d).owns(x as int));
            }
        }
        lemma_mem_frame(cd, pages, m0, m1);
        assert forall|x: int| cd.owns(x) implies !b1.is_free(x) by {
            if in_run(f, k, x) {
                assert(h0.large_owns(x));
                assert(!h0.cache(d).owns(x));
            }
        }
    }
    assert forall|c: int, d: int, x: int|
        0 <= c < SLUB_LEN && 0 <= d < SLUB_LEN && c != d implies !(#[trigger] h1.cache(c).owns(x)
        && #[trigger] h1.cache(d).owns(x)) by {
        assert(!(h0.cache(c).owns(x) && h0.cache(d).owns(x)));
    }
    assert forall|x: int| h1.large_owns(x) implies h0.large_owns(x) && !in_run(f, k, x) by {
        let g = choose|g: u64| #[trigger]
            h1.large@.contains_key(g) && in_run(g, h1.large@[g] as nat, x);
        assert(h0.large@.contains_key(g) && in_run(g, h0.large@[g] as nat, x));
        if in_run(f, k, x) {
            assert(h0.large@.contains_key(f) && in_run(g, h0.large@[g] as nat, x));
        }
    }
    assert forall|g: u64| #[trigger] h1.large@.contains_key(g) implies h1.large_ok(
        pages,
        m1,
        g,
    ) by {
        assert(h0.large_ok(pages, m0, g));
    }
    assert forall|c: int, x: int| 0 <= c < SLUB_LEN && h1.large_owns(x) implies !(
    #[trigger] h1.cache(c).owns(x)) by {
        assert(!h0.cache(c).owns(x));
    }
    assert forall|g: u64, j: u64, x: int|
        #![trigger h1.large@.contains_key(g), in_run(j, h1.large@[j] as nat, x)]
        h1.large@.contains_key(g) && h1.large@.contains_key(j) && in_run(
            g,
            h1.large@[g] as nat,
            x,
        ) && in_run(j, h1.large@[j] as nat, x) implies g == j by {
        assert(h0.large@.contains_key(g) && in_run(j, h0.large@[j] as nat, x));
    }
    if h1.allocated(a) {
        if exists|d: int| 0 <= d < SLUB_LEN && #[trigger] h1.cache(d).allocated(a) {
            let d = choose|d: int| 0 <= d < SLUB_LEN && #[trigger] h1.cache(d).allocated(a);
            assert(h0.cache_ok(pages, m0, b0, d));
            lemma_obj_frame(h0.cache(d), pages, m0, a);
            assert(!h0.cache(d).owns(a as int));
        } else {
            let g = choose|g: u64| #[trigger] h1.large@.contains_key(g) && a == g * 4096
                + PAGE_OFF;
            assert(g == f);
        }
    }
    assert forall|o: u64| o != f * 4096 + PAGE_OFF implies h1.allocated(o) == h0.allocated(o) by {
        if h1.allocated(o) {
            if exists|d: int| 0 <= d < SLUB_LEN && #[trigger] h1.cache(d).allocated(o) {
                let d = choose|d: int| 0 <= d < SLUB_LEN && #[trigger] h1.cache(d).allocated(o);
                assert(h0.cache(d).allocated(o));
            } else {
                let g = choose|g: u64| #[trigger] h1.large@.contains_key(g) && o == g * 4096
                    + PAGE_OFF;
                assert(h0.large@.contains_key(g));
            }
        }
        if h0.allocated(o) {
            if exists|d: int| 0 <= d < SLUB_LEN && #[trigger] h0.cache(d).allocated(o) {
                let d = choose|d: int| 0 <= d < SLUB_LEN && #[trigger] h0.cache(d).allocated(o);
                assert(h1.cache(d).allocated(o));
            } else {
                let g = choose|g: u64| #[trigger] h0.large@.contains_key(g) && o == g * 4096
                    + PAGE_OFF;
                assert(h1.large@.contains_key(g));
            }
        }
    }
}

impl Slub {
    /// Serves a request of `size` bytes on hart `hart` and returns the address, or 0
    /// where there is no memory. A request up to the largest object size goes to the
    /// cache of the next size; a larger one gets a compound of its own, of the lowest
    /// order that holds it.
    pub fn _alloc<const ORDER: usize>(
        &mut self,
        size: u64,
        hart: usize,
        pages: &mut Pages,
        buddy: &mut Spin<Buddy<ORDER>>,
        mem: &mut Memory,
    ) -> (r: u64)
        requires
            old(buddy).free(),
            old(self).wf(old(pages), old(mem), &old(buddy).data),
            hart < NCPU,
        ensures
            final(buddy).free(),
            final(buddy).data.wf(final(mem)),
            final(self).wf(final(pages), final(mem), &final(buddy).data),
            final(mem).same_shape(old(mem)),
            final(pages)@.len() == old(pages)@.len(),
            r != 0 ==> !old(self).allocated(r) && final(self).allocated(r),
            forall|o: u64| o != r ==> final(self).allocated(o) == old(self).allocated(o),
            r == 0 ==> *final(pages) == *old(pages) && *final(mem) == *old(mem) && *final(buddy)
                == *old(buddy),
            spec_heap_alloc(old(self), &old(buddy).data, size, hart as int, r),
            size <= 8192 ==> allocated_by(
                old(self).cache(spec_cache_index(size, 0)),
                old(pages),
                old(mem),
                &old(buddy).data,
                final(self).cache(spec_cache_index(size, 0)),
                final(pages),
                final(mem),
                &final(buddy).data,
                hart as int,
                r,
            ) && final(self).large@ == old(self).large@ && forall|d: int|
                0 <= d < SLUB_LEN && d != spec_cache_index(size, 0) ==> final(self).caches@[d]
                    == old(self).caches@[d],
            size > 8192 ==> final(self).caches@ == old(self).caches@ && final(buddy).data@
                == crate::mm::buddy::buddy::spec_alloc(old(buddy).data@, spec_large_ord(size, 0) as int)
                && (r != 0 ==> final(self).large@ == old(self).large@.insert(
                spec_alloc_frame(old(buddy).data@, spec_large_ord(size, 0) as int).unwrap().0,
                spec_large_ord(size, 0) as u16,
            )),
    {
        let idx: usize = cache_index(size);
        if idx < SLUB_LEN {
            self.alloc_small(idx, hart, pages, buddy, mem)
        } else {
            let ord: usize = large_ord(size);
            self.alloc_large(ord, hart, pages, buddy, mem)
        }
    }

    /// Serves a request for `size` bytes aligned to `align`: the size is rounded up to a
    /// multiple of the alignment, and that many bytes are allocated.
    pub fn allocate<const ORDER: usize>(
        &mut self,
        size: u64,
        align: u64,
        hart: usize,
        pages: &mut Pages,
        buddy: &mut Spin<Buddy<ORDER>>,
        mem: &mut Memory,
    ) -> (r: u64)
        requires
            old(buddy).free(),
            old(self).wf(old(pages), old(mem), &old(buddy).data),
            hart < NCPU,
            align > 0,
            crate::mm::spec_align_up(size as int, align as int) <= u64::MAX,
        ensures
            final(buddy).free(),
            final(buddy).data.wf(final(mem)),
            final(self).wf(final(pages), final(mem), &final(buddy).data),
            final(mem).same_shape(old(mem)),
            final(pages)@.len() == old(pages)@.len(),
            r != 0 ==> !old(self).allocated(r) && final(self).allocated(r),
            forall|o: u64| o != r ==> final(self).allocated(o) == old(self).allocated(o),
            r == 0 ==> *final(pages) == *old(pages) && *final(mem) == *old(mem) && *final(buddy)
                == *old(buddy),
            spec_heap_alloc(
                old(self),
                &old(buddy).data,
                crate::mm::spec_align_up(size as int, align as int) as u64,
                hart as int,
                r,
            ),
    {
        let rem: u64 = size % align;
        assert(rem <= size && rem < align) by (nonlinear_arith)
            requires
                rem == size % align,
                align > 0,
        ;
        let obj_size: u64 = if rem == 0 {
            size
        } else {
            size - rem + align
        };
        self._alloc(obj_size, hart, pages, buddy, mem)
    }

    /// Takes the allocated address `ptr` back on hart `hart`.
    pub fn dealloc<const ORDER: usize>(
        &mut self,
        ptr: u64,
        hart: usize,
        pages: &mut Pages,
        buddy: &mut Spin<Buddy<ORDER>>,
        mem: &mut Memory,
    )
        requires
            old(buddy).free(),
            old(self).wf(old(pages), old(mem), &old(buddy).data),
            hart < NCPU,
            old(self).allocated(ptr),
        ensures
            final(buddy).free(),
            final(buddy).data.wf(final(mem)),
            final(self).wf(final(pages), final(mem), &final(buddy).data),
            final(mem).same_shape(old(mem)),
            final(pages)@.len() == old(pages)@.len(),
            !final(self).allocated(ptr),
            forall|o: u64| o != ptr ==> final(self).allocated(o) == old(self).allocated(o),
            freed_from(
                old(self),
                old(pages),
                &old(buddy).data,
                final(self),
                final(pages),
                &final(buddy).data,
                hart as int,
                ptr,
            ),
    {
        self._dealloc(ptr, hart, pages, buddy, mem)
    }

    /// Takes the allocated address `ptr` back on hart `hart`. The descriptor of the head
    /// frame of its compound tells where it goes: to the cache that it names, or, where
    /// it names none, as a whole compound to the buddy allocator, with the order that
    /// it records.
    pub fn _dealloc<const ORDER: usize>(
        &mut self,
        ptr: u64,
        hart: usize,
        pages: &mut Pages,
        buddy: &mut Spin<Buddy<ORDER>>,
        mem: &mut Memory,
    )
        requires
            old(buddy).free(),
            old(self).wf(old(pages), old(mem), &old(buddy).data),
            hart < NCPU,
            old(self).allocated(ptr),
        ensures
            final(buddy).free(),
            final(buddy).data.wf(final(mem)),
            final(self).wf(final(pages), final(mem), &final(buddy).data),
            final(mem).same_shape(old(mem)),
            final(pages)@.len() == old(pages)@.len(),
            !final(self).allocated(ptr),
            forall|o: u64| o != ptr ==> final(self).allocated(o) == old(self).allocated(o),
            freed_from(
                old(self),
                old(pages),
                &old(buddy).data,
                final(self),
                final(pages),
                &final(buddy).data,
                hart as int,
                ptr,
            ),
    {
        proof {
            lemma_locate(self, pages, mem, &buddy.data, ptr);
            lemma_heap_facts(self, pages, mem, &buddy.data, 0);
            lemma_one_owner(self, pages, mem, &buddy.data, ptr);
        }
        let addr: VirtualAddr = VirtualAddr(ptr);
        let frame: PageFrame = addr.page_frame().get_head_page(pages);
        let page: Page = *frame.get_page(pages);
        match page.slub {
            None => {
                let ord: usize = page.slub_data.ord() as usize;
                proof {
                    crate::mm::buddy::buddy::lemma_frame_run(mem, frame.0, ord as nat);
                    buddy.data.lemma_clear_from_free(mem, frame_addr(frame.0), ord as nat);
                }
                super::free_pages(buddy, mem, hart, frame, ord);
                self.large = Ghost(self.large@.remove(frame.0));
                proof {
                    lemma_large_free(old(self), pages, old(mem), &old(buddy).data, self, mem, &buddy.data, frame.0);
                }
            },
            Some(id) => {
                let ghost h0 = *self;
                proof {
                    lemma_heap_facts(self, pages, mem, &buddy.data, id as int);
                }
                let cache: &mut MemCache = &mut self.caches[id];
                cache.dealloc(hart, pages, buddy, mem, ptr, frame);
                proof {
                    lemma_cache_step(
                        &h0, old(pages), old(mem), &old(buddy).data, self, pages, mem, &buddy.data, id as int,
                    );
                    lemma_allocated_step(&h0, self, id as int, ptr);
                    reveal(frame_ok);
                    lemma_obj_frame(h0.cache(id as int), old(pages), old(mem), ptr);
                    lemma_gone(
                        self,
                        pages,
                        mem,
                        &buddy.data,
                        &h0,
                        old(pages),
                        old(mem),
                        &old(buddy).data,
                        id as int,
                        ptr,
                    );
                }
            },
        }
    }
}

/// An address that a cache owned and has ceased to hold as allocated is not allocated
/// by the heap any more.
pub proof fn lemma_gone<const ORDER: usize>(
    h1: &Slub,
    p1: &Pages,
    m1: &Memory,
    b1: &Buddy<ORDER>,
    h0: &Slub,
    p0: &Pages,
    m0: &Memory,
    b0: &Buddy<ORDER>,
    idx: int,
    ptr: u64,
)
    requires
        h1.wf(p1, m1, b1),
        h0.wf(p0, m0, b0),
        0 <= idx < SLUB_LEN,
        h0.cache(idx).owns(ptr as int),
        !h1.cache(idx).allocated(ptr),
        forall|d: int| 0 <= d < SLUB_LEN && d != idx ==> h1.caches@[d] == h0.caches@[d],
        h1.large@ == h0.large@,
    ensures
        !h1.allocated(ptr),
{
    reveal(Slub::wf);
    if h1.allocated(ptr) {
        if exists|d: int| 0 <= d < SLUB_LEN && #[trigger] h1.cache(d).allocated(ptr) {
            let d = choose|d: int| 0 <= d < SLUB_LEN && #[trigger] h1.cache(d).allocated(ptr);
            assert(h0.cache_ok(p0, m0, b0, d));
            assert(h0.cache(d) == h1.cache(d));
            lemma_obj_frame(h0.cache(d), p0, m0, ptr);
            assert(!(h0.cache(idx).owns(ptr as int) && h0.cache(d).owns(ptr as int)));
        } else {
            let f = choose|f: u64| #[trigger] h1.large@.contains_key(f) && ptr == f * 4096
                + PAGE_OFF;
            crate::mm::buddy::buddy::lemma_run_bytes(h0.large@[f] as nat);
            assert(in_run(f, h0.large@[f] as nat, ptr as int));
            assert(h0.large_owns(ptr as int));
            assert(!h0.cache(idx).owns(ptr as int));
        }
    }
}

} // verus!
