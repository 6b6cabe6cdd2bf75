//! Memblock: the early allocator.
//!
//! Two fixed-capacity arrays of regions, `memory` (available) and `reserved`,
//! each kept sorted by base. It is single-threaded by contract and is used
//! only until the buddy allocator takes over.

use vstd::prelude::*;

use super::{PhysicalAddr, PAGE_SIZE};

verus! {

/// A run of `size` bytes of physical memory that starts at `base`.
#[derive(Clone, Copy, Debug)]
pub struct MemBlockRegion {
    pub base: PhysicalAddr,
    pub size: u64,
}

impl MemBlockRegion {
    /// One past the last byte of the region.
    pub open spec fn end(self) -> int {
        self.base.0 + self.size
    }

    /// `self` stands in the way of adding `r`: it has the same base, or it
    /// starts below `r` and runs into it, or it starts inside `r`.
    pub open spec fn conflicts(self, r: MemBlockRegion) -> bool {
        ||| self.base.0 == r.base.0
        ||| (self.base.0 < r.base.0 && self.end() > r.base.0)
        ||| (self.base.0 > r.base.0 && self.base.0 < r.end())
    }
}

/// Sorted by base, pairwise disjoint, and no region runs past the last address.
pub open spec fn regions_wf(s: Seq<MemBlockRegion>) -> bool {
    &&& forall|i: int| 0 <= i < s.len() ==> (#[trigger] s[i]).end() <= u64::MAX
    &&& forall|i: int, j: int|
        0 <= i < j < s.len() ==> (#[trigger] s[i]).base.0 < (#[trigger] s[j]).base.0 && s[i].end()
            <= s[j].base.0
}

/// No region touches its successor: adjacent regions are always merged.
pub open spec fn regions_compact(s: Seq<MemBlockRegion>) -> bool {
    forall|i: int| 0 <= i && i + 1 < s.len() ==> (#[trigger] s[i]).end() < s[i + 1].base.0
}

/// The regions after `r` went in at `pos`, merged with the neighbours it touches.
pub open spec fn spec_insert(s: Seq<MemBlockRegion>, r: MemBlockRegion, pos: int) -> Seq<
    MemBlockRegion,
> {
    if pos != 0 && s[pos - 1].end() == r.base.0 {
        if pos < s.len() && r.end() == s[pos].base.0 {
            s.update(
                pos - 1,
                MemBlockRegion {
                    base: s[pos - 1].base,
                    size: (s[pos - 1].size + r.size + s[pos].size) as u64,
                },
            ).remove(pos)
        } else {
            s.update(
                pos - 1,
                MemBlockRegion { base: s[pos - 1].base, size: (s[pos - 1].size + r.size) as u64 },
            )
        }
    } else if pos < s.len() && s[pos].base.0 == r.end() {
        s.update(pos, MemBlockRegion { base: r.base, size: (s[pos].size + r.size) as u64 })
    } else {
        s.insert(pos, r)
    }
}

/// Whether inserting `r` at `pos` takes a fresh slot, that is, merges with no neighbour.
pub open spec fn insert_needs_slot(s: Seq<MemBlockRegion>, r: MemBlockRegion, pos: int) -> bool {
    !(pos != 0 && s[pos - 1].end() == r.base.0) && !(pos < s.len() && s[pos].base.0 == r.end())
}

/// `r` can go in at `pos`: everything before `pos` ends at or before `r`, everything from
/// `pos` on starts at or after its end, and no base equals that of `r`.
pub open spec fn fits_at(s: Seq<MemBlockRegion>, r: MemBlockRegion, pos: int) -> bool {
    &&& 0 <= pos <= s.len()
    &&& forall|i: int|
        0 <= i < pos ==> (#[trigger] s[i]).base.0 < r.base.0 && s[i].end() <= r.base.0
    &&& forall|i: int|
        pos <= i < s.len() ==> (#[trigger] s[i]).base.0 > r.base.0 && s[i].base.0 >= r.end()
}

/// One sorted array of regions, with room for `N`.
pub struct MemBlockType<const N: usize> {
    pub len: usize,
    pub region: [MemBlockRegion; N],
}

impl<const N: usize> View for MemBlockType<N> {
    type V = Seq<MemBlockRegion>;

    open spec fn view(&self) -> Seq<MemBlockRegion> {
        self.region@.subrange(0, self.len as int)
    }
}

impl<const N: usize> MemBlockType<N> {
    /// The live prefix is within capacity and well formed.
    pub open spec fn wf(&self) -> bool {
        &&& self.len <= N
        &&& regions_wf(self@)
    }

    /// An empty array.
    pub fn new() -> (r: Self)
        ensures
            r@ == Seq::<MemBlockRegion>::empty(),
            r.wf(),
    {
        let r = MemBlockType {
            len: 0,
            region: vstd::array::array_fill_for_copy_types(
                MemBlockRegion { base: PhysicalAddr(0), size: 0 },
            ),
        };
        assert(r@ =~= Seq::<MemBlockRegion>::empty());
        r
    }

    /// Binary search by base: `Ok(pos)` where region `pos` starts at `base`, else
    /// `Err(pos)` with the position at which such a region would go in.
    pub fn search(&self, base: PhysicalAddr) -> (r: Result<usize, usize>)
        requires
            self.wf(),
        ensures
            match r {
                Ok(pos) => pos < self.len && self@[pos as int].base.0 == base.0,
                Err(pos) => {
                    &&& pos <= self.len
                    &&& forall|i: int| 0 <= i < pos ==> (#[trigger] self@[i]).base.0 < base.0
                    &&& forall|i: int|
                        pos <= i < self.len ==> (#[trigger] self@[i]).base.0 > base.0
                },
            },
    {
        let mut lo: usize = 0;
        let mut hi: usize = self.len;
        while lo < hi
            invariant
                self.wf(),
                lo <= hi <= self.len,
                forall|i: int| 0 <= i < lo ==> (#[trigger] self@[i]).base.0 < base.0,
                forall|i: int| hi <= i < self.len ==> (#[trigger] self@[i]).base.0 > base.0,
            decreases hi - lo,
        {
            let mid: usize = lo + (hi - lo) / 2;
            let b: u64 = self.region[mid].base.0;
            assert(self@[mid as int] == self.region@[mid as int]);
            if b == base.0 {
                return Ok(mid);
            } else if b < base.0 {
                assert forall|i: int| 0 <= i < mid + 1 implies (#[trigger] self@[i]).base.0
                    < base.0 by {
                    if i < mid {
                        assert(self@[i].base.0 < self@[mid as int].base.0);
                    }
                }
                lo = mid + 1;
            } else {
                assert forall|i: int| mid <= i < self.len implies (#[trigger] self@[i]).base.0
                    > base.0 by {
                    if i > mid {
                        assert(self@[mid as int].base.0 < self@[i].base.0);
                    }
                }
                hi = mid;
            }
        }
        Err(lo)
    }

    /// The region at `pos`.
    pub fn get(&self, pos: usize) -> (r: &MemBlockRegion)
        requires
            pos < self.len <= N,
        ensures
            *r == self@[pos as int],
    {
        &self.region[pos]
    }

    /// Puts `region` in at `pos` and moves what follows up by one; merges nothing.
    pub fn insert_no_combine(&mut self, region: &MemBlockRegion, pos: usize)
        requires
            pos <= old(self).len < N,
        ensures
            final(self)@ == old(self)@.insert(pos as int, *region),
            final(self).len == old(self).len + 1,
    {
        let mut i: usize = self.len;
        while i > pos
            invariant
                pos <= i <= self.len < N,
                self.len == old(self).len,
                forall|k: int| 0 <= k <= i ==> self.region@[k] == old(self).region@[k],
                forall|k: int| i < k <= self.len ==> self.region@[k] == old(self).region@[k - 1],
            decreases i,
        {
            let m: MemBlockRegion = self.region[i - 1];
            self.region[i] = m;
            i = i - 1;
        }
        self.region[pos] = *region;
        self.len = self.len + 1;
        assert(self@ =~= old(self)@.insert(pos as int, *region));
    }

    /// Takes the region at `pos` out and moves what follows down by one.
    pub fn delete(&mut self, pos: usize)
        requires
            pos < old(self).len <= N,
        ensures
            final(self)@ == old(self)@.remove(pos as int),
            final(self).len == old(self).len - 1,
    {
        let mut i: usize = pos;
        while i + 1 < self.len
            invariant
                pos <= i < self.len <= N,
                self.len == old(self).len,
                forall|k: int| 0 <= k < pos ==> self.region@[k] == old(self).region@[k],
                forall|k: int| pos <= k < i ==> self.region@[k] == old(self).region@[k + 1],
                forall|k: int| i <= k < self.len ==> self.region@[k] == old(self).region@[k],
            decreases self.len - i,
        {
            let m: MemBlockRegion = self.region[i + 1];
            self.region[i] = m;
            i = i + 1;
        }
        self.len = self.len - 1;
        assert(self@ =~= old(self)@.remove(pos as int));
    }

    /// Grows the region at `pos` by `size` bytes at its end.
    pub fn attach(&mut self, pos: usize, size: u64)
        requires
            pos < old(self).len <= N,
            old(self)@[pos as int].size + size <= u64::MAX,
        ensures
            final(self).len == old(self).len,
            final(self)@ == old(self)@.update(
                pos as int,
                MemBlockRegion {
                    base: old(self)@[pos as int].base,
                    size: (old(self)@[pos as int].size + size) as u64,
                },
            ),
    {
        let m: MemBlockRegion = self.region[pos];
        self.region[pos] = MemBlockRegion { base: m.base, size: m.size + size };
        assert(self@ =~= old(self)@.update(
            pos as int,
            MemBlockRegion { base: m.base, size: (m.size + size) as u64 },
        ));
    }

    /// Grows the region at `pos` by `size` bytes at its start.
    pub fn attach_before(&mut self, pos: usize, size: u64)
        requires
            pos < old(self).len <= N,
            old(self)@[pos as int].size + size <= u64::MAX,
            old(self)@[pos as int].base.0 >= size,
        ensures
            final(self).len == old(self).len,
            final(self)@ == old(self)@.update(
                pos as int,
                MemBlockRegion {
                    base: PhysicalAddr((old(self)@[pos as int].base.0 - size) as u64),
                    size: (old(self)@[pos as int].size + size) as u64,
                },
            ),
    {
        let m: MemBlockRegion = self.region[pos];
        self.region[pos] = MemBlockRegion { base: PhysicalAddr(m.base.0 - size), size: m.size + size };
        assert(self@ =~= old(self)@.update(
            pos as int,
            MemBlockRegion {
                base: PhysicalAddr((m.base.0 - size) as u64),
                size: (m.size + size) as u64,
            },
        ));
    }

    /// Cuts `size` bytes off the end of the region at `pos`; a region cut to nothing leaves.
    pub fn detach_tail(&mut self, pos: usize, size: u64)
        requires
            pos < old(self).len <= N,
            size <= old(self)@[pos as int].size,
        ensures
            final(self)@ == spec_detach_tail(old(self)@, pos as int, size),
            final(self).len == final(self)@.len(),
    {
        let m: MemBlockRegion = self.region[pos];
        if size == m.size {
            self.delete(pos);
        } else {
            self.region[pos] = MemBlockRegion { base: m.base, size: m.size - size };
            assert(self@ =~= spec_detach_tail(old(self)@, pos as int, size));
        }
    }

    /// Cuts `size` bytes off the start of the region at `pos`; a region cut to nothing leaves.
    pub fn detach_head(&mut self, pos: usize, size: u64)
        requires
            pos < old(self).len <= N,
            size <= old(self)@[pos as int].size,
            old(self)@[pos as int].end() <= u64::MAX,
        ensures
            final(self)@ == spec_detach_head(old(self)@, pos as int, size),
            final(self).len == final(self)@.len(),
    {
        let m: MemBlockRegion = self.region[pos];
        if size == m.size {
            self.delete(pos);
        } else {
            self.region[pos] = MemBlockRegion {
                base: PhysicalAddr(m.base.0 + size),
                size: m.size - size,
            };
            assert(self@ =~= spec_detach_head(old(self)@, pos as int, size));
        }
    }

    /// Whether `region` can be added: `Ok(pos)` if it meets no region of the array, with
    /// the position to insert it at; `Err(pos)` with the first region that is in its way.
    pub fn check(&self, region: &MemBlockRegion) -> (r: Result<usize, usize>)
        requires
            self.wf(),
            region.end() <= u64::MAX,
        ensures
            match r {
                Ok(pos) => fits_at(self@, *region, pos as int),
                Err(pos) => {
                    &&& pos < self.len
                    &&& self@[pos as int].conflicts(*region)
                    &&& forall|i: int| 0 <= i < pos ==> !(#[trigger] self@[i]).conflicts(*region)
                },
            },
    {
        let target = self.search(region.base);
        match target {
            Ok(pos) => {
                assert forall|i: int| 0 <= i < pos implies !(#[trigger] self@[i]).conflicts(
                    *region,
                ) by {
                    assert(self@[i].end() <= self@[pos as int].base.0);
                }
                Err(pos)
            },
            Err(pos) => {
                if pos != 0 {
                    let m = self.get(pos - 1);
                    if m.base.0 + m.size > region.base.0 {
                        assert forall|i: int| 0 <= i < pos - 1 implies !(
                        #[trigger] self@[i]).conflicts(*region) by {
                            assert(self@[i].end() <= self@[pos - 1].base.0);
                        }
                        return Err(pos - 1);
                    }
                }
                if pos < self.len {
                    let m = self.get(pos);
                    if m.base.0 < region.base.0 + region.size {
                        assert forall|i: int| 0 <= i < pos implies !(#[trigger] self@[i]).conflicts(
                            *region,
                        ) by {
                            if i < pos - 1 {
                                assert(self@[i].end() <= self@[pos - 1].base.0);
                            }
                        }
                        return Err(pos);
                    }
                }
                assert forall|i: int| 0 <= i < pos implies (#[trigger] self@[i]).base.0
                    < region.base.0 && self@[i].end() <= region.base.0 by {
                    if i < pos - 1 {
                        assert(self@[i].end() <= self@[pos - 1].base.0);
                    }
                }
                assert forall|i: int| pos <= i < self.len implies (#[trigger] self@[i]).base.0
                    > region.base.0 && self@[i].base.0 >= region.end() by {
                    if i > pos {
                        assert(self@[pos as int].base.0 < self@[i].base.0);
                    }
                }
                Ok(pos)
            },
        }
    }

    /// Puts `region` in at `pos` and merges it with the predecessor and the successor
    /// where their ends touch.
    pub fn insert(&mut self, region: &MemBlockRegion, pos: usize)
        requires
            old(self).wf(),
            region.end() <= u64::MAX,
            fits_at(old(self)@, *region, pos as int),
            insert_needs_slot(old(self)@, *region, pos as int) ==> old(self).len < N,
        ensures
            final(self)@ == spec_insert(old(self)@, *region, pos as int),
            final(self).wf(),
            regions_compact(old(self)@) ==> regions_compact(final(self)@),
    {
        let ghost s = self@;
        let ghost t = spec_insert(s, *region, pos as int);
        proof {
            lemma_insert_wf(s, *region, pos as int);
        }
        if pos != 0 {
            let m: MemBlockRegion = *self.get(pos - 1);
            if m.base.0 + m.size == region.base.0 {
                self.attach(pos - 1, region.size);
                if pos < self.len {
                    let n: MemBlockRegion = *self.get(pos);
                    if m.base.0 + m.size + region.size == n.base.0 {
                        let sz: u64 = n.size;
                        self.attach(pos - 1, sz);
                        self.delete(pos);
                        assert(self@ =~= t);
                        return ;
                    }
                }
                assert(self@ =~= t);
                return ;
            }
        }
        if pos < self.len {
            let m: MemBlockRegion = *self.get(pos);
            if m.base.0 == region.base.0 + region.size {
                self.attach_before(pos, region.size);
                assert(self@ =~= t);
                return ;
            }
        }
        self.insert_no_combine(region, pos);
    }
}

/// The regions after `size` bytes left the end of region `pos`.
pub open spec fn spec_detach_tail(s: Seq<MemBlockRegion>, pos: int, size: u64) -> Seq<
    MemBlockRegion,
> {
    if size == s[pos].size {
        s.remove(pos)
    } else {
        s.update(pos, MemBlockRegion { base: s[pos].base, size: (s[pos].size - size) as u64 })
    }
}

/// The regions after `size` bytes left the start of region `pos`.
pub open spec fn spec_detach_head(s: Seq<MemBlockRegion>, pos: int, size: u64) -> Seq<
    MemBlockRegion,
> {
    if size == s[pos].size {
        s.remove(pos)
    } else {
        s.update(
            pos,
            MemBlockRegion {
                base: PhysicalAddr((s[pos].base.0 + size) as u64),
                size: (s[pos].size - size) as u64,
            },
        )
    }
}

/// Inserting a region where it fits keeps the array well formed and compact.
pub proof fn lemma_insert_wf(s: Seq<MemBlockRegion>, r: MemBlockRegion, pos: int)
    requires
        regions_wf(s),
        r.end() <= u64::MAX,
        fits_at(s, r, pos),
    ensures
        regions_wf(spec_insert(s, r, pos)),
        regions_compact(s) ==> regions_compact(spec_insert(s, r, pos)),
        pos != 0 ==> s[pos - 1].size + r.size <= u64::MAX,
        pos < s.len() ==> s[pos].size + r.size <= u64::MAX,
        pos != 0 && pos < s.len() ==> s[pos - 1].size + r.size + s[pos].size <= u64::MAX,
{
    let t = spec_insert(s, r, pos);
    if pos != 0 {
        assert(s[pos - 1].end() <= r.base.0);
    }
    if pos < s.len() {
        assert(s[pos].base.0 >= r.end());
        assert(s[pos].end() <= u64::MAX);
    }
    if pos != 0 && s[pos - 1].end() == r.base.0 {
        if pos < s.len() && r.end() == s[pos].base.0 {
            lemma_insert_wf_both(s, r, pos);
        } else {
            lemma_insert_wf_prev(s, r, pos);
        }
    } else if pos < s.len() && s[pos].base.0 == r.end() {
        lemma_insert_wf_next(s, r, pos);
    } else {
        lemma_insert_wf_none(s, r, pos);
    }
}

#[verifier::spinoff_prover]
#[verifier::rlimit(60)]
proof fn lemma_insert_wf_both(s: Seq<MemBlockRegion>, r: MemBlockRegion, pos: int)
    requires
        regions_wf(s),
        r.end() <= u64::MAX,
        fits_at(s, r, pos),
        pos != 0 && s[pos - 1].end() == r.base.0,
        pos < s.len() && r.end() == s[pos].base.0,
    ensures
        regions_wf(spec_insert(s, r, pos)),
        regions_compact(s) ==> regions_compact(spec_insert(s, r, pos)),
{
    let t = spec_insert(s, r, pos);
    assert(s[pos].end() <= u64::MAX);
    assert(t.len() == s.len() - 1);
    assert forall|i: int| 0 <= i < t.len() implies (#[trigger] t[i]).end() <= u64::MAX by {
        let si = if i < pos { i } else { i + 1 };
        assert(s[si].end() <= u64::MAX);
    }
    assert forall|i: int, j: int| 0 <= i < j < t.len() implies (#[trigger] t[i]).base.0 < (
    #[trigger] t[j]).base.0 && t[i].end() <= t[j].base.0 by {
        let si = if i < pos { i } else { i + 1 };
        let sj = if j < pos { j } else { j + 1 };
        assert(s[si].base.0 < s[sj].base.0 && s[si].end() <= s[sj].base.0);
        if i == pos - 1 {
            assert(s[pos].base.0 < s[sj].base.0 && s[pos].end() <= s[sj].base.0);
        }
    }
    if regions_compact(s) {
        assert forall|i: int| 0 <= i && i + 1 < t.len() implies (#[trigger] t[i]).end() < t[i
            + 1].base.0 by {
            if i < pos - 1 {
                assert(s[i].end() < s[i + 1].base.0);
            } else {
                assert(s[i + 1].end() < s[i + 2].base.0);
            }
        }
    }
}

#[verifier::spinoff_prover]
#[verifier::rlimit(60)]
proof fn lemma_insert_wf_prev(s: Seq<MemBlockRegion>, r: MemBlockRegion, pos: int)
    requires
        regions_wf(s),
        r.end() <= u64::MAX,
        fits_at(s, r, pos),
        pos != 0 && s[pos - 1].end() == r.base.0,
        !(pos < s.len() && r.end() == s[pos].base.0),
    ensures
        regions_wf(spec_insert(s, r, pos)),
        regions_compact(s) ==> regions_compact(spec_insert(s, r, pos)),
{
    let t = spec_insert(s, r, pos);
    assert forall|i: int| 0 <= i < t.len() implies (#[trigger] t[i]).end() <= u64::MAX by {
        assert(s[i].end() <= u64::MAX);
    }
    assert forall|i: int, j: int| 0 <= i < j < t.len() implies (#[trigger] t[i]).base.0 < (
    #[trigger] t[j]).base.0 && t[i].end() <= t[j].base.0 by {
        assert(s[i].base.0 < s[j].base.0 && s[i].end() <= s[j].base.0);
        if i == pos - 1 {
            assert(s[j].base.0 >= r.end());
        }
    }
    if regions_compact(s) {
        assert forall|i: int| 0 <= i && i + 1 < t.len() implies (#[trigger] t[i]).end() < t[i
            + 1].base.0 by {
            assert(s[i].end() < s[i + 1].base.0);
            if i == pos - 1 {
                assert(s[pos].base.0 >= r.end());
            }
        }
    }
}

#[verifier::spinoff_prover]
#[verifier::rlimit(60)]
proof fn lemma_insert_wf_next(s: Seq<MemBlockRegion>, r: MemBlockRegion, pos: int)
    requires
        regions_wf(s),
        r.end() <= u64::MAX,
        fits_at(s, r, pos),
        !(pos != 0 && s[pos - 1].end() == r.base.0),
        pos < s.len() && r.end() == s[pos].base.0,
    ensures
        regions_wf(spec_insert(s, r, pos)),
        regions_compact(s) ==> regions_compact(spec_insert(s, r, pos)),
{
    let t = spec_insert(s, r, pos);
    assert(s[pos].end() <= u64::MAX);
    assert forall|i: int| 0 <= i < t.len() implies (#[trigger] t[i]).end() <= u64::MAX by {
        assert(s[i].end() <= u64::MAX);
    }
    assert forall|i: int, j: int| 0 <= i < j < t.len() implies (#[trigger] t[i]).base.0 < (
    #[trigger] t[j]).base.0 && t[i].end() <= t[j].base.0 by {
        assert(s[i].base.0 < s[j].base.0 && s[i].end() <= s[j].base.0);
        if j == pos {
            assert(s[i].end() <= r.base.0);
        }
    }
    if regions_compact(s) {
        assert forall|i: int| 0 <= i && i + 1 < t.len() implies (#[trigger] t[i]).end() < t[i
            + 1].base.0 by {
            assert(s[i].end() < s[i + 1].base.0);
            if i + 1 == pos {
                assert(s[pos - 1].end() <= r.base.0);
            }
        }
    }
}

#[verifier::spinoff_prover]
#[verifier::rlimit(60)]
proof fn lemma_insert_wf_none(s: Seq<MemBlockRegion>, r: MemBlockRegion, pos: int)
    requires
        regions_wf(s),
        r.end() <= u64::MAX,
        fits_at(s, r, pos),
        !(pos != 0 && s[pos - 1].end() == r.base.0),
        !(pos < s.len() && r.end() == s[pos].base.0),
    ensures
        regions_wf(spec_insert(s, r, pos)),
        regions_compact(s) ==> regions_compact(spec_insert(s, r, pos)),
{
    let t = spec_insert(s, r, pos);
    assert(t == s.insert(pos, r));
    assert forall|i: int| 0 <= i < t.len() implies (#[trigger] t[i]).end() <= u64::MAX by {
        if i != pos {
            let si = if i < pos { i } else { i - 1 };
            assert(s[si].end() <= u64::MAX);
        }
    }
    assert forall|i: int, j: int| 0 <= i < j < t.len() implies (#[trigger] t[i]).base.0 < (
    #[trigger] t[j]).base.0 && t[i].end() <= t[j].base.0 by {
        let si = if i < pos { i } else { i - 1 };
        let sj = if j < pos { j } else { j - 1 };
        if i != pos && j != pos {
            assert(s[si].base.0 < s[sj].base.0 && s[si].end() <= s[sj].base.0);
        } else if i == pos {
            assert(s[sj].base.0 > r.base.0 && s[sj].base.0 >= r.end());
        } else {
            assert(s[si].base.0 < r.base.0 && s[si].end() <= r.base.0);
        }
    }
    if regions_compact(s) {
        assert forall|i: int| 0 <= i && i + 1 < t.len() implies (#[trigger] t[i]).end() < t[i
            + 1].base.0 by {
            if i + 1 < pos {
                assert(s[i].end() < s[i + 1].base.0);
            } else if i + 1 == pos {
                assert(s[pos - 1].end() <= r.base.0);
            } else if i == pos {
                assert(s[pos].base.0 >= r.end());
            } else {
                assert(s[i - 1].end() < s[i].base.0);
            }
        }
    }
}

/// How many regions of `s` start below `base`: where a region with that base goes in.
pub open spec fn spec_pos(s: Seq<MemBlockRegion>, base: u64) -> int
    decreases s.len(),
{
    if s.len() == 0 {
        0
    } else {
        spec_pos(s.drop_last(), base) + if s.last().base.0 < base {
            1int
        } else {
            0int
        }
    }
}

/// In a sorted array the position that a binary search finds is `spec_pos`.
pub proof fn lemma_spec_pos(s: Seq<MemBlockRegion>, base: u64, pos: int)
    requires
        0 <= pos <= s.len(),
        forall|i: int| 0 <= i < pos ==> (#[trigger] s[i]).base.0 < base,
        forall|i: int| pos <= i < s.len() ==> (#[trigger] s[i]).base.0 >= base,
    ensures
        spec_pos(s, base) == pos,
    decreases s.len(),
{
    if s.len() > 0 {
        let t = s.drop_last();
        assert forall|i: int| 0 <= i < t.len() implies t[i] == s[i] by {}
        if pos == s.len() {
            assert(s.last() == s[pos - 1]);
            lemma_spec_pos(t, base, pos - 1);
        } else {
            assert(s.last() == s[s.len() - 1]);
            lemma_spec_pos(t, base, pos);
        }
    }
}

/// Whether `r` touches a region of `s` end to start, so that inserting it merges.
pub open spec fn touches(s: Seq<MemBlockRegion>, r: MemBlockRegion) -> bool {
    exists|i: int|
        0 <= i < s.len() && ((#[trigger] s[i]).end() == r.base.0 || s[i].base.0 == r.end())
}

/// No region of `s` stands in the way of adding `r`.
pub open spec fn no_conflict(s: Seq<MemBlockRegion>, r: MemBlockRegion) -> bool {
    forall|i: int| 0 <= i < s.len() ==> !(#[trigger] s[i]).conflicts(r)
}

/// Where `r` fits, it merges on insertion exactly if it touches a region.
pub proof fn lemma_touches(s: Seq<MemBlockRegion>, r: MemBlockRegion, pos: int)
    requires
        regions_wf(s),
        fits_at(s, r, pos),
    ensures
        touches(s, r) <==> !insert_needs_slot(s, r, pos),
        no_conflict(s, r),
        spec_pos(s, r.base.0) == pos,
{
    lemma_spec_pos(s, r.base.0, pos);
    if touches(s, r) {
        let i = choose|i: int|
            0 <= i < s.len() && ((#[trigger] s[i]).end() == r.base.0 || s[i].base.0 == r.end());
        if i < pos - 1 {
            assert(s[i].end() <= s[pos - 1].base.0);
            assert(s[pos - 1].base.0 < r.base.0);
        }
        if i > pos {
            assert(s[pos].base.0 < s[i].base.0);
            assert(s[pos].base.0 >= r.end());
        }
    }
    if pos != 0 && s[pos - 1].end() == r.base.0 {
        assert(s[pos - 1].end() == r.base.0 || s[pos - 1].base.0 == r.end());
    }
    if pos < s.len() && s[pos].base.0 == r.end() {
        assert(s[pos].end() == r.base.0 || s[pos].base.0 == r.end());
    }
}

/// The memory regions after `r` was reserved: a region that starts where `r` starts
/// loses its head; one that `r` lies inside loses its tail, or is split in two.
pub open spec fn spec_reserve(s: Seq<MemBlockRegion>, r: MemBlockRegion) -> Seq<MemBlockRegion> {
    let pos = spec_pos(s, r.base.0);
    if pos < s.len() && s[pos].base.0 == r.base.0 {
        spec_detach_head(s, pos, r.size)
    } else if pos != 0 && s[pos - 1].end() > r.base.0 {
        if r.end() == s[pos - 1].end() {
            spec_detach_tail(s, pos - 1, r.size)
        } else {
            s.update(
                pos - 1,
                MemBlockRegion {
                    base: s[pos - 1].base,
                    size: (r.base.0 - s[pos - 1].base.0) as u64,
                },
            ).insert(
                pos,
                MemBlockRegion {
                    base: PhysicalAddr(r.end() as u64),
                    size: (s[pos - 1].end() - r.end()) as u64,
                },
            )
        }
    } else {
        s
    }
}

/// Whether `r` starts inside a region of `s`, so that reserving it cuts into memory.
pub open spec fn starts_in_memory(s: Seq<MemBlockRegion>, r: MemBlockRegion) -> bool {
    let pos = spec_pos(s, r.base.0);
    (pos < s.len() && s[pos].base.0 == r.base.0) || (pos != 0 && s[pos - 1].end() > r.base.0)
}

/// Whether a region of `size` bytes can be carved, page aligned, from the end of `m`.
pub open spec fn can_carve(m: MemBlockRegion, size: u64) -> bool {
    m.size >= size && carve_addr(m, size) >= m.base.0
}

/// Where such a region starts: the end of `m` less `size`, rounded down to a page.
pub open spec fn carve_addr(m: MemBlockRegion, size: u64) -> int {
    (m.end() - size) - (m.end() - size) % 4096
}

/// `t` is what is left of the regions `s` after `size` bytes were carved at address `a`:
/// from the end of the first region that can hold them at a page-aligned address.
pub open spec fn carved(s: Seq<MemBlockRegion>, t: Seq<MemBlockRegion>, size: u64, a: u64) -> bool {
    exists|i: int|
        {
            &&& 0 <= i < s.len()
            &&& can_carve(#[trigger] s[i], size)
            &&& forall|j: int| 0 <= j < i ==> !can_carve(#[trigger] s[j], size)
            &&& a == carve_addr(s[i], size)
            &&& t == spec_detach_tail(s, i, (s[i].end() - a) as u64)
        }
}

/// The early allocator: `memory` holds what is available, `reserved` what was set aside
/// outside of it.
pub struct MemBlock<const N: usize, const M: usize> {
    pub memory: MemBlockType<N>,
    pub reserved: MemBlockType<M>,
}

impl<const N: usize, const M: usize> MemBlock<N, M> {
    /// Both arrays are within capacity, sorted and pairwise disjoint.
    pub open spec fn wf(&self) -> bool {
        self.memory.wf() && self.reserved.wf()
    }

    /// In both arrays, regions that touch have been merged.
    pub open spec fn compact(&self) -> bool {
        regions_compact(self.memory@) && regions_compact(self.reserved@)
    }

    /// The inputs on which `add` works, given as a region.
    pub open spec fn spec_can_add(&self, r: MemBlockRegion) -> bool {
        &&& r.end() <= u64::MAX
        &&& no_conflict(self.reserved@, r)
        &&& no_conflict(self.memory@, r)
        &&& (self.memory.len < N || touches(self.memory@, r))
    }

    /// The inputs on which `reserve` works, given as a region.
    pub open spec fn spec_can_reserve(&self, r: MemBlockRegion) -> bool {
        let s = self.memory@;
        let pos = spec_pos(s, r.base.0);
        &&& r.end() <= u64::MAX
        &&& if pos < s.len() && s[pos].base.0 == r.base.0 {
            s[pos].size >= r.size
        } else if pos != 0 && s[pos - 1].end() > r.base.0 {
            r.end() <= s[pos - 1].end() && (r.end() < s[pos - 1].end() ==> self.memory.len < N)
        } else {
            &&& pos < s.len() ==> s[pos].base.0 >= r.end()
            &&& no_conflict(self.reserved@, r)
            &&& (self.reserved.len < M || touches(self.reserved@, r))
        }
    }

    /// An allocator that knows of no memory yet.
    pub fn new() -> (r: Self)
        ensures
            r.wf(),
            r.compact(),
            r.memory@ == Seq::<MemBlockRegion>::empty(),
            r.reserved@ == Seq::<MemBlockRegion>::empty(),
    {
        MemBlock { memory: MemBlockType::new(), reserved: MemBlockType::new() }
    }

    /// Whether `add(base, size)` may be called: the region does not run past the last
    /// address, meets no region of either array, and there is room for it.
    pub fn can_add(&self, base: PhysicalAddr, size: u64) -> (ok: bool)
        requires
            self.wf(),
        ensures
            ok == self.spec_can_add(MemBlockRegion { base, size }),
    {
        let region = MemBlockRegion { base, size };
        if size > u64::MAX - base.0 {
            return false;
        }
        match self.reserved.check(&region) {
            Ok(_) => {},
            Err(e) => {
                assert(self.reserved@[e as int].conflicts(region));
                return false;
            },
        }
        match self.memory.check(&region) {
            Ok(pos) => {
                proof {
                    lemma_touches(self.memory@, region, pos as int);
                    let ghost rpos = choose|p: int| fits_at(self.reserved@, region, p);
                    lemma_touches(self.reserved@, region, rpos);
                }
                if self.memory.len < N {
                    return true;
                }
                let prev: bool = pos != 0 && self.memory.get(pos - 1).base.0 + self.memory.get(
                    pos - 1,
                ).size == base.0;
                let next: bool = pos < self.memory.len && self.memory.get(pos).base.0 == base.0
                    + size;
                prev || next
            },
            Err(e) => {
                assert(self.memory@[e as int].conflicts(region));
                false
            },
        }
    }

    /// Adds a block to `memory`, merged with the regions it touches.
    pub fn add(&mut self, base: PhysicalAddr, size: u64)
        requires
            old(self).wf(),
            old(self).spec_can_add(MemBlockRegion { base, size }),
        ensures
            final(self).wf(),
            final(self).memory@ == spec_insert(
                old(self).memory@,
                MemBlockRegion { base, size },
                spec_pos(old(self).memory@, base.0),
            ),
            final(self).reserved@ == old(self).reserved@,
            old(self).compact() ==> final(self).compact(),
    {
        let region = MemBlockRegion { base, size };
        match self.memory.check(&region) {
            Ok(pos) => {
                proof {
                    lemma_touches(self.memory@, region, pos as int);
                }
                self.memory.insert(&region, pos);
            },
            Err(e) => {
                assert(self.memory@[e as int].conflicts(region));
            },
        }
    }

    /// Whether `reserve(base, size)` may be called. It may where the region lies within
    /// one region of `memory` that it shares its start with or starts inside of, and
    /// where it meets no region of either array; and there is room for what it adds.
    pub fn can_reserve(&self, base: PhysicalAddr, size: u64) -> (ok: bool)
        requires
            self.wf(),
        ensures
            ok == self.spec_can_reserve(MemBlockRegion { base, size }),
    {
        let region = MemBlockRegion { base, size };
        if size > u64::MAX - base.0 {
            return false;
        }
        match self.memory.search(base) {
            Ok(pos) => {
                proof {
                    assert forall|i: int| 0 <= i < pos implies (#[trigger] self.memory@[i]).base.0
                        < base.0 by {
                        assert(self.memory@[i].base.0 < self.memory@[pos as int].base.0);
                    }
                    assert forall|i: int| pos <= i < self.memory@.len() implies (
                    #[trigger] self.memory@[i]).base.0 >= base.0 by {
                        if i > pos {
                            assert(self.memory@[pos as int].base.0 < self.memory@[i].base.0);
                        }
                    }
                    lemma_spec_pos(self.memory@, base.0, pos as int);
                }
                self.memory.get(pos).size >= size
            },
            Err(pos) => {
                proof {
                    lemma_spec_pos(self.memory@, base.0, pos as int);
                }
                if pos != 0 {
                    let m = self.memory.get(pos - 1);
                    if m.base.0 + m.size > base.0 {
                        if base.0 + size > m.base.0 + m.size {
                            return false;
                        }
                        return base.0 + size == m.base.0 + m.size || self.memory.len < N;
                    }
                }
                if pos < self.memory.len {
                    let m = self.memory.get(pos);
                    if m.base.0 < base.0 + size {
                        return false;
                    }
                }
                match self.reserved.check(&region) {
                    Ok(rpos) => {
                        proof {
                            lemma_touches(self.reserved@, region, rpos as int);
                        }
                        if self.reserved.len < M {
                            return true;
                        }
                        let prev: bool = rpos != 0 && self.reserved.get(rpos - 1).base.0
                            + self.reserved.get(rpos - 1).size == base.0;
                        let next: bool = rpos < self.reserved.len && self.reserved.get(
                            rpos,
                        ).base.0 == base.0 + size;
                        prev || next
                    },
                    Err(e) => {
                        assert(self.reserved@[e as int].conflicts(region));
                        false
                    },
                }
            },
        }
    }

    /// Sets a block aside. Where it starts inside a region of `memory`, that region is
    /// trimmed at its head or its tail, or split in two, and `false` is returned. Where
    /// it lies outside of `memory` it is recorded in `reserved`, and `true` is returned.
    pub fn reserve(&mut self, base: PhysicalAddr, size: u64) -> (outside: bool)
        requires
            old(self).wf(),
            old(self).spec_can_reserve(MemBlockRegion { base, size }),
        ensures
            final(self).wf(),
            outside == !starts_in_memory(old(self).memory@, MemBlockRegion { base, size }),
            final(self).memory@ == spec_reserve(old(self).memory@, MemBlockRegion { base, size }),
            final(self).reserved@ == if outside {
                spec_insert(
                    old(self).reserved@,
                    MemBlockRegion { base, size },
                    spec_pos(old(self).reserved@, base.0),
                )
            } else {
                old(self).reserved@
            },
            old(self).compact() && size > 0 ==> final(self).compact(),
    {
        let region = MemBlockRegion { base, size };
        let ghost s = self.memory@;
        match self.memory.search(base) {
            Ok(pos) => {
                proof {
                    assert forall|i: int| 0 <= i < pos implies (#[trigger] s[i]).base.0
                        < base.0 by {
                        assert(s[i].base.0 < s[pos as int].base.0);
                    }
                    assert forall|i: int| pos <= i < s.len() implies (#[trigger] s[i]).base.0
                        >= base.0 by {
                        if i > pos {
                            assert(s[pos as int].base.0 < s[i].base.0);
                        }
                    }
                    lemma_spec_pos(s, base.0, pos as int);
                    lemma_detach_head_wf(s, pos as int, size);
                }
                self.memory.detach_head(pos, size);
                return false;
            },
            Err(pos) => {
                proof {
                    lemma_spec_pos(s, base.0, pos as int);
                }
                if pos != 0 {
                    let m: MemBlockRegion = *self.memory.get(pos - 1);
                    if m.base.0 + m.size > base.0 {
                        if base.0 + size == m.base.0 + m.size {
                            proof {
                                lemma_detach_tail_wf(s, pos - 1, size);
                            }
                            self.memory.detach_tail(pos - 1, size);
                        } else {
                            let end: u64 = m.base.0 + m.size;
                            proof {
                                lemma_split_wf(s, region, pos as int);
                            }
                            self.memory.detach_tail(pos - 1, end - base.0);
                            let nbase: u64 = base.0 + size;
                            let nsize: u64 = end - nbase;
                            self.memory.insert_no_combine(
                                &MemBlockRegion { base: PhysicalAddr(nbase), size: nsize },
                                pos,
                            );
                        }
                        return false;
                    }
                }
            },
        }
        match self.reserved.check(&region) {
            Ok(rpos) => {
                proof {
                    lemma_touches(self.reserved@, region, rpos as int);
                }
                self.reserved.insert(&region, rpos);
            },
            Err(e) => {
                assert(self.reserved@[e as int].conflicts(region));
            },
        }
        true
    }

    /// Carves `size` bytes from the end of the lowest region of `memory` that can hold
    /// them at a page-aligned address, and returns that address; `None` if no region can.
    pub fn allocate(&mut self, size: u64) -> (r: Option<PhysicalAddr>)
        requires
            old(self).wf(),
        ensures
            final(self).wf(),
            final(self).reserved@ == old(self).reserved@,
            old(self).compact() ==> final(self).compact(),
            match r {
                None => {
                    &&& final(self).memory@ == old(self).memory@
                    &&& forall|i: int|
                        0 <= i < old(self).memory@.len() ==> !can_carve(
                            #[trigger] old(self).memory@[i],
                            size,
                        )
                },
                Some(a) => carved(old(self).memory@, final(self).memory@, size, a.0),
            },
    {
        let ghost s = self.memory@;
        let mut i: usize = 0;
        while i < self.memory.len
            invariant
                self.wf(),
                *self == *old(self),
                s == self.memory@,
                i <= self.memory.len,
                forall|j: int| 0 <= j < i ==> !can_carve(#[trigger] s[j], size),
            decreases self.memory.len - i,
        {
            let m: MemBlockRegion = *self.memory.get(i);
            if m.size >= size {
                let top: u64 = m.base.0 + m.size - size;
                let addr: u64 = top - top % PAGE_SIZE;
                if addr >= m.base.0 {
                    let cut: u64 = m.base.0 + m.size - addr;
                    proof {
                        lemma_detach_tail_wf(s, i as int, cut);
                    }
                    self.memory.detach_tail(i, cut);
                    assert(can_carve(s[i as int], size));
                    return Some(PhysicalAddr(addr));
                }
            }
            i = i + 1;
        }
        None
    }

    /// Hands out every region of `memory`, lowest first, and keeps none: whoever takes
    /// them owns that memory from then on.
    pub fn free_all(&mut self) -> (regions: Vec<MemBlockRegion>)
        requires
            old(self).wf(),
        ensures
            regions@ == old(self).memory@,
            final(self).memory@ == Seq::<MemBlockRegion>::empty(),
            final(self).reserved@ == old(self).reserved@,
            final(self).wf(),
    {
        let mut regions: Vec<MemBlockRegion> = Vec::new();
        let mut i: usize = 0;
        while i < self.memory.len
            invariant
                *self == *old(self),
                self.wf(),
                i <= self.memory.len,
                regions@ == self.memory@.subrange(0, i as int),
            decreases self.memory.len - i,
        {
            let m: MemBlockRegion = *self.memory.get(i);
            regions.push(m);
            assert(regions@ =~= self.memory@.subrange(0, i + 1));
            i = i + 1;
        }
        assert(regions@ =~= self.memory@);
        self.memory.len = 0;
        assert(self.memory@ =~= Seq::<MemBlockRegion>::empty());
        regions
    }
}

/// Trimming a region at its end keeps the array well formed and compact.
pub proof fn lemma_detach_tail_wf(s: Seq<MemBlockRegion>, pos: int, size: u64)
    requires
        regions_wf(s),
        0 <= pos < s.len(),
        size <= s[pos].size,
    ensures
        regions_wf(spec_detach_tail(s, pos, size)),
        regions_compact(s) ==> regions_compact(spec_detach_tail(s, pos, size)),
{
    let t = spec_detach_tail(s, pos, size);
    if size == s[pos].size {
        lemma_remove_wf(s, pos);
    } else {
        assert forall|i: int| 0 <= i < t.len() implies (#[trigger] t[i]).end() <= u64::MAX by {
            assert(s[i].end() <= u64::MAX);
        }
        assert forall|i: int, j: int| 0 <= i < j < t.len() implies (#[trigger] t[i]).base.0 < (
        #[trigger] t[j]).base.0 && t[i].end() <= t[j].base.0 by {
            assert(s[i].base.0 < s[j].base.0 && s[i].end() <= s[j].base.0);
        }
        if regions_compact(s) {
            assert forall|i: int| 0 <= i && i + 1 < t.len() implies (#[trigger] t[i]).end() < t[i
                + 1].base.0 by {
                assert(s[i].end() < s[i + 1].base.0);
            }
        }
    }
}

/// Trimming a region at its start keeps the array well formed and compact.
pub proof fn lemma_detach_head_wf(s: Seq<MemBlockRegion>, pos: int, size: u64)
    requires
        regions_wf(s),
        0 <= pos < s.len(),
        size <= s[pos].size,
    ensures
        regions_wf(spec_detach_head(s, pos, size)),
        regions_compact(s) ==> regions_compact(spec_detach_head(s, pos, size)),
{
    let t = spec_detach_head(s, pos, size);
    assert(s[pos].end() <= u64::MAX);
    if size == s[pos].size {
        lemma_remove_wf(s, pos);
    } else {
        assert forall|i: int| 0 <= i < t.len() implies (#[trigger] t[i]).end() <= u64::MAX by {
            assert(s[i].end() <= u64::MAX);
        }
        assert forall|i: int, j: int| 0 <= i < j < t.len() implies (#[trigger] t[i]).base.0 < (
        #[trigger] t[j]).base.0 && t[i].end() <= t[j].base.0 by {
            assert(s[i].base.0 < s[j].base.0 && s[i].end() <= s[j].base.0);
        }
        if regions_compact(s) {
            assert forall|i: int| 0 <= i && i + 1 < t.len() implies (#[trigger] t[i]).end() < t[i
                + 1].base.0 by {
                assert(s[i].end() < s[i + 1].base.0);
            }
        }
    }
}

/// Taking a region out keeps the array well formed and compact.
pub proof fn lemma_remove_wf(s: Seq<MemBlockRegion>, pos: int)
    requires
        regions_wf(s),
        0 <= pos < s.len(),
    ensures
        regions_wf(s.remove(pos)),
        regions_compact(s) ==> regions_compact(s.remove(pos)),
{
    let t = s.remove(pos);
    assert forall|i: int| 0 <= i < t.len() implies (#[trigger] t[i]).end() <= u64::MAX by {
        let si = if i < pos { i } else { i + 1 };
        assert(s[si].end() <= u64::MAX);
    }
    assert forall|i: int, j: int| 0 <= i < j < t.len() implies (#[trigger] t[i]).base.0 < (
    #[trigger] t[j]).base.0 && t[i].end() <= t[j].base.0 by {
        let si = if i < pos { i } else { i + 1 };
        let sj = if j < pos { j } else { j + 1 };
        assert(s[si].base.0 < s[sj].base.0 && s[si].end() <= s[sj].base.0);
    }
    if regions_compact(s) {
        assert forall|i: int| 0 <= i && i + 1 < t.len() implies (#[trigger] t[i]).end() < t[i
            + 1].base.0 by {
            if i + 1 < pos {
                assert(s[i].end() < s[i + 1].base.0);
            } else if i + 1 == pos {
                assert(s[i].end() < s[i + 1].base.0);
                assert(s[i + 1].base.0 < s[i + 2].base.0);
            } else {
                assert(s[i + 1].end() < s[i + 2].base.0);
            }
        }
    }
}

/// Cutting a block out of the inside of a region keeps the array well formed, and
/// compact where the block is not empty.
pub proof fn lemma_split_wf(s: Seq<MemBlockRegion>, r: MemBlockRegion, pos: int)
    requires
        regions_wf(s),
        0 < pos <= s.len(),
        s[pos - 1].base.0 < r.base.0,
        r.end() < s[pos - 1].end(),
        forall|i: int| pos <= i < s.len() ==> (#[trigger] s[i]).base.0 > r.base.0,
    ensures
        regions_wf(spec_split(s, r, pos)),
        regions_compact(s) && r.size > 0 ==> regions_compact(spec_split(s, r, pos)),
        spec_split(s, r, pos) == spec_detach_tail(
            s,
            pos - 1,
            (s[pos - 1].end() - r.base.0) as u64,
        ).insert(
            pos,
            MemBlockRegion {
                base: PhysicalAddr(r.end() as u64),
                size: (s[pos - 1].end() - r.end()) as u64,
            },
        ),
{
    let t = spec_split(s, r, pos);
    assert(s[pos - 1].end() <= u64::MAX);
    assert(t.len() == s.len() + 1);
    assert forall|i: int| 0 <= i < t.len() implies (#[trigger] t[i]).end() <= u64::MAX by {
        let si = if i < pos { i } else { i - 1 };
        assert(s[si].end() <= u64::MAX);
    }
    assert forall|i: int, j: int| 0 <= i < j < t.len() implies (#[trigger] t[i]).base.0 < (
    #[trigger] t[j]).base.0 && t[i].end() <= t[j].base.0 by {
        let si = if i < pos { i } else { i - 1 };
        let sj = if j < pos { j } else { j - 1 };
        if si < sj {
            assert(s[si].base.0 < s[sj].base.0 && s[si].end() <= s[sj].base.0);
        }
    }
    if regions_compact(s) && r.size > 0 {
        assert forall|i: int| 0 <= i && i + 1 < t.len() implies (#[trigger] t[i]).end() < t[i
            + 1].base.0 by {
            if i + 1 < pos {
                assert(s[i].end() < s[i + 1].base.0);
            } else if i >= pos {
                assert(s[i - 1].end() < s[i].base.0);
            }
        }
    }
}

/// The regions after `r` was cut out of the inside of region `pos - 1`.
pub open spec fn spec_split(s: Seq<MemBlockRegion>, r: MemBlockRegion, pos: int) -> Seq<
    MemBlockRegion,
> {
    s.update(
        pos - 1,
        MemBlockRegion { base: s[pos - 1].base, size: (r.base.0 - s[pos - 1].base.0) as u64 },
    ).insert(
        pos,
        MemBlockRegion {
            base: PhysicalAddr(r.end() as u64),
            size: (s[pos - 1].end() - r.end()) as u64,
        },
    )
}

/// Every region holds a byte.
pub open spec fn regions_positive(s: Seq<MemBlockRegion>) -> bool {
    forall|i: int| 0 <= i < s.len() ==> (#[trigger] s[i]).size > 0
}

/// Whether byte address `x` lies in a region of `s`.
pub open spec fn covers(s: Seq<MemBlockRegion>, x: int) -> bool {
    exists|i: int| 0 <= i < s.len() && (#[trigger] s[i]).base.0 <= x < s[i].end()
}

/// `r` shares no byte with a region of `s`.
pub open spec fn apart(s: Seq<MemBlockRegion>, r: MemBlockRegion) -> bool {
    forall|i: int|
        0 <= i < s.len() ==> (#[trigger] s[i]).end() <= r.base.0 || r.end() <= s[i].base.0
}

/// In a sorted array the regions before `spec_pos` start below `base` and the others do
/// not.
pub proof fn lemma_pos_splits(s: Seq<MemBlockRegion>, base: u64)
    requires
        regions_wf(s),
    ensures
        0 <= spec_pos(s, base) <= s.len(),
        forall|i: int| 0 <= i < spec_pos(s, base) ==> (#[trigger] s[i]).base.0 < base,
        forall|i: int| spec_pos(s, base) <= i < s.len() ==> (#[trigger] s[i]).base.0 >= base,
    decreases s.len(),
{
    if s.len() > 0 {
        let t = s.drop_last();
        assert forall|i: int| 0 <= i < t.len() implies t[i] == s[i] by {}
        assert(regions_wf(t)) by {
            assert forall|i: int, j: int| 0 <= i < j < t.len() implies (#[trigger] t[i]).base.0 < (
            #[trigger] t[j]).base.0 && t[i].end() <= t[j].base.0 by {
                assert(s[i].base.0 < s[j].base.0 && s[i].end() <= s[j].base.0);
            }
            assert forall|i: int| 0 <= i < t.len() implies (#[trigger] t[i]).end() <= u64::MAX by {
                assert(s[i].end() <= u64::MAX);
            }
        }
        lemma_pos_splits(t, base);
        let p = spec_pos(t, base);
        assert(s.last() == s[s.len() - 1]);
        if s.last().base.0 < base {
            if p < t.len() {
                assert(t[p].base.0 >= base);
                assert(s[p].base.0 < s[s.len() - 1].base.0);
            }
        }
    }
}

/// A region that shares no byte with the regions of a sorted array fits at its place.
pub proof fn lemma_apart_fits(s: Seq<MemBlockRegion>, r: MemBlockRegion)
    requires
        regions_wf(s),
        regions_positive(s),
        r.size > 0,
        apart(s, r),
    ensures
        fits_at(s, r, spec_pos(s, r.base.0)),
        no_conflict(s, r),
{
    lemma_pos_splits(s, r.base.0);
    let pos = spec_pos(s, r.base.0);
    assert forall|i: int| 0 <= i < pos implies (#[trigger] s[i]).base.0 < r.base.0 && s[i].end()
        <= r.base.0 by {
        assert(s[i].size > 0);
    }
    assert forall|i: int| pos <= i < s.len() implies (#[trigger] s[i]).base.0 > r.base.0
        && s[i].base.0 >= r.end() by {
        assert(s[i].size > 0);
        assert(s[i].base.0 >= r.base.0);
    }
    assert forall|i: int| 0 <= i < s.len() implies !(#[trigger] s[i]).conflicts(r) by {
        assert(s[i].size > 0);
    }
}

/// Inserting a region where it fits adds its bytes to those of the array and no others.
#[verifier::spinoff_prover]
#[verifier::rlimit(60)]
pub proof fn lemma_insert_covers(s: Seq<MemBlockRegion>, r: MemBlockRegion, pos: int)
    requires
        regions_wf(s),
        r.end() <= u64::MAX,
        fits_at(s, r, pos),
    ensures
        forall|x: int|
            covers(spec_insert(s, r, pos), x) <==> (covers(s, x) || r.base.0 <= x < r.end()),
        regions_positive(s) && r.size > 0 ==> regions_positive(spec_insert(s, r, pos)),
{
    lemma_insert_wf(s, r, pos);
    let t = spec_insert(s, r, pos);
    let left = pos != 0 && s[pos - 1].end() == r.base.0;
    let right = pos < s.len() && r.end() == s[pos].base.0;
    // the region of `s` that region `j` of `t` comes from, and the other way round
    let from = |j: int|
        if left && right {
            if j < pos {
                j
            } else {
                j + 1
            }
        } else if left || right {
            j
        } else if j <= pos {
            j
        } else {
            j - 1
        };
    let to = |i: int|
        if left && right {
            if i < pos {
                i
            } else {
                i - 1
            }
        } else if left || right {
            i
        } else if i < pos {
            i
        } else {
            i + 1
        };
    let mid = if left {
        pos - 1
    } else {
        pos
    };
    assert forall|x: int| covers(t, x) implies covers(s, x) || r.base.0 <= x < r.end() by {
        let j = choose|j: int| 0 <= j < t.len() && (#[trigger] t[j]).base.0 <= x < t[j].end();
        if j == mid {
            if left {
                if !(r.base.0 <= x < r.end()) {
                    if x < r.base.0 {
                        assert(s[pos - 1].base.0 <= x < s[pos - 1].end());
                    } else {
                        assert(s[pos].base.0 <= x < s[pos].end());
                    }
                }
            } else if right {
                if !(r.base.0 <= x < r.end()) {
                    assert(s[pos].base.0 <= x < s[pos].end());
                }
            }
        } else {
            let i = from(j);
            assert(t[j] == s[i]);
            assert(s[i].base.0 <= x < s[i].end());
        }
    }
    assert forall|x: int| covers(s, x) || r.base.0 <= x < r.end() implies covers(t, x) by {
        if r.base.0 <= x < r.end() {
            assert(t[mid].base.0 <= x < t[mid].end());
        } else {
            let i = choose|i: int| 0 <= i < s.len() && (#[trigger] s[i]).base.0 <= x < s[i].end();
            if (left && i == pos - 1) || (right && i == pos) {
                assert(t[mid].base.0 <= x < t[mid].end());
            } else {
                let j = to(i);
                assert(t[j] == s[i]);
                assert(t[j].base.0 <= x < t[j].end());
            }
        }
    }
    if regions_positive(s) && r.size > 0 {
        assert forall|j: int| 0 <= j < t.len() implies (#[trigger] t[j]).size > 0 by {
            if j != mid {
                let i = from(j);
                assert(t[j] == s[i]);
                assert(s[i].size > 0);
            } else if left {
                assert(s[pos - 1].size > 0);
            }
        }
    }
}

impl<const N: usize, const M: usize> MemBlock<N, M> {
    /// Adding a block that shares no byte with what is known keeps both arrays sorted,
    /// with no two regions that overlap or touch, adds the bytes of the block to
    /// `memory` and no others, and leaves `reserved` alone.
    pub proof fn lemma_add_order(&self, base: PhysicalAddr, size: u64)
        requires
            self.wf(),
            self.compact(),
            regions_positive(self.memory@),
            regions_positive(self.reserved@),
            size > 0,
            base.0 + size <= u64::MAX,
            apart(self.memory@, MemBlockRegion { base, size }),
            apart(self.reserved@, MemBlockRegion { base, size }),
            self.memory.len < N,
        ensures
            self.spec_can_add(MemBlockRegion { base, size }),
            ({
                let t = spec_insert(
                    self.memory@,
                    MemBlockRegion { base, size },
                    spec_pos(self.memory@, base.0),
                );
                &&& regions_wf(t)
                &&& regions_compact(t)
                &&& regions_positive(t)
                &&& forall|x: int|
                    covers(t, x) <==> (covers(self.memory@, x) || base.0 <= x < base.0 + size)
            }),
    {
        let r = MemBlockRegion { base, size };
        lemma_apart_fits(self.memory@, r);
        lemma_apart_fits(self.reserved@, r);
        lemma_insert_wf(self.memory@, r, spec_pos(self.memory@, base.0));
        lemma_insert_covers(self.memory@, r, spec_pos(self.memory@, base.0));
    }
}

/// Reserving a block that lies in one region of a sorted array takes its bytes, and no
/// others, out of the array, which stays sorted, with no two regions that overlap or
/// touch, and gets one region less, as many, or one more.
#[verifier::spinoff_prover]
#[verifier::rlimit(60)]
pub proof fn lemma_reserve_covers(s: Seq<MemBlockRegion>, r: MemBlockRegion, k: int)
    requires
        regions_wf(s),
        regions_positive(s),
        r.size > 0,
        0 <= k < s.len(),
        s[k].base.0 <= r.base.0,
        r.end() <= s[k].end(),
    ensures
        starts_in_memory(s, r),
        regions_wf(spec_reserve(s, r)),
        regions_compact(s) ==> regions_compact(spec_reserve(s, r)),
        regions_positive(spec_reserve(s, r)),
        forall|x: int|
            covers(spec_reserve(s, r), x) <==> (covers(s, x) && !(r.base.0 <= x < r.end())),
        spec_reserve(s, r).len() == s.len() + (if s[k].base.0 == r.base.0 {
            if r.end() == s[k].end() {
                -1int
            } else {
                0int
            }
        } else if r.end() == s[k].end() {
            0int
        } else {
            1int
        }),
        spec_pos(s, r.base.0) == (if s[k].base.0 == r.base.0 {
            k
        } else {
            k + 1
        }),
{
    let pos = if s[k].base.0 == r.base.0 {
        k
    } else {
        k + 1
    };
    assert forall|i: int| 0 <= i < pos implies (#[trigger] s[i]).base.0 < r.base.0 by {
        if i < k {
            assert(s[i].base.0 < s[k].base.0);
        }
    }
    assert forall|i: int| pos <= i < s.len() implies (#[trigger] s[i]).base.0 >= r.base.0 by {
        if i > k {
            assert(s[k].end() <= s[i].base.0);
        }
    }
    lemma_spec_pos(s, r.base.0, pos);
    let t = spec_reserve(s, r);
    let whole = s[k].base.0 == r.base.0 && r.end() == s[k].end();
    let split = s[k].base.0 != r.base.0 && r.end() != s[k].end();
    if s[k].base.0 == r.base.0 {
        lemma_detach_head_wf(s, k, r.size);
    } else if r.end() == s[k].end() {
        lemma_detach_tail_wf(s, k, r.size);
    } else {
        assert forall|i: int| k + 1 <= i < s.len() implies (#[trigger] s[i]).base.0 > r.base.0 by {
            assert(s[k].end() <= s[i].base.0);
        }
        lemma_split_wf(s, r, k + 1);
        assert(t == spec_split(s, r, k + 1));
    }
    // the region of `s` that region `j` of `t` comes from, and the other way round
    let from = |j: int|
        if whole {
            if j < k {
                j
            } else {
                j + 1
            }
        } else if split {
            if j <= k {
                j
            } else {
                j - 1
            }
        } else {
            j
        };
    let to = |i: int|
        if whole {
            if i < k {
                i
            } else {
                i - 1
            }
        } else if split {
            if i <= k {
                i
            } else {
                i + 1
            }
        } else {
            i
        };
    assert forall|j: int| 0 <= j < t.len() implies 0 <= from(j) < s.len() && (from(j) != k
        ==> #[trigger] t[j] == s[from(j)]) && (from(j) == k ==> s[k].base.0 <= t[j].base.0
        && t[j].end() <= s[k].end() && t[j].size > 0 && (t[j].end() <= r.base.0 || r.end()
        <= t[j].base.0)) by {}
    assert forall|x: int| covers(t, x) implies covers(s, x) && !(r.base.0 <= x < r.end()) by {
        let j = choose|j: int| 0 <= j < t.len() && (#[trigger] t[j]).base.0 <= x < t[j].end();
        let i = from(j);
        assert(t[j].size >= 0);
        assert(s[i].base.0 <= x < s[i].end());
        if i != k {
            assert(s[i].size > 0);
            if i < k {
                assert(s[i].end() <= s[k].base.0);
            } else {
                assert(s[k].end() <= s[i].base.0);
            }
        }
    }
    assert forall|x: int| covers(s, x) && !(r.base.0 <= x < r.end()) implies covers(t, x) by {
        let i = choose|i: int| 0 <= i < s.len() && (#[trigger] s[i]).base.0 <= x < s[i].end();
        if i != k {
            let j = to(i);
            assert(t[j] == s[i]);
            assert(t[j].base.0 <= x < t[j].end());
        } else if x < r.base.0 {
            assert(t[k].base.0 <= x < t[k].end());
        } else if split {
            assert(t[k + 1].base.0 <= x < t[k + 1].end());
        } else {
            assert(t[k].base.0 <= x < t[k].end());
        }
    }
    assert forall|j: int| 0 <= j < t.len() implies (#[trigger] t[j]).size > 0 by {
        if from(j) != k {
            assert(s[from(j)].size > 0);
        }
    }
}

impl<const N: usize, const M: usize> MemBlock<N, M> {
    /// Reserving a block that lies in one region of memory, region `k`, keeps both arrays
    /// sorted, with no two regions that overlap or touch, takes the bytes of the block
    /// out of `memory` and no others, and leaves `reserved` alone. A block that lies
    /// strictly inside the region splits it and takes a slot, which has to be free.
    pub proof fn lemma_reserve_order(&self, base: PhysicalAddr, size: u64, k: int)
        requires
            self.wf(),
            self.compact(),
            regions_positive(self.memory@),
            size > 0,
            0 <= k < self.memory@.len(),
            self.memory@[k].base.0 <= base.0,
            base.0 + size <= self.memory@[k].end(),
            self.memory@[k].base.0 < base.0 && base.0 + size < self.memory@[k].end()
                ==> self.memory.len < N,
        ensures
            self.spec_can_reserve(MemBlockRegion { base, size }),
            starts_in_memory(self.memory@, MemBlockRegion { base, size }),
            ({
                let t = spec_reserve(self.memory@, MemBlockRegion { base, size });
                &&& regions_wf(t)
                &&& regions_compact(t)
                &&& regions_positive(t)
                &&& forall|x: int|
                    covers(t, x) <==> (covers(self.memory@, x) && !(base.0 <= x < base.0 + size))
                &&& self.memory@.len() - 1 <= t.len() <= self.memory@.len() + 1
            }),
    {
        let r = MemBlockRegion { base, size };
        assert(self.memory@[k].end() <= u64::MAX);
        assert(self.memory@.len() == self.memory.len);
        lemma_reserve_covers(self.memory@, r, k);
    }
}

} // verus!
