//! The Sv39 page table: three levels of 512 entries each.
//!
//! The root stands in the `PageTable` itself. The tables of the two levels
//! below are pages of memory that come from the buddy allocator.

use vstd::prelude::*;

use super::pte::{lemma_word, table_addr, Flags, MAX_PPN, PTE};
use super::{lemma_sv39_powers, set_bits};
use crate::mm::buddy::buddy::{frame_addr, frame_run_ok, lemma_frame_run, lemma_run_bytes, run_bytes, total_frames, Buddy};
use crate::mm::memory::Memory;
use crate::mm::{PageFrame, PhysicalAddr, VirtualAddr, PAGE_OFF};
use crate::sync::Spin;

verus! {

/// The entries of one table.
pub const NPTE: usize = 512;

/// The virtual page numbers that one table tree tells apart: 27 bits.
pub const SLOTS: u64 = 0x800_0000;

/// The index at level 2 of slot `s`.
pub open spec fn l2_of(s: int) -> int {
    s / 0x4_0000
}

/// The index at level 1 of slot `s`.
pub open spec fn l1_of(s: int) -> int {
    s / 512 % 512
}

/// The index at level 0 of slot `s`.
pub open spec fn l0_of(s: int) -> int {
    s % 512
}

/// The slot of a virtual page number: its low 27 bits.
pub open spec fn slot_of(vpn: u64) -> int {
    (vpn % SLOTS) as int
}

/// The address of entry `idx` of the table in frame `f`.
pub open spec fn entry_addr(f: u64, idx: int) -> u64 {
    (f * 4096 + PAGE_OFF + 8 * idx) as u64
}

/// Entry `idx` of the table in frame `f`.
pub open spec fn entry_at(mem: &Memory, f: u64, idx: int) -> PTE {
    PTE(mem.word(entry_addr(f, idx)))
}

/// Whether byte address `x` lies in the page of frame `f`.
pub open spec fn in_page(f: u64, x: int) -> bool {
    f * 4096 + PAGE_OFF <= x < f * 4096 + PAGE_OFF + 4096
}

/// A page table: the root and, for the proofs, which frame serves as which table.
/// `dirs` maps the frame of each table to its place: `(l2, -1)` for the table that
/// root entry `l2` points to, `(l2, l1)` for the one that entry `l1` of that table
/// points to.
pub struct PageTable {
    pub entries: [PTE; 512],
    pub dirs: Ghost<Map<u64, (int, int)>>,
}

impl PageTable {
    /// Entry `l1` of the level-1 table under root entry `l2`.
    pub open spec fn l1_entry(&self, mem: &Memory, l2: int, l1: int) -> PTE {
        entry_at(mem, self.entries@[l2].spec_ppn(), l1)
    }

    /// Entry `l0` of the level-0 table under entry `l1` under root entry `l2`.
    pub open spec fn l0_entry(&self, mem: &Memory, l2: int, l1: int, l0: int) -> PTE {
        entry_at(mem, self.l1_entry(mem, l2, l1).spec_ppn(), l0)
    }

    /// The level-0 entry of slot `s`, where the tables on the way to it exist.
    pub open spec fn lookup(&self, mem: &Memory, s: int) -> Option<PTE> {
        if self.entries@[l2_of(s)].spec_dir() && self.l1_entry(mem, l2_of(s), l1_of(s)).spec_dir() {
            Some(self.l0_entry(mem, l2_of(s), l1_of(s), l0_of(s)))
        } else {
            None
        }
    }

    /// Whether the tree holds the level-1 table on the way to slot `s`.
    pub open spec fn has_l1(&self, s: int) -> bool {
        self.entries@[l2_of(s)].spec_dir()
    }

    /// Whether the tree holds both tables on the way to slot `s`.
    pub open spec fn has_l0(&self, mem: &Memory, s: int) -> bool {
        self.lookup(mem, s) is Some
    }

    /// What slot `s` is mapped by: its level-0 entry, where there is one and V is set.
    pub open spec fn mapping(&self, mem: &Memory, s: int) -> Option<PTE> {
        match self.lookup(mem, s) {
            Some(e) => if e.spec_valid() {
                Some(e)
            } else {
                None
            },
            None => None,
        }
    }

    /// The translation that the tree stands for: each mapped slot with its entry.
    pub open spec fn interp(&self, mem: &Memory) -> Map<int, PTE> {
        Map::new(
            |s: int| 0 <= s < SLOTS && self.mapping(mem, s) is Some,
            |s: int| self.mapping(mem, s).unwrap(),
        )
    }

    /// Whether byte address `x` lies in a table of this tree.
    pub open spec fn owns(&self, x: int) -> bool {
        exists|f: u64| #[trigger] self.dirs@.contains_key(f) && in_page(f, x)
    }

    /// Every valid entry of the two upper levels points to a table, each table is a
    /// page of `mem`, and no frame serves as two tables.
    pub open spec fn wf(&self, mem: &Memory) -> bool {
        &&& mem.wf()
        &&& forall|l2: int|
            0 <= l2 < 512 && (#[trigger] self.entries@[l2]).spec_valid() ==> {
                &&& self.entries@[l2].spec_dir()
                &&& self.dirs@.contains_key(self.entries@[l2].spec_ppn())
                &&& self.dirs@[self.entries@[l2].spec_ppn()] == (l2, -1int)
            }
        &&& forall|l2: int, l1: int|
            0 <= l2 < 512 && 0 <= l1 < 512 && self.entries@[l2].spec_valid() && (
            #[trigger] self.l1_entry(mem, l2, l1)).spec_valid() ==> {
                &&& self.l1_entry(mem, l2, l1).spec_dir()
                &&& self.dirs@.contains_key(self.l1_entry(mem, l2, l1).spec_ppn())
                &&& self.dirs@[self.l1_entry(mem, l2, l1).spec_ppn()] == (l2, l1)
            }
        &&& forall|f: u64| #[trigger] self.dirs@.contains_key(f) ==> frame_run_ok(mem, f, 0)
    }

    /// Every mapped slot is mapped by a leaf: an entry with one of R, W and X.
    pub open spec fn leaves_ok(&self, mem: &Memory) -> bool {
        forall|s: int|
            0 <= s < SLOTS && (#[trigger] self.mapping(mem, s)) is Some ==> self.mapping(
                mem,
                s,
            ).unwrap().spec_leaf()
    }

    /// No table of this tree lies in memory that `buddy` holds as free.
    pub open spec fn clear_of<const ORDER: usize>(&self, buddy: &Buddy<ORDER>) -> bool {
        forall|x: int| self.owns(x) ==> !buddy.is_free(x)
    }

    /// The tree stays as it is when memory changes outside of its tables.
    pub proof fn lemma_frame(&self, m1: &Memory, m2: &Memory)
        requires
            self.wf(m1),
            m2.wf(),
            m2.same_shape(m1),
            forall|x: u64| m1.contains(x) && self.owns(x as int) ==> m2.word(x) == m1.word(x),
        ensures
            self.wf(m2),
            forall|s: int| 0 <= s < SLOTS ==> self.lookup(m2, s) == self.lookup(m1, s),
            forall|l2: int, l1: int|
                0 <= l2 < 512 && 0 <= l1 < 512 && self.entries@[l2].spec_valid()
                    ==> #[trigger] self.l1_entry(m2, l2, l1) == self.l1_entry(m1, l2, l1),
    {
        assert forall|f: u64, i: int|
            self.dirs@.contains_key(f) && 0 <= i < 512 implies #[trigger] entry_at(m2, f, i)
            == entry_at(m1, f, i) by {
            lemma_entry_addr(m1, f, i);
            assert(in_page(f, entry_addr(f, i) as int));
        }
        assert forall|l2: int, l1: int|
            0 <= l2 < 512 && 0 <= l1 < 512 && self.entries@[l2].spec_valid()
            implies #[trigger] self.l1_entry(m2, l2, l1) == self.l1_entry(m1, l2, l1) by {
            assert(entry_at(m2, self.entries@[l2].spec_ppn(), l1) == entry_at(
                m1,
                self.entries@[l2].spec_ppn(),
                l1,
            ));
        }
        assert forall|s: int| 0 <= s < SLOTS implies self.lookup(m2, s) == self.lookup(m1, s) by {
            let l2 = l2_of(s);
            let l1 = l1_of(s);
            if self.entries@[l2].spec_dir() {
                assert(self.l1_entry(m2, l2, l1) == self.l1_entry(m1, l2, l1));
                if self.l1_entry(m1, l2, l1).spec_dir() {
                    assert(entry_at(m2, self.l1_entry(m1, l2, l1).spec_ppn(), l0_of(s))
                        == entry_at(m1, self.l1_entry(m1, l2, l1).spec_ppn(), l0_of(s)));
                }
            }
        }
        assert forall|f: u64| #[trigger] self.dirs@.contains_key(f) implies frame_run_ok(
            m2,
            f,
            0,
        ) by {
            assert(frame_run_ok(m1, f, 0));
        }
    }

    /// A table without entries, for a global that is filled in later.
    pub fn new_zeroed() -> (r: Self)
        ensures
            forall|i: int| 0 <= i < 512 ==> r.entries@[i].0 == 0,
            r.dirs@ == Map::<u64, (int, int)>::empty(),
            forall|mem: &Memory| mem.wf() ==> r.wf(mem),
            forall|mem: &Memory, s: int| 0 <= s < SLOTS ==> r.mapping(mem, s) is None,
    {
        let r = PageTable {
            entries: vstd::array::array_fill_for_copy_types(PTE::new_zeroed()),
            dirs: Ghost(Map::empty()),
        };
        assert forall|mem: &Memory, s: int| 0 <= s < SLOTS implies r.mapping(mem, s) is None by {
            assert(r.entries@[l2_of(s)].0 == 0);
        }
        r
    }

    /// Allocates a page for a table, zeroes it, and returns the entry that points to it:
    /// V and no other flag. `None`, with nothing changed, where `buddy` has no frame.
    pub fn alloc_dir<const ORDER: usize>(
        buddy: &mut Spin<Buddy<ORDER>>,
        hart: usize,
        mem: &mut Memory,
    ) -> (r: Option<PTE>)
        requires
            old(buddy).free(),
            hart <= isize::MAX,
            old(buddy).data.wf(old(mem)),
        ensures
            final(buddy).free(),
            r is Some <==> total_frames(old(buddy).data@) > 0,
            r is None ==> *final(mem) == *old(mem) && *final(buddy) == *old(buddy),
            r matches Some(e) ==> dir_allocated(
                &old(buddy).data,
                old(mem),
                &final(buddy).data,
                final(mem),
                e,
            ),
    {
        proof {
            lemma_total_empty(buddy.data@);
            assert forall|k: int| 0 <= k < buddy.data@.len() implies buddy.data@[k] == buddy.data.level(k) by {}
        }
        let page: PageFrame = match crate::mm::allocator::alloc_pages(buddy, mem, hart, 0) {
            Some(p) => p,
            None => {
                return None;
            },
        };
        let ghost f: u64 = page.0;
        let ghost mem1 = *mem;
        proof {
            lemma_frame_run(mem, f, 0);
            lemma_run_bytes(0);
            vstd::arithmetic::power2::lemma2_to64();
        }
        let base: u64 = page.0 * 4096 + PAGE_OFF;
        let mut i: u64 = 0;
        while i < 512
            invariant
                buddy.free(),
                hart <= isize::MAX,
                i <= 512,
                f == page.0,
                base == f * 4096 + PAGE_OFF,
                mem.wf(),
                mem.same_shape(&mem1),
                frame_run_ok(mem, f, 0),
                forall|k: int| 0 <= k < i ==> (#[trigger] entry_at(mem, f, k)).0 == 0,
                forall|x: u64|
                    mem1.contains(x) && !in_page(f, x as int) ==> mem.word(x) == mem1.word(x),
            decreases 512 - i,
        {
            proof {
                lemma_entry_addr(mem, f, i as int);
            }
            let ghost mem2 = *mem;
            mem.write(VirtualAddr(base + 8 * i), 0);
            proof {
                assert forall|k: int| 0 <= k < i + 1 implies (#[trigger] entry_at(mem, f, k)).0
                    == 0 by {
                    lemma_entry_addr(&mem2, f, k);
                    if k < i {
                        assert(entry_at(&mem2, f, k).0 == 0);
                    }
                }
                assert forall|x: u64| mem1.contains(x) && !in_page(f, x as int) implies mem.word(x)
                    == mem1.word(x) by {
                    assert(mem2.contains(x));
                }
            }
            i = i + 1;
        }
        let e: PTE = PTE::new(Some(page), Flags(Flags::VALID));
        proof {
            assert forall|x: u64| mem1.contains(x) && buddy.data.is_free(x as int) implies mem.word(x)
                == mem1.word(x) by {}
            buddy.data.lemma_wf_frame(&mem1, mem);
            assert(1u8 | 1u8 == 1u8 && 1u8 & 0x0eu8 == 0u8) by (bit_vector);
            assert forall|x: u64|
                old(mem).contains(x) && !old(buddy).data.is_free(x as int) implies mem.word(x) == old(
                mem,
            ).word(x) by {
                assert(mem1.contains(x));
                assert(!in_page(f, x as int));
            }
            reveal(dir_allocated);
        }
        Some(e)
    }

    /// The table under root entry `l2`, which is allocated, zeroed and linked in where
    /// it is missing. `None`, with nothing changed, where the allocator has no frame.
    pub fn ensure_l1<const ORDER: usize>(
        &mut self,
        mem: &mut Memory,
        buddy: &mut Spin<Buddy<ORDER>>,
        hart: usize,
        l2: usize,
    ) -> (r: Option<VirtualAddr>)
        requires
            old(buddy).free(),
            hart <= isize::MAX,
            old(self).wf(old(mem)),
            old(buddy).data.wf(old(mem)),
            old(self).clear_of(&old(buddy).data),
            l2 < 512,
        ensures
            final(buddy).free(),
            grows(old(self), old(mem), &old(buddy).data, final(self), final(mem), &final(buddy).data, 1),
            same_mapping(old(self), old(mem), final(self), final(mem)),
            r matches Some(t) ==> final(self).entries@[l2 as int].spec_dir() && t.0
                == final(self).entries@[l2 as int].spec_ppn() * 4096 + PAGE_OFF,
            r is None ==> total_frames(final(buddy).data@) == 0,
            old(self).entries@[l2 as int].spec_dir() || total_frames(old(buddy).data@) >= 1 <==> r is Some,
            old(self).entries@[l2 as int].spec_dir() ==> *final(self) == *old(self) && *final(mem)
                == *old(mem) && *final(buddy) == *old(buddy),
            !old(self).entries@[l2 as int].spec_dir() && r is Some ==> total_frames(final(buddy).data@)
                == total_frames(old(buddy).data@) - 1 && forall|l1: int|
                0 <= l1 < 512 ==> (#[trigger] final(self).l1_entry(final(mem), l2 as int, l1)).0
                    == 0,
            r is None ==> *final(buddy) == *old(buddy) && *final(self) == *old(self) && *final(mem)
                == *old(mem),
            forall|s: int|
                0 <= s < SLOTS ==> #[trigger] final(self).has_l0(final(mem), s) == old(self).has_l0(
                    old(mem),
                    s,
                ),
            forall|k: int|
                0 <= k < 512 && k != l2 ==> final(self).entries@[k] == old(self).entries@[k],
    {
        let e2: PTE = self.entries[l2];
        match e2.next_level() {
            Some(va) => {
                proof {
                    lemma_grows_refl(self, mem, &buddy.data);
                    lemma_table(self, mem, e2.spec_ppn());
                }
                Some(va)
            },
            None => {
                match Self::alloc_dir(buddy, hart, mem) {
                    None => {
                        proof {
                            lemma_grows_refl(self, mem, &buddy.data);
                            lemma_total_empty(buddy.data@);
                        }
                        None
                    },
                    Some(new_pte) => {
                        self.entries[l2] = new_pte;
                        self.dirs = Ghost(
                            self.dirs@.insert(new_pte.spec_ppn(), (l2 as int, -1int)),
                        );
                        proof {
                            lemma_root_grows(
                                old(self),
                                old(mem),
                                &old(buddy).data,
                                self,
                                mem,
                                &buddy.data,
                                l2 as int,
                                new_pte,
                            );
                        }
                        new_pte.next_level()
                    },
                }
            },
        }
    }

    /// The table under entry `l1` of the table under root entry `l2`, which is
    /// allocated, zeroed and linked in where it is missing. `None`, with nothing
    /// changed, where the allocator has no frame.
    pub fn ensure_l0<const ORDER: usize>(
        &mut self,
        mem: &mut Memory,
        buddy: &mut Spin<Buddy<ORDER>>,
        hart: usize,
        l2: usize,
        l1: usize,
    ) -> (r: Option<VirtualAddr>)
        requires
            old(buddy).free(),
            hart <= isize::MAX,
            old(self).wf(old(mem)),
            old(buddy).data.wf(old(mem)),
            old(self).clear_of(&old(buddy).data),
            l2 < 512,
            l1 < 512,
            old(self).entries@[l2 as int].spec_dir(),
        ensures
            final(buddy).free(),
            grows(old(self), old(mem), &old(buddy).data, final(self), final(mem), &final(buddy).data, 1),
            same_mapping(old(self), old(mem), final(self), final(mem)),
            final(self).entries@ == old(self).entries@,
            r matches Some(t) ==> final(self).l1_entry(final(mem), l2 as int, l1 as int).spec_dir()
                && t.0 == final(self).l1_entry(final(mem), l2 as int, l1 as int).spec_ppn() * 4096
                + PAGE_OFF,
            r is None ==> total_frames(final(buddy).data@) == 0,
            old(self).l1_entry(old(mem), l2 as int, l1 as int).spec_dir() || total_frames(
                old(buddy).data@,
            ) >= 1 <==> r is Some,
            old(self).l1_entry(old(mem), l2 as int, l1 as int).spec_dir() ==> *final(self) == *old(
                self,
            ) && *final(mem) == *old(mem) && *final(buddy) == *old(buddy),
            r is None ==> *final(buddy) == *old(buddy) && *final(self) == *old(self) && *final(mem)
                == *old(mem),
            !old(self).l1_entry(old(mem), l2 as int, l1 as int).spec_dir() && r is Some
                ==> total_frames(final(buddy).data@) == total_frames(old(buddy).data@) - 1,
            forall|s: int|
                0 <= s < SLOTS ==> #[trigger] final(self).has_l0(final(mem), s) == (old(
                    self,
                ).has_l0(old(mem), s) || (r is Some && l2_of(s) == l2 && l1_of(s) == l1)),
    {
        let ghost f1: u64 = self.entries@[l2 as int].spec_ppn();
        proof {
            lemma_table(self, mem, f1);
            lemma_entry_addr(mem, f1, l1 as int);
        }
        let t1: u64 = self.entries[l2].get_page_frame_unchecked().0 * 4096 + PAGE_OFF;
        let slot1: VirtualAddr = VirtualAddr(t1 + 8 * (l1 as u64));
        let e1: PTE = PTE(mem.read(slot1));
        match e1.next_level() {
            Some(va) => {
                proof {
                    lemma_grows_refl(self, mem, &buddy.data);
                    lemma_table_l1(self, mem, l2 as int, l1 as int);
                }
                Some(va)
            },
            None => {
                match Self::alloc_dir(buddy, hart, mem) {
                    None => {
                        proof {
                            lemma_grows_refl(self, mem, &buddy.data);
                            lemma_total_empty(buddy.data@);
                        }
                        None
                    },
                    Some(new_pte) => {
                        let ghost m1 = *mem;
                        proof {
                            lemma_allocated_shape(&old(buddy).data, old(mem), &buddy.data, mem, new_pte);
                        }
                        mem.write(slot1, new_pte.0);
                        self.dirs = Ghost(
                            self.dirs@.insert(new_pte.spec_ppn(), (l2 as int, l1 as int)),
                        );
                        proof {
                            lemma_l1_grows(
                                old(self),
                                old(mem),
                                &old(buddy).data,
                                self,
                                &m1,
                                mem,
                                &buddy.data,
                                l2 as int,
                                l1 as int,
                                new_pte,
                            );
                        }
                        new_pte.next_level()
                    },
                }
            },
        }
    }

    /// Walks to the level-0 entry of virtual page `pfn` and returns its address. A table
    /// that is missing on the way is allocated, zeroed and linked in. `None` where the
    /// allocator runs out of frames; a table that was linked in before that stays.
    pub fn walk_alloc<const ORDER: usize>(
        &mut self,
        mem: &mut Memory,
        buddy: &mut Spin<Buddy<ORDER>>,
        hart: usize,
        pfn: PageFrame,
    ) -> (r: Option<VirtualAddr>)
        requires
            old(buddy).free(),
            hart <= isize::MAX,
            old(self).wf(old(mem)),
            old(buddy).data.wf(old(mem)),
            old(self).clear_of(&old(buddy).data),
        ensures
            final(buddy).free(),
            grows(old(self), old(mem), &old(buddy).data, final(self), final(mem), &final(buddy).data, 2),
            same_mapping(old(self), old(mem), final(self), final(mem)),
            r matches Some(slot) ==> {
                let s = slot_of(pfn.0);
                &&& final(self).lookup(final(mem), s) is Some
                &&& slot.0 == entry_addr(
                    final(self).l1_entry(final(mem), l2_of(s), l1_of(s)).spec_ppn(),
                    l0_of(s),
                )
                &&& final(mem).contains(slot.0)
                &&& final(self).owns(slot.0 as int)
            },
            r is None ==> total_frames(final(buddy).data@) == 0,
            r is Some <==> total_frames(old(buddy).data@) >= tables_missing(
                old(self),
                old(mem),
                slot_of(pfn.0),
            ),
            old(self).lookup(old(mem), slot_of(pfn.0)) is Some ==> r is Some && total_frames(
                final(buddy).data@,
            ) == total_frames(old(buddy).data@),
            r is Some ==> walked(
                old(self),
                old(mem),
                &old(buddy).data,
                final(self),
                final(mem),
                &final(buddy).data,
                slot_of(pfn.0),
            ),
    {
        let ghost s = slot_of(pfn.0);
        let l0: usize = pfn.page_number(0);
        let l1: usize = pfn.page_number(1);
        let l2: usize = pfn.page_number(2);
        proof {
            lemma_indices(pfn.0);
        }
        proof {
            lemma_total_empty(buddy.data@);
        }
        if self.ensure_l1(mem, buddy, hart, l2).is_none() {
            proof {
                lemma_grows_more(old(self), old(mem), &old(buddy).data, self, mem, &buddy.data, 1, 2);
            }
            return None;
        }
        proof {
            lemma_total_empty(buddy.data@);
        }
        proof {
            lemma_grows_facts(old(self), old(mem), &old(buddy).data, self, mem, &buddy.data, 1);
        }
        let ghost pt1 = *self;
        let ghost m1 = *mem;
        let ghost b1 = buddy.data;
        let r0 = self.ensure_l0(mem, buddy, hart, l2, l1);
        proof {
            assert forall|s: int| 0 <= s < SLOTS implies #[trigger] self.mapping(mem, s) == old(
                self,
            ).mapping(old(mem), s) by {
                assert(pt1.mapping(&m1, s) == old(self).mapping(old(mem), s));
            }
            lemma_grows_trans(old(self), old(mem), &old(buddy).data, &pt1, &m1, &b1, self, mem, &buddy.data, 1, 1);
            lemma_grows_facts(old(self), old(mem), &old(buddy).data, self, mem, &buddy.data, 2);
        }
        match r0 {
            None => {
                proof {
                    assert(total_frames(b1@) == 0);
                    assert(!pt1.l1_entry(&m1, l2 as int, l1 as int).spec_dir());
                    if old(self).entries@[l2 as int].spec_dir() {
                        assert(pt1 == *old(self) && m1 == *old(mem) && b1 == old(buddy).data);
                    } else {
                        assert(total_frames(old(buddy).data@) == 1);
                    }
                }
                None
            },
            Some(t0) => {
                proof {
                    lemma_table_l1(self, mem, l2 as int, l1 as int);
                    lemma_slot(self, mem, l2 as int, l1 as int, l0 as int);
                    if old(self).entries@[l2 as int].spec_dir() {
                        assert(pt1 == *old(self) && m1 == *old(mem) && b1 == old(buddy).data);
                    } else {
                        assert(total_frames(b1@) == total_frames(old(buddy).data@) - 1);
                        assert(pt1.l1_entry(&m1, l2 as int, l1 as int).0 == 0);
                    }
                    assert forall|t: int| 0 <= t < SLOTS implies #[trigger] self.has_l1(t) == (old(
                        self,
                    ).has_l1(t) || l2_of(t) == l2_of(s)) by {
                        assert(self.entries@ == pt1.entries@);
                        if l2_of(t) != l2 {
                            assert(pt1.entries@[l2_of(t)] == old(self).entries@[l2_of(t)]);
                        }
                    }
                    assert forall|t: int| 0 <= t < SLOTS implies #[trigger] self.has_l0(mem, t)
                        == (old(self).has_l0(old(mem), t) || (l2_of(t) == l2_of(s) && l1_of(t)
                        == l1_of(s))) by {
                        assert(pt1.has_l0(&m1, t) == old(self).has_l0(old(mem), t));
                    }
                }
                Some(VirtualAddr(t0.0 + 8 * (l0 as u64)))
            },
        }
    }

    /// Maps the `sz` bytes at virtual address `va` to physical address `pa`, page by
    /// page, with `flags` and V. The pages are taken in ascending order. The first page
    /// whose entry is valid already ends the call with `Remap`, the first for which the
    /// allocator has no frame for a table with `NoMemory`; the pages before it stay mapped.
    /// The call succeeds exactly where none of the pages is mapped and the allocator has
    /// a frame for each table that is missing, and then takes exactly those frames.
    pub fn try_map<const ORDER: usize>(
        &mut self,
        mem: &mut Memory,
        buddy: &mut Spin<Buddy<ORDER>>,
        hart: usize,
        pa: PhysicalAddr,
        va: VirtualAddr,
        sz: u64,
        flags: Flags,
    ) -> (r: Result<(), MapError>)
        requires
            old(buddy).free(),
            hart <= isize::MAX,
            old(self).wf(old(mem)),
            old(buddy).data.wf(old(mem)),
            old(self).clear_of(&old(buddy).data),
            va.0 + sz + 4095 <= u64::MAX,
            pa.0 / 4096 + spec_pages(va, sz) <= MAX_PPN + 1,
        ensures
            final(buddy).free(),
            grows(
                old(self),
                old(mem),
                &old(buddy).data,
                final(self),
                final(mem),
                &final(buddy).data,
                2 * spec_pages(va, sz),
            ),
            mapped_prefix(
                old(self),
                old(mem),
                final(self),
                final(mem),
                va.0 / 4096,
                pa.0 / 4096,
                flags,
                match r {
                    Ok(_) => spec_pages(va, sz),
                    Err(MapError::Remap(v)) => v.0 - va.0 / 4096,
                    Err(MapError::NoMemory(v)) => v.0 - va.0 / 4096,
                },
            ),
            match r {
                Ok(_) => unmapped_before(
                    old(self),
                    old(mem),
                    (va.0 / 4096) as u64,
                    spec_pages(va, sz),
                ),
                Err(MapError::Remap(v)) => {
                    &&& va.0 / 4096 <= v.0 < va.0 / 4096 + spec_pages(va, sz)
                    &&& final(self).mapping(final(mem), slot_of(v.0)) is Some
                    &&& unmapped_before(old(self), old(mem), (va.0 / 4096) as u64, v.0 - va.0 / 4096)
                },
                Err(MapError::NoMemory(v)) => {
                    &&& va.0 / 4096 <= v.0 < va.0 / 4096 + spec_pages(va, sz)
                    &&& final(self).mapping(final(mem), slot_of(v.0)) is None
                    &&& total_frames(final(buddy).data@) == 0
                    &&& unmapped_before(old(self), old(mem), (va.0 / 4096) as u64, v.0 - va.0 / 4096)
                },
            },
            r is Ok <==> can_map(
                old(self),
                old(mem),
                &old(buddy).data,
                (va.0 / 4096) as u64,
                spec_pages(va, sz),
            ),
            r is Ok ==> total_frames(final(buddy).data@) == total_frames(old(buddy).data@)
                - tables_for(old(self), old(mem), (va.0 / 4096) as u64, spec_pages(va, sz))
                && tables_after(
                old(self),
                old(mem),
                final(self),
                final(mem),
                (va.0 / 4096) as u64,
                spec_pages(va, sz),
            ),
            r matches Err(MapError::Remap(v)) ==> total_frames(final(buddy).data@) == total_frames(
                old(buddy).data@,
            ) - tables_for(old(self), old(mem), (va.0 / 4096) as u64, v.0 - va.0 / 4096 + 1),
            r matches Err(MapError::NoMemory(v)) ==> total_frames(old(buddy).data@) < tables_for(
                old(self),
                old(mem),
                (va.0 / 4096) as u64,
                v.0 - va.0 / 4096 + 1,
            ),
            final(self).interp(final(mem)) == spec_map(
                old(self).interp(old(mem)),
                (va.0 / 4096) as u64,
                (pa.0 / 4096) as u64,
                flags,
                match r {
                    Ok(_) => spec_pages(va, sz),
                    Err(MapError::Remap(v)) => v.0 - va.0 / 4096,
                    Err(MapError::NoMemory(v)) => v.0 - va.0 / 4096,
                },
            ),
            forall|s: int|
                0 <= s < SLOTS && final(self).mapping(final(mem), s) is Some ==> old(self).mapping(
                    old(mem),
                    s,
                ) is Some || range_index(slot_of((va.0 / 4096) as u64), s) < spec_pages(va, sz),
            flags.0 & 0x0e != 0 && old(self).leaves_ok(old(mem)) ==> final(self).leaves_ok(
                final(mem),
            ),
    {
        let start: PageFrame = va.virtual_page_frame();
        let end: PageFrame = (va + sz).virtual_page_frame_round_up();
        let mut ppf: PageFrame = pa.page_frame();
        let ghost ppf0: u64 = ppf.0;
        let ghost n: int = spec_pages(va, sz);
        let mut pfn: u64 = start.0;
        proof {
            lemma_grows_refl(self, mem, &buddy.data);
            lemma_prefix_zero(self, mem, start.0, ppf0, flags);
        }
        while pfn < end.0
            invariant
                buddy.free(),
                hart <= isize::MAX,
                start.0 == va.0 / 4096,
                end.0 == start.0 + n,
                n == spec_pages(va, sz),
                start.0 <= pfn <= end.0,
                pfn - start.0 <= SLOTS,
                ppf0 == pa.0 / 4096,
                ppf.0 == ppf0 + (pfn - start.0),
                ppf0 + n <= MAX_PPN + 1,
                grows(old(self), old(mem), &old(buddy).data, self, mem, &buddy.data, 2 * (pfn - start.0)),
                self.wf(mem),
                buddy.data.wf(mem),
                self.clear_of(&buddy.data),
                mapped_prefix(
                    old(self),
                    old(mem),
                    self,
                    mem,
                    start.0,
                    ppf0,
                    flags,
                    pfn - start.0,
                ),
                unmapped_before(old(self), old(mem), start.0, pfn - start.0),
                tables_after(old(self), old(mem), self, mem, start.0, pfn - start.0),
                total_frames(buddy.data@) == total_frames(old(buddy).data@) - tables_for(
                    old(self),
                    old(mem),
                    start.0,
                    pfn - start.0,
                ),
            decreases end.0 - pfn,
        {
            let ghost i: int = pfn - start.0;
            let ghost pt0 = *self;
            let ghost m0 = *mem;
            let ghost b0 = buddy.data;
            proof {
                lemma_grows_facts(old(self), old(mem), &old(buddy).data, self, mem, &buddy.data, 2 * i);
            }
            let slot: VirtualAddr = match self.walk_alloc(mem, buddy, hart, PageFrame(pfn)) {
                Some(slot) => slot,
                None => {
                    proof {
                        lemma_tables_next(old(self), old(mem), &pt0, &m0, start.0, i);
                        lemma_tables_mono(old(self), old(mem), start.0, i + 1, n);
                        lemma_indices(pfn);
                        lemma_grows_trans(
                            old(self), old(mem), &old(buddy).data, &pt0, &m0, &b0, self, mem, &buddy.data,
                            2 * i, 2,
                        );
                        lemma_grows_more(
                            old(self), old(mem), &old(buddy).data, self, mem, &buddy.data, 2 * i + 2, 2 * n,
                        );
                        lemma_prefix_same(old(self), old(mem), &pt0, &m0, self, mem, start.0, ppf0, flags, i);
                        lemma_prefix_origin(old(self), old(mem), self, mem, start.0, ppf0, flags, i, n);
                        lemma_prefix_interp(old(self), old(mem), self, mem, start.0, ppf0, flags, i);
                        if flags.0 & 0x0e != 0 && old(self).leaves_ok(old(mem)) {
                            lemma_prefix_leaves(
                                old(self), old(mem), self, mem, start.0, ppf0, flags, i,
                            );
                        }
                    }
                    return Err(MapError::NoMemory(PageFrame(pfn)));
                },
            };
            let ghost pt1 = *self;
            let ghost m1 = *mem;
            let ghost b1 = buddy.data;
            proof {
                lemma_tables_step(
                    old(self),
                    old(mem),
                    &old(buddy).data,
                    &pt0,
                    &m0,
                    &b0,
                    self,
                    mem,
                    &buddy.data,
                    start.0,
                    i,
                );
                lemma_grows_facts(&pt0, &m0, &b0, self, mem, &buddy.data, 2);
                lemma_grows_trans(
                    old(self), old(mem), &old(buddy).data, &pt0, &m0, &b0, self, mem, &buddy.data, 2 * i, 2,
                );
                lemma_prefix_same(old(self), old(mem), &pt0, &m0, self, mem, start.0, ppf0, flags, i);
                lemma_indices(pfn);
            }
            let pte: PTE = PTE(mem.read(slot));
            if pte.is_valid() {
                proof {
                    lemma_prefix_at(old(self), old(mem), self, mem, start.0, ppf0, flags, i, n);
                    lemma_grows_more(
                        old(self), old(mem), &old(buddy).data, self, mem, &buddy.data, 2 * i + 2, 2 * n,
                    );
                    lemma_prefix_origin(old(self), old(mem), self, mem, start.0, ppf0, flags, i, n);
                    lemma_prefix_interp(old(self), old(mem), self, mem, start.0, ppf0, flags, i);
                    if flags.0 & 0x0e != 0 && old(self).leaves_ok(old(mem)) {
                        lemma_prefix_leaves(old(self), old(mem), self, mem, start.0, ppf0, flags, i);
                    }
                }
                return Err(MapError::Remap(PageFrame(pfn)));
            }
            let leaf: PTE = PTE::new(Some(ppf), flags);
            mem.write(slot, leaf.0);
            proof {
                lemma_write_leaf(self, &m1, mem, &buddy.data, slot_of(pfn), leaf);
                lemma_grows_trans(
                    old(self), old(mem), &old(buddy).data, &pt1, &m1, &b1, self, mem, &buddy.data, 2 * i + 2, 0,
                );
                lemma_grows_facts(old(self), old(mem), &old(buddy).data, self, mem, &buddy.data, 2 * i + 2);
                lemma_prefix_step(
                    old(self), old(mem), &pt1, &m1, self, mem, start.0, ppf0, flags, i, leaf,
                );
                lemma_tables_kept(old(self), old(mem), self, &m1, mem, start.0, i + 1);
            }
            pfn = pfn + 1;
            ppf = PageFrame(ppf.0 + 1);
        }
        proof {
            lemma_total_empty(buddy.data@);
            lemma_prefix_origin(old(self), old(mem), self, mem, start.0, ppf0, flags, n, n);
            lemma_prefix_interp(old(self), old(mem), self, mem, start.0, ppf0, flags, n);
            if flags.0 & 0x0e != 0 && old(self).leaves_ok(old(mem)) {
                lemma_prefix_leaves(old(self), old(mem), self, mem, start.0, ppf0, flags, n);
            }
        }
        Ok(())
    }

    /// Maps the `sz` bytes at virtual address `va` to physical address `pa`, page by
    /// page, with `flags` and V, where that can be done: none of the pages is mapped, and
    /// the allocator has a frame for each table that is missing. Those frames are taken.
    pub fn map<const ORDER: usize>(
        &mut self,
        mem: &mut Memory,
        buddy: &mut Spin<Buddy<ORDER>>,
        hart: usize,
        pa: PhysicalAddr,
        va: VirtualAddr,
        sz: u64,
        flags: Flags,
    )
        requires
            old(buddy).free(),
            hart <= isize::MAX,
            old(self).wf(old(mem)),
            old(buddy).data.wf(old(mem)),
            old(self).clear_of(&old(buddy).data),
            va.0 + sz + 4095 <= u64::MAX,
            pa.0 / 4096 + spec_pages(va, sz) <= MAX_PPN + 1,
            can_map(
                old(self),
                old(mem),
                &old(buddy).data,
                (va.0 / 4096) as u64,
                spec_pages(va, sz),
            ),
        ensures
            final(buddy).free(),
            final(self).wf(final(mem)),
            final(buddy).data.wf(final(mem)),
            final(self).clear_of(&final(buddy).data),
            final(mem).same_shape(old(mem)),
            grows(
                old(self),
                old(mem),
                &old(buddy).data,
                final(self),
                final(mem),
                &final(buddy).data,
                2 * spec_pages(va, sz),
            ),
            final(self).interp(final(mem)) == spec_map(
                old(self).interp(old(mem)),
                (va.0 / 4096) as u64,
                (pa.0 / 4096) as u64,
                flags,
                spec_pages(va, sz),
            ),
            total_frames(final(buddy).data@) == total_frames(old(buddy).data@) - tables_for(
                old(self),
                old(mem),
                (va.0 / 4096) as u64,
                spec_pages(va, sz),
            ),
            tables_after(
                old(self),
                old(mem),
                final(self),
                final(mem),
                (va.0 / 4096) as u64,
                spec_pages(va, sz),
            ),
            flags.0 & 0x0e != 0 && old(self).leaves_ok(old(mem)) ==> final(self).leaves_ok(
                final(mem),
            ),
    {
        let r = self.try_map(mem, buddy, hart, pa, va, sz, flags);
        proof {
            lemma_grows_facts(
                old(self),
                old(mem),
                &old(buddy).data,
                self,
                mem,
                &buddy.data,
                2 * spec_pages(va, sz),
            );
        }
        assert(r is Ok);
    }

    /// Maps the addresses from `start` up to `end` of the kernel half to the physical
    /// addresses that the linear map gives them, as `try_map` does.
    pub fn try_map_segment<const ORDER: usize>(
        &mut self,
        mem: &mut Memory,
        buddy: &mut Spin<Buddy<ORDER>>,
        hart: usize,
        start: VirtualAddr,
        end: VirtualAddr,
        flags: Flags,
    ) -> (r: Result<(), MapError>)
        requires
            old(buddy).free(),
            hart <= isize::MAX,
            old(self).wf(old(mem)),
            old(buddy).data.wf(old(mem)),
            old(self).clear_of(&old(buddy).data),
            PAGE_OFF <= start.0 <= end.0 <= u64::MAX - 4095,
        ensures
            final(buddy).free(),
            grows(
                old(self),
                old(mem),
                &old(buddy).data,
                final(self),
                final(mem),
                &final(buddy).data,
                2 * segment_pages(start, end),
            ),
            r is Ok ==> final(self).interp(final(mem)) == spec_map_segment(
                old(self).interp(old(mem)),
                start,
                end,
                flags,
            ),
            r matches Err(e) ==> segment_failed(
                old(self).interp(old(mem)),
                final(self).interp(final(mem)),
                start,
                end,
                flags,
                e,
            ),
            r matches Err(MapError::Remap(v)) ==> final(self).mapping(final(mem), slot_of(v.0)) is Some,
            r matches Err(MapError::NoMemory(v)) ==> total_frames(final(buddy).data@) == 0,
            r is Ok <==> can_map(
                old(self),
                old(mem),
                &old(buddy).data,
                (start.0 / 4096) as u64,
                segment_pages(start, end),
            ),
            r is Ok ==> total_frames(final(buddy).data@) == total_frames(old(buddy).data@)
                - tables_for(
                old(self),
                old(mem),
                (start.0 / 4096) as u64,
                segment_pages(start, end),
            ) && tables_after(
                old(self),
                old(mem),
                final(self),
                final(mem),
                (start.0 / 4096) as u64,
                segment_pages(start, end),
            ),
            flags.0 & 0x0e != 0 && old(self).leaves_ok(old(mem)) ==> final(self).leaves_ok(
                final(mem),
            ),
    {
        let pa: PhysicalAddr = PhysicalAddr::from(start);
        let sz: u64 = end - start;
        assert(pa.0 == start.0 - PAGE_OFF);
        assert(pa.0 / 4096 + spec_pages(start, sz) <= MAX_PPN + 1) by {
            assert(start.0 / 4096 == pa.0 / 4096 + 0xf_ffff_fc00_0000);
        }
        self.try_map(mem, buddy, hart, pa, start, sz, flags)
    }

    /// Maps the kernel's own segments, each to the physical addresses that the linear
    /// map gives it: text readable and executable, rodata readable, data, bss and the
    /// memory from the end of the kernel up to `mem_end` readable and writable. The
    /// segments are mapped in that order, and the first failure ends the call. Where the
    /// boundaries between the segments are page aligned and the whole run of pages can be
    /// mapped, the call succeeds.
    #[verifier::spinoff_prover]
    #[verifier::rlimit(100)]
    pub fn try_map_kernel<const ORDER: usize>(
        &mut self,
        mem: &mut Memory,
        buddy: &mut Spin<Buddy<ORDER>>,
        hart: usize,
        text_start: VirtualAddr,
        rodata_start: VirtualAddr,
        data_start: VirtualAddr,
        bss_start: VirtualAddr,
        kernel_end: VirtualAddr,
        mem_end: PhysicalAddr,
    ) -> (r: Result<(), MapError>)
        requires
            old(buddy).free(),
            hart <= isize::MAX,
            old(self).wf(old(mem)),
            old(buddy).data.wf(old(mem)),
            old(self).clear_of(&old(buddy).data),
            PAGE_OFF <= text_start.0 <= rodata_start.0 <= data_start.0 <= bss_start.0
                <= kernel_end.0 <= mem_end.0 + PAGE_OFF <= u64::MAX - 4095,
        ensures
            final(buddy).free(),
            grows(
                old(self),
                old(mem),
                &old(buddy).data,
                final(self),
                final(mem),
                &final(buddy).data,
                2 * (segment_pages(text_start, rodata_start) + segment_pages(
                    rodata_start,
                    data_start,
                ) + segment_pages(data_start, bss_start) + segment_pages(bss_start, kernel_end)
                    + segment_pages(kernel_end, VirtualAddr((mem_end.0 + PAGE_OFF) as u64))),
            ),
            r is Ok ==> final(self).interp(final(mem)) == spec_map_kernel(
                old(self).interp(old(mem)),
                text_start,
                rodata_start,
                data_start,
                bss_start,
                kernel_end,
                VirtualAddr((mem_end.0 + PAGE_OFF) as u64),
            ),
            r matches Err(e) ==> kernel_failed(
                old(self).interp(old(mem)),
                final(self).interp(final(mem)),
                text_start,
                rodata_start,
                data_start,
                bss_start,
                kernel_end,
                VirtualAddr((mem_end.0 + PAGE_OFF) as u64),
                e,
            ),
            r matches Err(MapError::Remap(v)) ==> final(self).mapping(final(mem), slot_of(v.0)) is Some,
            r matches Err(MapError::NoMemory(v)) ==> total_frames(final(buddy).data@) == 0,
            kernel_ok(
                old(self),
                old(mem),
                &old(buddy).data,
                text_start,
                rodata_start,
                data_start,
                bss_start,
                kernel_end,
                VirtualAddr((mem_end.0 + PAGE_OFF) as u64),
            ) ==> r is Ok && staged(
                old(self),
                old(mem),
                &old(buddy).data,
                final(self),
                final(mem),
                &final(buddy).data,
                (text_start.0 / 4096) as u64,
                segment_pages(text_start, VirtualAddr((mem_end.0 + PAGE_OFF) as u64)),
            ),
            old(self).leaves_ok(old(mem)) ==> final(self).leaves_ok(final(mem)),
    {
        let mem_end: VirtualAddr = VirtualAddr::from(mem_end);
        let ghost n1 = 2 * segment_pages(text_start, rodata_start);
        let ghost n2 = 2 * segment_pages(rodata_start, data_start);
        let ghost n3 = 2 * segment_pages(data_start, bss_start);
        let ghost n4 = 2 * segment_pages(bss_start, kernel_end);
        let ghost n5 = 2 * segment_pages(kernel_end, mem_end);
        let ghost base = (text_start.0 / 4096) as u64;
        let ghost q1 = segment_pages(text_start, rodata_start);
        let ghost q2 = segment_pages(rodata_start, data_start);
        let ghost q3 = segment_pages(data_start, bss_start);
        let ghost q4 = segment_pages(bss_start, kernel_end);
        let ghost q5 = segment_pages(kernel_end, mem_end);
        let ghost total = segment_pages(text_start, mem_end);
        let ghost ok = kernel_ok(
            old(self),
            old(mem),
            &old(buddy).data,
            text_start,
            rodata_start,
            data_start,
            bss_start,
            kernel_end,
            mem_end,
        );
        proof {
            if ok {
                lemma_kernel_pages(text_start, rodata_start, data_start, bss_start, kernel_end, mem_end);
                assert(tables_for(old(self), old(mem), base, 0) == 0);
                assert(staged(old(self), old(mem), &old(buddy).data, self, mem, &buddy.data, base, 0));
                lemma_stage_can(
                    old(self), old(mem), &old(buddy).data, self, mem, &buddy.data, base, 0, q1, total,
                );
            }
        }
        assert(2u8 | 8u8 == 10u8 && 2u8 | 4u8 == 6u8 && 10u8 & 0x0e != 0 && 6u8 & 0x0e != 0 && 2u8
            & 0x0e != 0) by (bit_vector);
        let r1 = self.try_map_segment(
            mem,
            buddy,
            hart,
            text_start,
            rodata_start,
            Flags(Flags::READABLE | Flags::EXECUTABLE),
        );
        let ghost pt1 = *self;
        let ghost m1 = *mem;
        let ghost b1 = buddy.data;
        proof {
            lemma_grows_facts(old(self), old(mem), &old(buddy).data, self, mem, &buddy.data, n1);
        }
        if r1.is_err() {
            proof {
                lemma_grows_more(
                    old(self), old(mem), &old(buddy).data, self, mem, &buddy.data, n1, n1 + n2 + n3 + n4 + n5,
                );
            }
            return r1;
        }
        proof {
            if ok {
                lemma_stage_done(
                    old(self), old(mem), &old(buddy).data, old(self), old(mem), &old(buddy).data, self, mem, &buddy.data, base,
                    0, q1, total, ((text_start.0 - PAGE_OFF) / 4096) as u64, Flags(10),
                );
                lemma_stage_can(
                    old(self), old(mem), &old(buddy).data, self, mem, &buddy.data, base, q1, q2, total,
                );
            }
        }
        let r2 = self.try_map_segment(mem, buddy, hart, rodata_start, data_start, Flags(Flags::READABLE));
        let ghost pt2 = *self;
        let ghost m2 = *mem;
        let ghost b2 = buddy.data;
        proof {
            lemma_grows_trans(old(self), old(mem), &old(buddy).data, &pt1, &m1, &b1, self, mem, &buddy.data, n1, n2);
            lemma_grows_facts(old(self), old(mem), &old(buddy).data, self, mem, &buddy.data, n1 + n2);
        }
        if r2.is_err() {
            proof {
                lemma_grows_more(
                    old(self), old(mem), &old(buddy).data, self, mem, &buddy.data, n1 + n2,
                    n1 + n2 + n3 + n4 + n5,
                );
            }
            return r2;
        }
        proof {
            if ok {
                lemma_stage_done(
                    old(self), old(mem), &old(buddy).data, &pt1, &m1, &b1, self, mem, &buddy.data, base,
                    q1, q2, total, ((rodata_start.0 - PAGE_OFF) / 4096) as u64, Flags(2),
                );
                lemma_stage_can(
                    old(self), old(mem), &old(buddy).data, self, mem, &buddy.data, base, q1 + q2, q3, total,
                );
            }
        }
        let r3 = self.try_map_segment(
            mem,
            buddy,
            hart,
            data_start,
            bss_start,
            Flags(Flags::READABLE | Flags::WRITABLE),
        );
        let ghost pt3 = *self;
        let ghost m3 = *mem;
        let ghost b3 = buddy.data;
        proof {
            lemma_grows_trans(
                old(self), old(mem), &old(buddy).data, &pt2, &m2, &b2, self, mem, &buddy.data, n1 + n2, n3,
            );
            lemma_grows_facts(old(self), old(mem), &old(buddy).data, self, mem, &buddy.data, n1 + n2 + n3);
        }
        if r3.is_err() {
            proof {
                lemma_grows_more(
                    old(self), old(mem), &old(buddy).data, self, mem, &buddy.data, n1 + n2 + n3,
                    n1 + n2 + n3 + n4 + n5,
                );
            }
            return r3;
        }
        proof {
            if ok {
                lemma_stage_done(
                    old(self), old(mem), &old(buddy).data, &pt2, &m2, &b2, self, mem, &buddy.data, base,
                    q1 + q2, q3, total, ((data_start.0 - PAGE_OFF) / 4096) as u64, Flags(6),
                );
                lemma_stage_can(
                    old(self), old(mem), &old(buddy).data, self, mem, &buddy.data, base, q1 + q2 + q3, q4, total,
                );
            }
        }
        let r4 = self.try_map_segment(
            mem,
            buddy,
            hart,
            bss_start,
            kernel_end,
            Flags(Flags::READABLE | Flags::WRITABLE),
        );
        let ghost pt4 = *self;
        let ghost m4 = *mem;
        let ghost b4 = buddy.data;
        proof {
            lemma_grows_trans(
                old(self), old(mem), &old(buddy).data, &pt3, &m3, &b3, self, mem, &buddy.data, n1 + n2 + n3, n4,
            );
            lemma_grows_facts(old(self), old(mem), &old(buddy).data, self, mem, &buddy.data, n1 + n2 + n3 + n4);
        }
        if r4.is_err() {
            proof {
                lemma_grows_more(
                    old(self), old(mem), &old(buddy).data, self, mem, &buddy.data, n1 + n2 + n3 + n4,
                    n1 + n2 + n3 + n4 + n5,
                );
            }
            return r4;
        }
        proof {
            if ok {
                lemma_stage_done(
                    old(self), old(mem), &old(buddy).data, &pt3, &m3, &b3, self, mem, &buddy.data, base,
                    q1 + q2 + q3, q4, total, ((bss_start.0 - PAGE_OFF) / 4096) as u64, Flags(6),
                );
                lemma_stage_can(
                    old(self), old(mem), &old(buddy).data, self, mem, &buddy.data, base, q1 + q2 + q3 + q4, q5, total,
                );
            }
        }
        let r5 = self.try_map_segment(
            mem,
            buddy,
            hart,
            kernel_end,
            mem_end,
            Flags(Flags::READABLE | Flags::WRITABLE),
        );
        proof {
            lemma_grows_trans(
                old(self), old(mem), &old(buddy).data, &pt4, &m4, &b4, self, mem, &buddy.data,
                n1 + n2 + n3 + n4, n5,
            );
            if ok {
                lemma_stage_done(
                    old(self), old(mem), &old(buddy).data, &pt4, &m4, &b4, self, mem, &buddy.data, base,
                    q1 + q2 + q3 + q4, q5, total, ((kernel_end.0 - PAGE_OFF) / 4096) as u64, Flags(6),
                );
            }
        }
        r5
    }

    /// Maps the kernel's own segments, each to the physical addresses that the linear
    /// map gives it: text readable and executable, rodata readable, data, bss and the
    /// memory from the end of the kernel up to `mem_end` readable and writable. This can
    /// be done where the boundaries between the segments are page aligned, none of the
    /// pages is mapped, and the allocator has a frame for each table that is missing.
    pub fn map_kernel<const ORDER: usize>(
        &mut self,
        mem: &mut Memory,
        buddy: &mut Spin<Buddy<ORDER>>,
        hart: usize,
        text_start: VirtualAddr,
        rodata_start: VirtualAddr,
        data_start: VirtualAddr,
        bss_start: VirtualAddr,
        kernel_end: VirtualAddr,
        mem_end: PhysicalAddr,
    )
        requires
            old(buddy).free(),
            hart <= isize::MAX,
            old(self).wf(old(mem)),
            old(buddy).data.wf(old(mem)),
            old(self).clear_of(&old(buddy).data),
            PAGE_OFF <= text_start.0 <= rodata_start.0 <= data_start.0 <= bss_start.0
                <= kernel_end.0 <= mem_end.0 + PAGE_OFF <= u64::MAX - 4095,
            kernel_ok(
                old(self),
                old(mem),
                &old(buddy).data,
                text_start,
                rodata_start,
                data_start,
                bss_start,
                kernel_end,
                VirtualAddr((mem_end.0 + PAGE_OFF) as u64),
            ),
        ensures
            final(buddy).free(),
            final(self).wf(final(mem)),
            final(buddy).data.wf(final(mem)),
            final(self).clear_of(&final(buddy).data),
            final(mem).same_shape(old(mem)),
            final(self).interp(final(mem)) == spec_map_kernel(
                old(self).interp(old(mem)),
                text_start,
                rodata_start,
                data_start,
                bss_start,
                kernel_end,
                VirtualAddr((mem_end.0 + PAGE_OFF) as u64),
            ),
            total_frames(final(buddy).data@) == total_frames(old(buddy).data@) - tables_for(
                old(self),
                old(mem),
                (text_start.0 / 4096) as u64,
                segment_pages(text_start, VirtualAddr((mem_end.0 + PAGE_OFF) as u64)),
            ),
            staged(
                old(self),
                old(mem),
                &old(buddy).data,
                final(self),
                final(mem),
                &final(buddy).data,
                (text_start.0 / 4096) as u64,
                segment_pages(text_start, VirtualAddr((mem_end.0 + PAGE_OFF) as u64)),
            ),
            old(self).leaves_ok(old(mem)) ==> final(self).leaves_ok(final(mem)),
    {
        let ghost n = 2 * (segment_pages(text_start, rodata_start) + segment_pages(
            rodata_start,
            data_start,
        ) + segment_pages(data_start, bss_start) + segment_pages(bss_start, kernel_end)
            + segment_pages(kernel_end, VirtualAddr((mem_end.0 + PAGE_OFF) as u64)));
        let r = self.try_map_kernel(
            mem,
            buddy,
            hart,
            text_start,
            rodata_start,
            data_start,
            bss_start,
            kernel_end,
            mem_end,
        );
        proof {
            lemma_grows_facts(old(self), old(mem), &old(buddy).data, self, mem, &buddy.data, n);
        }
        assert(r is Ok);
    }

    /// The physical address of the root, for a root that stands at `at` in the linear
    /// map.
    pub fn as_phys_addr(&self, at: VirtualAddr) -> (r: PhysicalAddr)
        ensures
            r.0 == at.0.wrapping_sub(PAGE_OFF),
    {
        PhysicalAddr::from(at)
    }

    /// The word for the address-translation register that selects this table, for a
    /// root that stands at `at` in the linear map: mode 8, Sv39, in bits 60 to 63, and
    /// the root's page number in bits 0 to 43.
    pub fn as_sv39(&self, at: VirtualAddr) -> (r: u64)
        requires
            at.0.wrapping_sub(PAGE_OFF) / 4096 <= MAX_PPN,
        ensures
            r == 0x8000_0000_0000_0000 + at.0.wrapping_sub(PAGE_OFF) / 4096,
    {
        proof {
            lemma_sv39_powers();
            vstd::arithmetic::power2::lemma2_to64_rest();
        }
        let mode: u64 = set_bits(0u64, 60, 64, SV39_MODE);
        proof {
            let p60 = vstd::arithmetic::power2::pow2(60);
            assert(p60 == 0x1000_0000_0000_0000);
            assert(0nat / p60 == 0);
            let p4 = vstd::arithmetic::power2::pow2((64 - 60) as nat);
            assert(p4 == 16);
            let q = 0nat / p60;
            assert(q % p4 == 0) by (nonlinear_arith)
                requires
                    q == 0,
                    p4 == 16,
            ;
            assert(super::spec_get_bits(0, 60, 64) == 0);
            assert(8 * p60 == 0x8000_0000_0000_0000);
            assert(mode == 0x8000_0000_0000_0000);
        }
        let ppn: u64 = self.as_phys_addr(at).page_frame().get_ppn();
        let satp: u64 = set_bits(mode, 0, 44, ppn);
        proof {
            let p0 = vstd::arithmetic::power2::pow2(0);
            assert(p0 == 1);
            assert(mode as nat / p0 == mode);
            let p44 = vstd::arithmetic::power2::pow2((44 - 0) as nat);
            assert(p44 == 0x1000_0000_0000);
            assert(0x8000_0000_0000_0000nat % 0x1000_0000_0000 == 0);
            let q0 = mode as nat / p0;
            assert(q0 % p44 == 0) by (nonlinear_arith)
                requires
                    q0 == 0x8000_0000_0000_0000,
                    p44 == 0x1000_0000_0000,
            ;
            assert(super::spec_get_bits(mode, 0, 44) == 0);
        }
        satp
    }

    /// Gives every table of the tree back to the buddy allocator, the tables under a
    /// root entry before the table that the root entry points to, and clears the root.
    pub fn free_dir<const ORDER: usize>(
        &mut self,
        mem: &mut Memory,
        buddy: &mut Spin<Buddy<ORDER>>,
        hart: usize,
    )
        requires
            old(buddy).free(),
            hart <= isize::MAX,
            old(self).wf(old(mem)),
            old(buddy).data.wf(old(mem)),
            old(self).clear_of(&old(buddy).data),
        ensures
            final(buddy).free(),
            final(self).wf(final(mem)),
            final(buddy).data.wf(final(mem)),
            final(self).clear_of(&final(buddy).data),
            final(mem).same_shape(old(mem)),
            forall|i: int| 0 <= i < 512 ==> final(self).entries@[i].0 == 0,
            final(self).dirs@ == Map::<u64, (int, int)>::empty(),
            forall|s: int| 0 <= s < SLOTS ==> final(self).mapping(final(mem), s) is None,
            final(buddy).data@ == spec_free_tables(old(buddy).data@, old(self), old(mem), 512 * 513),
            forall|x: int| final(buddy).data.is_free(x) ==> old(buddy).data.is_free(x) || old(self).owns(x),
            gone_back(old(self), old(mem), &old(buddy).data, &final(buddy).data, 512, 0),
            forall|x: u64|
                old(mem).contains(x) && !old(buddy).data.is_free(x as int) && !old(self).owns(x as int)
                    ==> final(mem).word(x) == old(mem).word(x),
    {
        let ghost pt0 = *self;
        let mut l2: usize = 0;
        proof {
            lemma_freeing_start(&pt0, old(mem), &old(buddy).data);
        }
        while l2 < 512
            invariant
                buddy.free(),
                hart <= isize::MAX,
                l2 <= 512,
                freeing(&pt0, old(mem), &old(buddy).data, mem, &buddy.data, l2 as int, 0),
                gone_back(&pt0, old(mem), &old(buddy).data, &buddy.data, l2 as int, 0),
                forall|k: int| 0 <= k < l2 ==> self.entries@[k].0 == 0,
                forall|k: int| l2 <= k < 512 ==> self.entries@[k] == pt0.entries@[k],
                pt0 == *old(self),
            decreases 512 - l2,
        {
            let e2: PTE = self.entries[l2];
            if e2.is_dir() {
                let f1: PageFrame = e2.get_page_frame_unchecked();
                proof {
                    lemma_freeing_root(&pt0, old(mem), &old(buddy).data, mem, &buddy.data, l2 as int);
                }
                let mut l1: usize = 0;
                while l1 < 512
                    invariant
                        buddy.free(),
                        hart <= isize::MAX,
                        l1 <= 512,
                        l2 < 512,
                        f1.0 == pt0.entries@[l2 as int].spec_ppn(),
                        pt0.entries@[l2 as int].spec_dir(),
                        freeing(&pt0, old(mem), &old(buddy).data, mem, &buddy.data, l2 as int, l1 as int),
                        gone_back(&pt0, old(mem), &old(buddy).data, &buddy.data, l2 as int, l1 as int),
                    decreases 512 - l1,
                {
                    proof {
                        lemma_freeing_entry(
                            &pt0, old(mem), &old(buddy).data, mem, &buddy.data, l2 as int, l1 as int,
                        );
                    }
                    let e1: PTE = PTE(mem.read(VirtualAddr(f1.0 * 4096 + PAGE_OFF + 8 * (l1 as u64))));
                    if e1.is_dir() {
                        let f0: PageFrame = e1.get_page_frame_unchecked();
                        let ghost m1 = *mem;
                        let ghost b1 = buddy.data;
                        proof {
                            lemma_freeing_table(
                                &pt0, old(mem), &old(buddy).data, mem, &buddy.data, l2 as int, l1 as int, f0.0,
                            );
                        }
                        crate::mm::allocator::free_pages(buddy, mem, hart, f0, 0);
                        proof {
                            lemma_freeing_step(
                                &pt0, old(mem), &old(buddy).data, &m1, &b1, mem, &buddy.data, l2 as int,
                                l1 as int, f0.0, l2 as int, l1 + 1,
                            );
                            lemma_run_bytes(0);
                            vstd::arithmetic::power2::lemma2_to64();
                            lemma_gone_step(
                                &pt0, old(mem), &old(buddy).data, &b1, &buddy.data, l2 as int, l1 as int,
                                f0.0, l2 as int, l1 + 1,
                            );
                        }
                    } else {
                        proof {
                            lemma_freeing_mono(
                                &pt0, old(mem), &old(buddy).data, mem, &buddy.data, l2 as int, l1 as int,
                                l2 as int, l1 + 1,
                            );
                            lemma_gone_mono(
                                &pt0, old(mem), &old(buddy).data, &buddy.data, l2 as int, l1 as int,
                                l2 as int, l1 + 1,
                            );
                        }
                    }
                    l1 = l1 + 1;
                }
                let ghost m1 = *mem;
                let ghost b1 = buddy.data;
                proof {
                    lemma_freeing_table(
                        &pt0, old(mem), &old(buddy).data, mem, &buddy.data, l2 as int, 512, f1.0,
                    );
                }
                crate::mm::allocator::free_pages(buddy, mem, hart, f1, 0);
                proof {
                    lemma_freeing_step(
                        &pt0, old(mem), &old(buddy).data, &m1, &b1, mem, &buddy.data, l2 as int, 512, f1.0,
                        l2 + 1, 0,
                    );
                    lemma_run_bytes(0);
                    vstd::arithmetic::power2::lemma2_to64();
                    lemma_gone_step(
                        &pt0, old(mem), &old(buddy).data, &b1, &buddy.data, l2 as int, 512, f1.0, l2 + 1,
                        0,
                    );
                }
            } else {
                proof {
                    lemma_freeing_mono(
                        &pt0, old(mem), &old(buddy).data, mem, &buddy.data, l2 as int, 0, l2 + 1, 0,
                    );
                    lemma_gone_mono(
                        &pt0, old(mem), &old(buddy).data, &buddy.data, l2 as int, 0, l2 + 1, 0,
                    );
                }
            }
            self.entries[l2] = PTE::new_zeroed();
            l2 = l2 + 1;
        }
        self.dirs = Ghost(Map::empty());
        proof {
            lemma_freeing_end(&pt0, old(mem), &old(buddy).data, mem, &buddy.data, self);
        }
    }

    /// A new table on the heap, without entries.
    pub fn new() -> (r: Box<Self>)
        ensures
            forall|i: int| 0 <= i < 512 ==> r.entries@[i].0 == 0,
            r.dirs@ == Map::<u64, (int, int)>::empty(),
            forall|mem: &Memory| mem.wf() ==> r.wf(mem),
            forall|mem: &Memory, s: int| 0 <= s < SLOTS ==> r.mapping(mem, s) is None,
    {
        Box::new(Self::new_zeroed())
    }
}

/// How a tree, memory and the allocator stand after the tree was worked on: all are
/// well formed, new tables were taken from free memory, at most `n` frames of it, and
/// memory that was neither free nor a table of the tree is untouched.
#[verifier::opaque]
pub open spec fn grows<const ORDER: usize>(
    pt0: &PageTable,
    m0: &Memory,
    b0: &Buddy<ORDER>,
    pt1: &PageTable,
    m1: &Memory,
    b1: &Buddy<ORDER>,
    n: int,
) -> bool {
    &&& pt1.wf(m1)
    &&& b1.wf(m1)
    &&& pt1.clear_of(b1)
    &&& m1.same_shape(m0)
    &&& forall|x: int| b1.is_free(x) ==> b0.is_free(x)
    &&& forall|x: int| pt1.owns(x) ==> pt0.owns(x) || b0.is_free(x)
    &&& forall|x: int| pt0.owns(x) ==> pt1.owns(x)
    &&& forall|x: u64|
        m0.contains(x) && !b0.is_free(x as int) && !pt0.owns(x as int) ==> m1.word(x) == m0.word(x)
    &&& total_frames(b0@) - n <= total_frames(b1@) <= total_frames(b0@)
}

/// What `alloc_dir` leaves behind where it returns entry `e`: the allocator is well
/// formed and has one frame less, the frame of `e` was free and is so no more, its page
/// is all zero, and no word outside of what was free has changed.
#[verifier::opaque]
pub open spec fn dir_allocated<const ORDER: usize>(
    b0: &Buddy<ORDER>,
    m0: &Memory,
    b1: &Buddy<ORDER>,
    m1: &Memory,
    e: PTE,
) -> bool {
    &&& b1.wf(m1)
    &&& m1.same_shape(m0)
    &&& b1@ == crate::mm::buddy::buddy::spec_alloc(b0@, 0)
    &&& e.spec_dir()
    &&& e.0 == super::pte::spec_pte(e.spec_ppn(), 1)
    &&& Some(PageFrame(e.spec_ppn())) == crate::mm::buddy::buddy::spec_alloc_frame(b0@, 0)
    &&& frame_run_ok(m1, e.spec_ppn(), 0)
    &&& forall|i: int| 0 <= i < 512 ==> (#[trigger] entry_at(m1, e.spec_ppn(), i)).0 == 0
    &&& forall|x: int| b1.is_free(x) <==> (b0.is_free(x) && !in_page(e.spec_ppn(), x))
    &&& forall|x: int| in_page(e.spec_ppn(), x) ==> b0.is_free(x)
    &&& total_frames(b1@) == total_frames(b0@) - 1
    &&& forall|x: u64| m0.contains(x) && !b0.is_free(x as int) ==> m1.word(x) == m0.word(x)
}

/// After `alloc_dir` memory is well formed and holds the same addresses as before.
pub proof fn lemma_allocated_shape<const ORDER: usize>(
    b0: &Buddy<ORDER>,
    m0: &Memory,
    b1: &Buddy<ORDER>,
    m1: &Memory,
    e: PTE,
)
    requires
        dir_allocated(b0, m0, b1, m1, e),
        m0.wf(),
    ensures
        m1.wf(),
        m1.same_shape(m0),
        forall|x: u64| m0.contains(x) ==> m1.contains(x),
{
    reveal(dir_allocated);
}

/// The indices that a virtual page number selects are those of its slot.
pub proof fn lemma_indices(vpn: u64)
    ensures
        0 <= slot_of(vpn) < SLOTS,
        super::spec_page_number(vpn, 0) == l0_of(slot_of(vpn)),
        super::spec_page_number(vpn, 1) == l1_of(slot_of(vpn)),
        super::spec_page_number(vpn, 2) == l2_of(slot_of(vpn)),
        0 <= l0_of(slot_of(vpn)) < 512,
        0 <= l1_of(slot_of(vpn)) < 512,
        0 <= l2_of(slot_of(vpn)) < 512,
{
    assert((vpn % 0x800_0000) % 512 == vpn % 512 && (vpn % 0x800_0000) / 512 % 512 == vpn / 512
        % 512 && (vpn % 0x800_0000) / 0x4_0000 == vpn / 0x4_0000 % 512) by (bit_vector);
}

/// A step that changes nothing.
pub proof fn lemma_grows_refl<const ORDER: usize>(pt: &PageTable, m: &Memory, b: &Buddy<ORDER>)
    requires
        pt.wf(m),
        b.wf(m),
        pt.clear_of(b),
    ensures
        grows(pt, m, b, pt, m, b, 0),
        grows(pt, m, b, pt, m, b, 1),
{
    reveal(grows);
}

/// A frame that a valid root entry names is a table: a page of memory.
pub proof fn lemma_table(pt: &PageTable, mem: &Memory, f: u64)
    requires
        pt.wf(mem),
        exists|l2: int| 0 <= l2 < 512 && pt.entries@[l2].spec_valid() && pt.entries@[l2].spec_ppn() == f,
    ensures
        pt.dirs@.contains_key(f),
        frame_run_ok(mem, f, 0),
        table_addr(f) == f * 4096 + PAGE_OFF,
        f * 4096 + PAGE_OFF + 4096 <= u64::MAX + 1,
{
    let l2 = choose|l2: int|
        0 <= l2 < 512 && pt.entries@[l2].spec_valid() && pt.entries@[l2].spec_ppn() == f;
    assert(pt.dirs@.contains_key(pt.entries@[l2].spec_ppn()));
    lemma_entry_addr(mem, f, 0);
}

/// A frame that a valid entry of a level-1 table names is a table: a page of memory.
pub proof fn lemma_table_l1(pt: &PageTable, mem: &Memory, l2: int, l1: int)
    requires
        pt.wf(mem),
        0 <= l2 < 512,
        0 <= l1 < 512,
        pt.entries@[l2].spec_valid(),
        pt.l1_entry(mem, l2, l1).spec_valid(),
    ensures
        pt.l1_entry(mem, l2, l1).spec_dir(),
        pt.dirs@.contains_key(pt.l1_entry(mem, l2, l1).spec_ppn()),
        frame_run_ok(mem, pt.l1_entry(mem, l2, l1).spec_ppn(), 0),
        table_addr(pt.l1_entry(mem, l2, l1).spec_ppn()) == pt.l1_entry(mem, l2, l1).spec_ppn()
            * 4096 + PAGE_OFF,
{
    let f = pt.l1_entry(mem, l2, l1).spec_ppn();
    assert(pt.dirs@.contains_key(f));
    lemma_entry_addr(mem, f, 0);
}

/// The level-0 entry of a slot whose tables exist is a word of memory in a table of
/// the tree.
pub proof fn lemma_slot(pt: &PageTable, mem: &Memory, l2: int, l1: int, l0: int)
    requires
        pt.wf(mem),
        0 <= l2 < 512,
        0 <= l1 < 512,
        0 <= l0 < 512,
        pt.entries@[l2].spec_dir(),
        pt.l1_entry(mem, l2, l1).spec_dir(),
    ensures
        mem.contains(entry_addr(pt.l1_entry(mem, l2, l1).spec_ppn(), l0)),
        pt.owns(entry_addr(pt.l1_entry(mem, l2, l1).spec_ppn(), l0) as int),
        entry_addr(pt.l1_entry(mem, l2, l1).spec_ppn(), l0) == pt.l1_entry(mem, l2, l1).spec_ppn()
            * 4096 + PAGE_OFF + 8 * l0,
{
    let f0 = pt.l1_entry(mem, l2, l1).spec_ppn();
    assert(pt.dirs@.contains_key(f0));
    lemma_entry_addr(mem, f0, l0);
    assert(in_page(f0, entry_addr(f0, l0) as int));
}

/// Linking the table that `alloc_dir` returned into an empty root entry is a step that
/// takes one frame.
pub proof fn lemma_root_grows<const ORDER: usize>(
    pt0: &PageTable,
    m0: &Memory,
    b0: &Buddy<ORDER>,
    pt1: &PageTable,
    m1: &Memory,
    b1: &Buddy<ORDER>,
    l2: int,
    e: PTE,
)
    requires
        pt0.wf(m0),
        b0.wf(m0),
        pt0.clear_of(b0),
        dir_allocated(b0, m0, b1, m1, e),
        0 <= l2 < 512,
        !pt0.entries@[l2].spec_dir(),
        pt1.entries@ == pt0.entries@.update(l2, e),
        pt1.dirs@ == pt0.dirs@.insert(e.spec_ppn(), (l2, -1int)),
    ensures
        grows(pt0, m0, b0, pt1, m1, b1, 1),
        same_mapping(pt0, m0, pt1, m1),
        total_frames(b1@) == total_frames(b0@) - 1,
        e.spec_dir(),
        table_addr(e.spec_ppn()) == e.spec_ppn() * 4096 + PAGE_OFF,
        forall|l1: int| 0 <= l1 < 512 ==> (#[trigger] pt1.l1_entry(m1, l2, l1)).0 == 0,
        forall|s: int| 0 <= s < SLOTS ==> #[trigger] pt1.has_l0(m1, s) == pt0.has_l0(m0, s),
{
    reveal(dir_allocated);
    reveal(grows);
    let f = e.spec_ppn();
    assert forall|l1: int| 0 <= l1 < 512 implies (#[trigger] pt1.l1_entry(m1, l2, l1)).0 == 0 by {
        assert(entry_at(m1, f, l1).0 == 0);
    }
    assert forall|x: u64| m0.contains(x) && pt0.owns(x as int) implies m1.word(x) == m0.word(
        x,
    ) by {}
    pt0.lemma_frame(m0, m1);
    assert(!pt0.dirs@.contains_key(f)) by {
        if pt0.dirs@.contains_key(f) {
            assert(in_page(f, f * 4096 + PAGE_OFF));
            assert(pt0.owns(f * 4096 + PAGE_OFF));
        }
    }
    assert(!pt0.entries@[l2].spec_valid());
    lemma_install_root(pt0, pt1, m1, l2, e);
    lemma_entry_addr(m1, f, 0);
    assert forall|s: int| 0 <= s < SLOTS implies #[trigger] pt1.has_l0(m1, s) == pt0.has_l0(
        m0,
        s,
    ) by {
        assert(pt0.lookup(m1, s) == pt0.lookup(m0, s));
        assert(pt1.has_l0(m1, s) == pt0.has_l0(m1, s));
    }
    assert forall|s: int| 0 <= s < SLOTS implies #[trigger] pt1.mapping(m1, s) == pt0.mapping(
        m0,
        s,
    ) by {
        assert(pt0.lookup(m1, s) == pt0.lookup(m0, s));
        assert(pt1.mapping(m1, s) == pt0.mapping(m1, s));
    }
}

/// Linking the table that `alloc_dir` returned into an empty entry of a level-1 table
/// is a step that takes one frame.
pub proof fn lemma_l1_grows<const ORDER: usize>(
    pt0: &PageTable,
    m0: &Memory,
    b0: &Buddy<ORDER>,
    pt1: &PageTable,
    m1: &Memory,
    m2: &Memory,
    b1: &Buddy<ORDER>,
    l2: int,
    l1: int,
    e: PTE,
)
    requires
        pt0.wf(m0),
        b0.wf(m0),
        pt0.clear_of(b0),
        dir_allocated(b0, m0, b1, m1, e),
        0 <= l2 < 512,
        0 <= l1 < 512,
        pt0.entries@[l2].spec_dir(),
        !pt0.l1_entry(m0, l2, l1).spec_dir(),
        pt1.entries@ == pt0.entries@,
        pt1.dirs@ == pt0.dirs@.insert(e.spec_ppn(), (l2, l1)),
        m2.wf(),
        m2.same_shape(m1),
        m2.word(entry_addr(pt0.entries@[l2].spec_ppn(), l1)) == e.0,
        forall|x: u64|
            m1.contains(x) && x != entry_addr(pt0.entries@[l2].spec_ppn(), l1) ==> m2.word(x)
                == m1.word(x),
    ensures
        grows(pt0, m0, b0, pt1, m2, b1, 1),
        same_mapping(pt0, m0, pt1, m2),
        total_frames(b1@) == total_frames(b0@) - 1,
        pt1.l1_entry(m2, l2, l1) == e,
        e.spec_dir(),
        table_addr(e.spec_ppn()) == e.spec_ppn() * 4096 + PAGE_OFF,
        forall|s: int|
            0 <= s < SLOTS ==> #[trigger] pt1.has_l0(m2, s) == (pt0.has_l0(m0, s) || (l2_of(s)
                == l2 && l1_of(s) == l1)),
{
    reveal(dir_allocated);
    reveal(grows);
    let f = e.spec_ppn();
    let f1 = pt0.entries@[l2].spec_ppn();
    let slot = entry_addr(f1, l1);
    assert forall|x: u64| m0.contains(x) && pt0.owns(x as int) implies m1.word(x) == m0.word(
        x,
    ) by {}
    pt0.lemma_frame(m0, m1);
    assert(!pt0.dirs@.contains_key(f)) by {
        if pt0.dirs@.contains_key(f) {
            assert(in_page(f, f * 4096 + PAGE_OFF));
            assert(pt0.owns(f * 4096 + PAGE_OFF));
        }
    }
    assert(pt0.dirs@.contains_key(f1));
    lemma_entry_addr(m1, f1, l1);
    assert(pt0.owns(slot as int));
    assert(pt0.l1_entry(m1, l2, l1) == pt0.l1_entry(m0, l2, l1));
    if pt0.l1_entry(m0, l2, l1).spec_valid() {
        assert(pt0.l1_entry(m0, l2, l1).spec_dir());
    }
    lemma_install_l1(pt0, pt1, m1, m2, l2, l1, e);
    assert forall|x: u64| m1.contains(x) && b1.is_free(x as int) implies m2.word(x) == m1.word(
        x,
    ) by {
        assert(!pt0.owns(x as int));
    }
    b1.lemma_wf_frame(m1, m2);
    lemma_entry_addr(m2, f, 0);
    assert forall|s: int| 0 <= s < SLOTS implies #[trigger] pt1.has_l0(m2, s) == (pt0.has_l0(
        m0,
        s,
    ) || (l2_of(s) == l2 && l1_of(s) == l1)) by {
        assert(pt0.lookup(m1, s) == pt0.lookup(m0, s));
        assert(pt1.has_l0(m2, s) == (pt0.has_l0(m1, s) || (l2_of(s) == l2 && l1_of(s) == l1)));
    }
    assert forall|x: u64|
        m0.contains(x) && !b0.is_free(x as int) && !pt0.owns(x as int) implies m2.word(x)
        == m0.word(x) by {
        assert(m1.contains(x));
    }
    assert forall|s: int| 0 <= s < SLOTS implies #[trigger] pt1.mapping(m2, s) == pt0.mapping(
        m0,
        s,
    ) by {
        assert(pt0.lookup(m1, s) == pt0.lookup(m0, s));
        assert(pt1.mapping(m2, s) == pt0.mapping(m1, s));
    }
}

/// Whether the table in frame `g` has gone back to the buddy allocator when `free_dir`
/// stands before entry `l1` of the table under root entry `l2`: the tables under the
/// root entries before `l2`, and under the entries before `l1` of that table.
pub open spec fn freed_at(pt0: &PageTable, l2: int, l1: int, g: u64) -> bool {
    pt0.dirs@[g].0 < l2 || (pt0.dirs@[g].0 == l2 && 0 <= pt0.dirs@[g].1 < l1)
}

/// The free lists after `free_dir` has gone through the first `n` places of the tree.
/// The places are, for each root entry, the 512 entries of the table under it, and
/// then that table itself. At a place that holds a table the frame of the table is
/// freed.
pub open spec fn spec_free_tables(
    lists: Seq<Seq<u64>>,
    pt0: &PageTable,
    m0: &Memory,
    n: nat,
) -> Seq<Seq<u64>>
    decreases n,
{
    if n == 0 {
        lists
    } else {
        let before = spec_free_tables(lists, pt0, m0, (n - 1) as nat);
        let l2 = (n - 1) / 513;
        let l1 = (n - 1) % 513;
        if !pt0.entries@[l2].spec_dir() {
            before
        } else if l1 == 512 {
            crate::mm::buddy::buddy::spec_free(before, frame_addr(pt0.entries@[l2].spec_ppn()), 0)
        } else if pt0.l1_entry(m0, l2, l1).spec_dir() {
            crate::mm::buddy::buddy::spec_free(
                before,
                frame_addr(pt0.l1_entry(m0, l2, l1).spec_ppn()),
                0,
            )
        } else {
            before
        }
    }
}

/// Going through the places under a root entry that points to no table frees nothing.
pub proof fn lemma_free_tables_skip(
    lists: Seq<Seq<u64>>,
    pt0: &PageTable,
    m0: &Memory,
    l2: int,
    k: nat,
)
    requires
        0 <= l2 < 512,
        !pt0.entries@[l2].spec_dir(),
        k <= 513,
    ensures
        spec_free_tables(lists, pt0, m0, (l2 * 513 + k) as nat) == spec_free_tables(
            lists,
            pt0,
            m0,
            (l2 * 513) as nat,
        ),
    decreases k,
{
    if k > 0 {
        lemma_free_tables_skip(lists, pt0, m0, l2, (k - 1) as nat);
        let n = (l2 * 513 + k) as nat;
        assert((n - 1) / 513 == l2);
    }
}

/// What was free is free, and so are the tables that `free_dir` has passed when it
/// stands before entry `l1` of the table under root entry `l2`: the tables under the
/// root entries before `l2`, and under the entries before `l1` of that table.
pub open spec fn gone_back<const ORDER: usize>(
    pt0: &PageTable,
    m0: &Memory,
    b0: &Buddy<ORDER>,
    buddy: &Buddy<ORDER>,
    l2: int,
    l1: int,
) -> bool {
    &&& forall|x: int| b0.is_free(x) ==> buddy.is_free(x)
    &&& forall|k2: int, x: int|
        #![trigger pt0.entries@[k2], buddy.is_free(x)]
        0 <= k2 < l2 && pt0.entries@[k2].spec_dir() && in_page(pt0.entries@[k2].spec_ppn(), x)
            ==> buddy.is_free(x)
    &&& forall|k2: int, k1: int, x: int|
        #![trigger pt0.l1_entry(m0, k2, k1), buddy.is_free(x)]
        0 <= k2 < 512 && 0 <= k1 < 512 && (k2 < l2 || (k2 == l2 && k1 < l1))
            && pt0.entries@[k2].spec_dir() && pt0.l1_entry(m0, k2, k1).spec_dir() && in_page(
            pt0.l1_entry(m0, k2, k1).spec_ppn(),
            x,
        ) ==> buddy.is_free(x)
}

/// How memory and the buddy allocator stand while `free_dir` works: the tables that
/// have not gone back yet are not free and hold what they held, those that have are
/// free, nothing else is free that was not, and memory that was neither free nor a
/// table is untouched.
#[verifier::opaque]
pub open spec fn freeing<const ORDER: usize>(
    pt0: &PageTable,
    m0: &Memory,
    b0: &Buddy<ORDER>,
    mem: &Memory,
    buddy: &Buddy<ORDER>,
    l2: int,
    l1: int,
) -> bool {
    &&& pt0.wf(m0)
    &&& buddy.wf(mem)
    &&& mem.same_shape(m0)
    &&& 0 <= l2 <= 512
    &&& 0 <= l1 <= 512
    &&& buddy@ == spec_free_tables(b0@, pt0, m0, (l2 * 513 + l1) as nat)
    &&& forall|g: u64, x: int|
        #![trigger pt0.dirs@.contains_key(g), buddy.is_free(x)]
        pt0.dirs@.contains_key(g) && !freed_at(pt0, l2, l1, g) && in_page(g, x) ==> !buddy.is_free(
            x,
        )
    &&& forall|g: u64, i: int|
        pt0.dirs@.contains_key(g) && !freed_at(pt0, l2, l1, g) && 0 <= i < 512
            ==> #[trigger] entry_at(mem, g, i) == entry_at(m0, g, i)
    &&& forall|x: int| buddy.is_free(x) ==> b0.is_free(x) || pt0.owns(x)
    &&& forall|x: u64|
        m0.contains(x) && !b0.is_free(x as int) && !pt0.owns(x as int) ==> mem.word(x) == m0.word(x)
}

/// Before `free_dir` has freed anything.
pub proof fn lemma_freeing_start<const ORDER: usize>(pt0: &PageTable, m0: &Memory, b0: &Buddy<ORDER>)
    requires
        pt0.wf(m0),
        b0.wf(m0),
        pt0.clear_of(b0),
    ensures
        freeing(pt0, m0, b0, m0, b0, 0, 0),
{
    reveal(freeing);
    assert forall|g: u64, x: int|
        #![trigger pt0.dirs@.contains_key(g), b0.is_free(x)]
        pt0.dirs@.contains_key(g) && !freed_at(pt0, 0, 0, g) && in_page(g, x) implies !b0.is_free(
        x,
    ) by {
        assert(pt0.owns(x));
    }
}

/// Going on to a later entry without freeing anything.
pub proof fn lemma_freeing_mono<const ORDER: usize>(
    pt0: &PageTable,
    m0: &Memory,
    b0: &Buddy<ORDER>,
    mem: &Memory,
    buddy: &Buddy<ORDER>,
    l2: int,
    l1: int,
    n2: int,
    n1: int,
)
    requires
        freeing(pt0, m0, b0, mem, buddy, l2, l1),
        0 <= l2 < 512,
        (n2 == l2 && n1 == l1 + 1 && l1 < 512 && pt0.entries@[l2].spec_dir() && !pt0.l1_entry(
            m0,
            l2,
            l1,
        ).spec_dir()) || (n2 == l2 + 1 && n1 == 0 && l1 == 0 && !pt0.entries@[l2].spec_dir()),
    ensures
        freeing(pt0, m0, b0, mem, buddy, n2, n1),
{
    reveal(freeing);
    assert forall|g: u64| freed_at(pt0, l2, l1, g) implies freed_at(pt0, n2, n1, g) by {}
    if n2 == l2 {
        let n = (l2 * 513 + l1 + 1) as nat;
        assert((n - 1) / 513 == l2 && (n - 1) % 513 == l1);
    } else {
        lemma_free_tables_skip(b0@, pt0, m0, l2, 513);
    }
}

/// The table under a root entry that points to one has not gone back while `free_dir`
/// works under that entry: its entries are to be read as they were.
pub proof fn lemma_freeing_root<const ORDER: usize>(
    pt0: &PageTable,
    m0: &Memory,
    b0: &Buddy<ORDER>,
    mem: &Memory,
    buddy: &Buddy<ORDER>,
    l2: int,
)
    requires
        freeing(pt0, m0, b0, mem, buddy, l2, 0),
        0 <= l2 < 512,
        pt0.entries@[l2].spec_dir(),
    ensures
        pt0.dirs@.contains_key(pt0.entries@[l2].spec_ppn()),
        pt0.dirs@[pt0.entries@[l2].spec_ppn()] == (l2, -1int),
{
    reveal(freeing);
}

/// Entry `l1` of the table under root entry `l2` is a word of memory that holds what it
/// held.
pub proof fn lemma_freeing_entry<const ORDER: usize>(
    pt0: &PageTable,
    m0: &Memory,
    b0: &Buddy<ORDER>,
    mem: &Memory,
    buddy: &Buddy<ORDER>,
    l2: int,
    l1: int,
)
    requires
        freeing(pt0, m0, b0, mem, buddy, l2, l1),
        0 <= l2 < 512,
        0 <= l1 < 512,
        pt0.entries@[l2].spec_dir(),
    ensures
        mem.wf(),
        mem.contains(entry_addr(pt0.entries@[l2].spec_ppn(), l1)),
        entry_addr(pt0.entries@[l2].spec_ppn(), l1) == pt0.entries@[l2].spec_ppn() * 4096 + PAGE_OFF
            + 8 * l1,
        PTE(mem.word(entry_addr(pt0.entries@[l2].spec_ppn(), l1))) == pt0.l1_entry(m0, l2, l1),
{
    reveal(freeing);
    let f1 = pt0.entries@[l2].spec_ppn();
    assert(pt0.dirs@.contains_key(f1));
    assert(pt0.dirs@[f1] == (l2, -1int));
    assert(!freed_at(pt0, l2, l1, f1));
    lemma_entry_addr(m0, f1, l1);
    assert(entry_at(mem, f1, l1) == entry_at(m0, f1, l1));
}

/// A table that is next to go back, the one under entry `l1` of the table under root
/// entry `l2` or, with `l1` at 512, that table itself, is a page of memory that shares
/// no byte with a free run.
pub proof fn lemma_freeing_table<const ORDER: usize>(
    pt0: &PageTable,
    m0: &Memory,
    b0: &Buddy<ORDER>,
    mem: &Memory,
    buddy: &Buddy<ORDER>,
    l2: int,
    l1: int,
    f: u64,
)
    requires
        freeing(pt0, m0, b0, mem, buddy, l2, l1),
        0 <= l2 < 512,
        0 <= l1 <= 512,
        pt0.entries@[l2].spec_dir(),
        if l1 == 512 {
            f == pt0.entries@[l2].spec_ppn()
        } else {
            pt0.l1_entry(m0, l2, l1).spec_dir() && f == pt0.l1_entry(m0, l2, l1).spec_ppn()
        },
    ensures
        pt0.dirs@.contains_key(f),
        pt0.dirs@[f] == (l2, if l1 == 512 { -1int } else { l1 }),
        frame_run_ok(mem, f, 0),
        buddy.clear_of(frame_addr(f), 0),
        buddy.wf(mem),
        frame_addr(f) == f * 4096 + PAGE_OFF,
{
    reveal(freeing);
    assert(pt0.dirs@.contains_key(f));
    assert(!freed_at(pt0, l2, l1, f));
    assert(frame_run_ok(m0, f, 0));
    lemma_frame_run(mem, f, 0);
    lemma_run_bytes(0);
    vstd::arithmetic::power2::lemma2_to64();
    assert forall|x: int| frame_addr(f) <= x < frame_addr(f) + run_bytes(0) implies !buddy.is_free(
        x,
    ) by {
        assert(in_page(f, x));
    }
    buddy.lemma_clear_from_free(mem, frame_addr(f), 0);
}

/// After the table in frame `f` has gone back.
pub proof fn lemma_freeing_step<const ORDER: usize>(
    pt0: &PageTable,
    m0: &Memory,
    b0: &Buddy<ORDER>,
    m1: &Memory,
    b1: &Buddy<ORDER>,
    m2: &Memory,
    b2: &Buddy<ORDER>,
    l2: int,
    l1: int,
    f: u64,
    n2: int,
    n1: int,
)
    requires
        freeing(pt0, m0, b0, m1, b1, l2, l1),
        pt0.dirs@.contains_key(f),
        pt0.dirs@[f] == (l2, if l1 == 512 { -1int } else { l1 }),
        0 <= l1 <= 512,
        (l1 < 512 && n2 == l2 && n1 == l1 + 1) || (l1 == 512 && n2 == l2 + 1 && n1 == 0),
        0 <= l2 < 512,
        pt0.entries@[l2].spec_dir(),
        if l1 == 512 {
            f == pt0.entries@[l2].spec_ppn()
        } else {
            pt0.l1_entry(m0, l2, l1).spec_dir() && f == pt0.l1_entry(m0, l2, l1).spec_ppn()
        },
        b2@ == crate::mm::buddy::buddy::spec_free(b1@, frame_addr(f), 0),
        b2.wf(m2),
        m2.same_shape(m1),
        frame_addr(f) == f * 4096 + PAGE_OFF,
        forall|x: int|
            b2.is_free(x) ==> b1.is_free(x) || frame_addr(f) <= x < frame_addr(f) + run_bytes(0),
        forall|x: u64|
            m1.contains(x) && !b1.is_free(x as int) && !(frame_addr(f) <= x < frame_addr(f)
                + run_bytes(0)) ==> m2.word(x) == m1.word(x),
    ensures
        freeing(pt0, m0, b0, m2, b2, n2, n1),
{
    reveal(freeing);
    lemma_run_bytes(0);
    vstd::arithmetic::power2::lemma2_to64();
    assert(run_bytes(0) == 4096);
    let n = (l2 * 513 + l1 + 1) as nat;
    assert((n - 1) / 513 == l2 && (n - 1) % 513 == l1);
    assert(n == n2 * 513 + n1);
    assert forall|g: u64| pt0.dirs@.contains_key(g) && !freed_at(pt0, n2, n1, g) implies !freed_at(
        pt0,
        l2,
        l1,
        g,
    ) && g != f by {}
    assert forall|g: u64, x: int|
        #![trigger pt0.dirs@.contains_key(g), b2.is_free(x)]
        pt0.dirs@.contains_key(g) && !freed_at(pt0, n2, n1, g) && in_page(g, x) implies !b2.is_free(
        x,
    ) by {
        assert(!freed_at(pt0, l2, l1, g) && g != f);
        assert(!b1.is_free(x));
    }
    assert forall|g: u64, i: int|
        pt0.dirs@.contains_key(g) && !freed_at(pt0, n2, n1, g) && 0 <= i
            < 512 implies #[trigger] entry_at(m2, g, i) == entry_at(m0, g, i) by {
        assert(!freed_at(pt0, l2, l1, g) && g != f);
        assert(frame_run_ok(m0, g, 0));
        lemma_entry_addr(m0, g, i);
        let a = entry_addr(g, i);
        assert(in_page(g, a as int));
        assert(!b1.is_free(a as int));
        assert(entry_at(m1, g, i) == entry_at(m0, g, i));
    }
    assert forall|x: int| b2.is_free(x) implies b0.is_free(x) || pt0.owns(x) by {
        if !b1.is_free(x) {
            assert(in_page(f, x));
        }
    }
    assert forall|x: u64|
        m0.contains(x) && !b0.is_free(x as int) && !pt0.owns(x as int) implies m2.word(x)
        == m0.word(x) by {
        assert(m1.contains(x));
        if in_page(f, x as int) {
            assert(pt0.owns(x as int));
        }
    }
}

/// Passing a place that holds no table leaves free what has gone back.
pub proof fn lemma_gone_mono<const ORDER: usize>(
    pt0: &PageTable,
    m0: &Memory,
    b0: &Buddy<ORDER>,
    buddy: &Buddy<ORDER>,
    l2: int,
    l1: int,
    n2: int,
    n1: int,
)
    requires
        gone_back(pt0, m0, b0, buddy, l2, l1),
        0 <= l2 < 512,
        (n2 == l2 && n1 == l1 + 1 && 0 <= l1 < 512 && pt0.entries@[l2].spec_dir() && !pt0.l1_entry(
            m0,
            l2,
            l1,
        ).spec_dir()) || (n2 == l2 + 1 && n1 == 0 && l1 == 0 && !pt0.entries@[l2].spec_dir()),
    ensures
        gone_back(pt0, m0, b0, buddy, n2, n1),
{
}

/// With the table in frame `f` gone back, which stands at the place that `free_dir` has
/// come to, the tables up to the next place are free.
pub proof fn lemma_gone_step<const ORDER: usize>(
    pt0: &PageTable,
    m0: &Memory,
    b0: &Buddy<ORDER>,
    b1: &Buddy<ORDER>,
    b2: &Buddy<ORDER>,
    l2: int,
    l1: int,
    f: u64,
    n2: int,
    n1: int,
)
    requires
        gone_back(pt0, m0, b0, b1, l2, l1),
        0 <= l1 <= 512,
        (l1 < 512 && n2 == l2 && n1 == l1 + 1) || (l1 == 512 && n2 == l2 + 1 && n1 == 0),
        0 <= l2 < 512,
        pt0.entries@[l2].spec_dir(),
        if l1 == 512 {
            f == pt0.entries@[l2].spec_ppn()
        } else {
            pt0.l1_entry(m0, l2, l1).spec_dir() && f == pt0.l1_entry(m0, l2, l1).spec_ppn()
        },
        forall|x: int| b1.is_free(x) || in_page(f, x) ==> b2.is_free(x),
    ensures
        gone_back(pt0, m0, b0, b2, n2, n1),
{
    assert forall|k2: int, x: int|
        #![trigger pt0.entries@[k2], b2.is_free(x)]
        0 <= k2 < n2 && pt0.entries@[k2].spec_dir() && in_page(
            pt0.entries@[k2].spec_ppn(),
            x,
        ) implies b2.is_free(x) by {
        if k2 < l2 {
            assert(b1.is_free(x));
        }
    }
    assert forall|k2: int, k1: int, x: int|
        #![trigger pt0.l1_entry(m0, k2, k1), b2.is_free(x)]
        0 <= k2 < 512 && 0 <= k1 < 512 && (k2 < n2 || (k2 == n2 && k1 < n1))
            && pt0.entries@[k2].spec_dir() && pt0.l1_entry(m0, k2, k1).spec_dir() && in_page(
            pt0.l1_entry(m0, k2, k1).spec_ppn(),
            x,
        ) implies b2.is_free(x) by {
        if k2 < l2 || (k2 == l2 && k1 < l1) {
            assert(b1.is_free(x));
        }
    }
}

/// When `free_dir` is done: the cleared tree is in order and owns nothing.
pub proof fn lemma_freeing_end<const ORDER: usize>(
    pt0: &PageTable,
    m0: &Memory,
    b0: &Buddy<ORDER>,
    mem: &Memory,
    buddy: &Buddy<ORDER>,
    pt: &PageTable,
)
    requires
        freeing(pt0, m0, b0, mem, buddy, 512, 0),
        forall|k: int| 0 <= k < 512 ==> pt.entries@[k].0 == 0,
        pt.dirs@ == Map::<u64, (int, int)>::empty(),
    ensures
        pt.wf(mem),
        buddy.wf(mem),
        pt.clear_of(buddy),
        mem.same_shape(m0),
        buddy@ == spec_free_tables(b0@, pt0, m0, 512 * 513),
        forall|s: int| 0 <= s < SLOTS ==> pt.mapping(mem, s) is None,
        forall|x: int| buddy.is_free(x) ==> b0.is_free(x) || pt0.owns(x),
        forall|x: u64|
            m0.contains(x) && !b0.is_free(x as int) && !pt0.owns(x as int) ==> mem.word(x)
                == m0.word(x),
{
    reveal(freeing);
    assert forall|s: int| 0 <= s < SLOTS implies pt.mapping(mem, s) is None by {
        assert(pt.entries@[l2_of(s)].0 == 0);
    }
    assert forall|l2: int| 0 <= l2 < 512 implies !(#[trigger] pt.entries@[l2]).spec_valid() by {
        assert(pt.entries@[l2].0 == 0);
    }
}

/// The mode field of the address-translation register for Sv39.
pub const SV39_MODE: u64 = 8;

/// The pages that mapping the addresses from `start` up to `end` goes through.
pub open spec fn segment_pages(start: VirtualAddr, end: VirtualAddr) -> int {
    spec_pages(start, (end.0 - start.0) as u64)
}

/// The translation `m` with the addresses from `start` up to `end` of the kernel half
/// mapped on top, to the physical addresses that the linear map gives them.
pub open spec fn spec_map_segment(
    m: Map<int, PTE>,
    start: VirtualAddr,
    end: VirtualAddr,
    flags: Flags,
) -> Map<int, PTE> {
    spec_map(
        m,
        (start.0 / 4096) as u64,
        ((start.0 - PAGE_OFF) / 4096) as u64,
        flags,
        segment_pages(start, end),
    )
}

/// The virtual page at which mapping gave up.
pub open spec fn failed_page(e: MapError) -> u64 {
    match e {
        MapError::Remap(v) => v.0,
        MapError::NoMemory(v) => v.0,
    }
}

/// `t` is the translation `m` after mapping the addresses from `start` up to `end` gave
/// up with `e`: the pages before the one at which it gave up are mapped on top.
pub open spec fn segment_failed(
    m: Map<int, PTE>,
    t: Map<int, PTE>,
    start: VirtualAddr,
    end: VirtualAddr,
    flags: Flags,
    e: MapError,
) -> bool {
    &&& start.0 / 4096 <= failed_page(e) < start.0 / 4096 + segment_pages(start, end)
    &&& t == spec_map(
        m,
        (start.0 / 4096) as u64,
        ((start.0 - PAGE_OFF) / 4096) as u64,
        flags,
        failed_page(e) - start.0 / 4096,
    )
}

/// `t` is the translation `m` after mapping the segments of the kernel gave up with `e`:
/// the segments before the one in which it gave up are mapped on top, and of that one
/// the pages before the one at which it gave up.
pub open spec fn kernel_failed(
    m: Map<int, PTE>,
    t: Map<int, PTE>,
    text_start: VirtualAddr,
    rodata_start: VirtualAddr,
    data_start: VirtualAddr,
    bss_start: VirtualAddr,
    kernel_end: VirtualAddr,
    mem_end: VirtualAddr,
    e: MapError,
) -> bool {
    let m1 = spec_map_segment(m, text_start, rodata_start, Flags(10));
    let m2 = spec_map_segment(m1, rodata_start, data_start, Flags(2));
    let m3 = spec_map_segment(m2, data_start, bss_start, Flags(6));
    let m4 = spec_map_segment(m3, bss_start, kernel_end, Flags(6));
    ||| segment_failed(m, t, text_start, rodata_start, Flags(10), e)
    ||| segment_failed(m1, t, rodata_start, data_start, Flags(2), e)
    ||| segment_failed(m2, t, data_start, bss_start, Flags(6), e)
    ||| segment_failed(m3, t, bss_start, kernel_end, Flags(6), e)
    ||| segment_failed(m4, t, kernel_end, mem_end, Flags(6), e)
}

/// The translation `m` with the five segments of the kernel mapped on top.
pub open spec fn spec_map_kernel(
    m: Map<int, PTE>,
    text_start: VirtualAddr,
    rodata_start: VirtualAddr,
    data_start: VirtualAddr,
    bss_start: VirtualAddr,
    kernel_end: VirtualAddr,
    mem_end: VirtualAddr,
) -> Map<int, PTE> {
    spec_map_segment(
        spec_map_segment(
            spec_map_segment(
                spec_map_segment(
                    spec_map_segment(m, text_start, rodata_start, Flags(10)),
                    rodata_start,
                    data_start,
                    Flags(2),
                ),
                data_start,
                bss_start,
                Flags(6),
            ),
            bss_start,
            kernel_end,
            Flags(6),
        ),
        kernel_end,
        mem_end,
        Flags(6),
    )
}

/// Why `try_map` gave up.
#[derive(Clone, Copy, PartialEq, Eq, Structural, Debug)]
pub enum MapError {
    /// The entry of this virtual page was valid already.
    Remap(PageFrame),
    /// The allocator had no frame for a table on the way to this virtual page.
    NoMemory(PageFrame),
}

/// The pages that `try_map` and `map` go through for `sz` bytes at `va`: from the page of `va` up to
/// the page boundary at or after `va + sz`.
pub open spec fn spec_pages(va: VirtualAddr, sz: u64) -> int {
    (va.0 + sz + 4095) / 4096 - va.0 / 4096
}

/// How far slot `s` lies after slot `start`, going round at the last slot.
pub open spec fn range_index(start: int, s: int) -> int {
    (s - start + SLOTS) % (SLOTS as int)
}

/// The entry that maps a page to frame `ppn` with `flags`: the flags, V, and the number.
pub open spec fn leaf_pte(ppn: u64, flags: Flags) -> PTE {
    PTE(super::pte::spec_pte(ppn, flags.0 | 1))
}

/// The second tree maps what the first one does and, on top of that, the `n` pages
/// from virtual page `start` on to the frames from `ppf0` on, with `flags`.
#[verifier::opaque]
pub open spec fn mapped_prefix(
    pt0: &PageTable,
    m0: &Memory,
    pt1: &PageTable,
    m1: &Memory,
    start: u64,
    ppf0: u64,
    flags: Flags,
    n: int,
) -> bool {
    forall|s: int|
        0 <= s < SLOTS ==> #[trigger] pt1.mapping(m1, s) == (if range_index(slot_of(start), s)
            < n {
            Some(leaf_pte((ppf0 + range_index(slot_of(start), s)) as u64, flags))
        } else {
            pt0.mapping(m0, s)
        })
}

/// The translation `m` with the `n` pages from virtual page `start` on mapped on top,
/// to the frames from `ppf0` on, with `flags`.
pub open spec fn spec_map(m: Map<int, PTE>, start: u64, ppf0: u64, flags: Flags, n: int) -> Map<
    int,
    PTE,
> {
    Map::new(
        |s: int| 0 <= s < SLOTS && (range_index(slot_of(start), s) < n || m.contains_key(s)),
        |s: int|
            if range_index(slot_of(start), s) < n {
                leaf_pte((ppf0 + range_index(slot_of(start), s)) as u64, flags)
            } else {
                m[s]
            },
    )
}

/// The pages mapped on top, said of the translations of the two trees.
pub proof fn lemma_prefix_interp(
    pt0: &PageTable,
    m0: &Memory,
    pt1: &PageTable,
    m1: &Memory,
    start: u64,
    ppf0: u64,
    flags: Flags,
    n: int,
)
    requires
        mapped_prefix(pt0, m0, pt1, m1, start, ppf0, flags, n),
    ensures
        pt1.interp(m1) == spec_map(pt0.interp(m0), start, ppf0, flags, n),
{
    reveal(mapped_prefix);
    let a = pt1.interp(m1);
    let b = spec_map(pt0.interp(m0), start, ppf0, flags, n);
    assert forall|s: int| a.contains_key(s) <==> b.contains_key(s) by {
        if 0 <= s < SLOTS {
            assert(pt1.mapping(m1, s) == (if range_index(slot_of(start), s) < n {
                Some(leaf_pte((ppf0 + range_index(slot_of(start), s)) as u64, flags))
            } else {
                pt0.mapping(m0, s)
            }));
        }
    }
    assert forall|s: int| a.contains_key(s) implies a[s] == b[s] by {
        assert(pt1.mapping(m1, s) == (if range_index(slot_of(start), s) < n {
            Some(leaf_pte((ppf0 + range_index(slot_of(start), s)) as u64, flags))
        } else {
            pt0.mapping(m0, s)
        }));
    }
    assert(a =~= b);
}

/// Nothing mapped on top is the mapping as it was.
pub proof fn lemma_prefix_zero(pt: &PageTable, m: &Memory, start: u64, ppf0: u64, flags: Flags)
    ensures
        mapped_prefix(pt, m, pt, m, start, ppf0, flags, 0),
{
    reveal(mapped_prefix);
    assert forall|s: int| 0 <= s < SLOTS implies range_index(slot_of(start), s) >= 0 by {}
}

/// Pages mapped on top with one of R, W and X are mapped by leaves.
pub proof fn lemma_prefix_leaves(
    pt0: &PageTable,
    m0: &Memory,
    pt1: &PageTable,
    m1: &Memory,
    start: u64,
    ppf0: u64,
    flags: Flags,
    n: int,
)
    requires
        mapped_prefix(pt0, m0, pt1, m1, start, ppf0, flags, n),
        flags.0 & 0x0e != 0,
        pt0.leaves_ok(m0),
        ppf0 + n <= MAX_PPN + 1,
    ensures
        pt1.leaves_ok(m1),
{
    reveal(mapped_prefix);
    let fb = flags.0;
    assert(((fb | 1) & 1 == 1) && ((fb | 1) & 0x0e == fb & 0x0e)) by (bit_vector);
    assert forall|s: int| 0 <= s < SLOTS && (#[trigger] pt1.mapping(m1, s)) is Some implies pt1.mapping(
        m1,
        s,
    ).unwrap().spec_leaf() by {
        let k = range_index(slot_of(start), s);
        if k < n {
            lemma_word((ppf0 + k) as u64, fb | 1);
        } else {
            assert(pt0.mapping(m0, s) is Some);
        }
    }
}

/// None of the `n` pages from virtual page `start` on is mapped.
pub open spec fn unmapped_before(pt: &PageTable, m: &Memory, start: u64, n: int) -> bool {
    forall|j: int| 0 <= j < n ==> (#[trigger] pt.mapping(m, slot_of((start + j) as u64))) is None
}

/// Translation `m` maps none of the `n` pages from virtual page `start` on.
pub open spec fn range_free(m: Map<int, PTE>, start: u64, n: int) -> bool {
    forall|s: int| 0 <= s < SLOTS && range_index(slot_of(start), s) < n ==> !m.contains_key(s)
}

/// Pages that the translation of a tree does not map are not mapped in the tree.
pub proof fn lemma_range_free(pt: &PageTable, mem: &Memory, start: u64, n: int)
    requires
        range_free(pt.interp(mem), start, n),
        0 <= n <= SLOTS,
        start + n <= u64::MAX,
    ensures
        unmapped_before(pt, mem, start, n),
{
    assert forall|j: int| 0 <= j < n implies (#[trigger] pt.mapping(
        mem,
        slot_of((start + j) as u64),
    )) is None by {
        let s = slot_of((start + j) as u64);
        lemma_range_index(start, j, s);
        assert(j % (SLOTS as int) == j);
        assert(!pt.interp(mem).contains_key(s));
    }
}

/// Translation `t` maps what `m` maps and, of the pages from virtual page `base` on, the
/// first `off` at most.
pub open spec fn maps_below(m: Map<int, PTE>, t: Map<int, PTE>, base: u64, off: int) -> bool {
    forall|s: int|
        t.contains_key(s) ==> m.contains_key(s) || (0 <= s < SLOTS && range_index(
            slot_of(base),
            s,
        ) < off)
}

/// A slot among the `n` pages from page `base + off` on lies that much further after
/// the slot of page `base`.
pub proof fn lemma_sub_range(base: u64, off: int, n: int, total: int, s: int)
    requires
        0 <= off,
        0 <= n,
        off + n <= total <= SLOTS,
        base + total <= u64::MAX,
        0 <= s < SLOTS,
        range_index(slot_of((base + off) as u64), s) < n,
    ensures
        range_index(slot_of(base), s) == off + range_index(slot_of((base + off) as u64), s),
{
    let j = range_index(slot_of((base + off) as u64), s);
    lemma_range_index((base + off) as u64, j, s);
    assert(j % (SLOTS as int) == j);
    lemma_range_index(base, off + j, s);
    assert((off + j) % (SLOTS as int) == off + j);
}

/// One step of mapping a run of pages piece by piece: where nothing of the run is mapped
/// at first and the pieces so far cover its first `off` pages at most, the next `n`
/// pages are free, and with them mapped the first `off + n` pages are covered at most.
pub proof fn lemma_stage_free(
    m: Map<int, PTE>,
    t: Map<int, PTE>,
    base: u64,
    off: int,
    n: int,
    total: int,
    ppf0: u64,
    flags: Flags,
)
    requires
        0 <= off,
        0 <= n,
        off + n <= total <= SLOTS,
        base + total <= u64::MAX,
        range_free(m, base, total),
        maps_below(m, t, base, off),
    ensures
        range_free(t, (base + off) as u64, n),
        maps_below(m, spec_map(t, (base + off) as u64, ppf0, flags, n), base, off + n),
{
    assert forall|s: int|
        0 <= s < SLOTS && range_index(slot_of((base + off) as u64), s) < n implies !t.contains_key(
        s,
    ) by {
        lemma_sub_range(base, off, n, total, s);
    }
    let u = spec_map(t, (base + off) as u64, ppf0, flags, n);
    assert forall|s: int| u.contains_key(s) implies m.contains_key(s) || (0 <= s < SLOTS
        && range_index(slot_of(base), s) < off + n) by {
        if range_index(slot_of((base + off) as u64), s) < n {
            lemma_sub_range(base, off, n, total, s);
        }
    }
}

/// How a tree, memory and the allocator stand after the first `off` pages of the run
/// from virtual page `base` on were mapped piece by piece: no other page is mapped
/// that was not, the tables on the way to those pages are there, and their frames are
/// taken.
pub open spec fn staged<const ORDER: usize>(
    pt0: &PageTable,
    m0: &Memory,
    b0: &Buddy<ORDER>,
    pt: &PageTable,
    m: &Memory,
    b: &Buddy<ORDER>,
    base: u64,
    off: int,
) -> bool {
    &&& maps_below(pt0.interp(m0), pt.interp(m), base, off)
    &&& tables_after(pt0, m0, pt, m, base, off)
    &&& total_frames(b@) == total_frames(b0@) - tables_for(pt0, m0, base, off)
}

/// Where a run of pages can be mapped and its first `off` pages are, the `n` pages after
/// them can be mapped.
pub proof fn lemma_stage_can<const ORDER: usize>(
    pt0: &PageTable,
    m0: &Memory,
    b0: &Buddy<ORDER>,
    pt: &PageTable,
    m: &Memory,
    b: &Buddy<ORDER>,
    base: u64,
    off: int,
    n: int,
    total: int,
)
    requires
        can_map(pt0, m0, b0, base, total),
        staged(pt0, m0, b0, pt, m, b, base, off),
        0 <= off,
        0 <= n,
        off + n <= total,
        base + total <= u64::MAX,
    ensures
        can_map(pt, m, b, (base + off) as u64, n),
{
    lemma_unmapped_free(pt0, m0, base, total);
    lemma_stage_free(pt0.interp(m0), pt.interp(m), base, off, n, total, 0, Flags(0));
    lemma_range_free(pt, m, (base + off) as u64, n);
    lemma_tables_add(pt0, m0, pt, m, base, off, n);
    lemma_tables_mono(pt0, m0, base, off + n, total);
}

/// With the `n` pages after the first `off` of a run mapped, the first `off + n` are.
pub proof fn lemma_stage_done<const ORDER: usize>(
    pt0: &PageTable,
    m0: &Memory,
    b0: &Buddy<ORDER>,
    pt: &PageTable,
    m: &Memory,
    b: &Buddy<ORDER>,
    pt2: &PageTable,
    m2: &Memory,
    b2: &Buddy<ORDER>,
    base: u64,
    off: int,
    n: int,
    total: int,
    ppf0: u64,
    flags: Flags,
)
    requires
        can_map(pt0, m0, b0, base, total),
        staged(pt0, m0, b0, pt, m, b, base, off),
        0 <= off,
        0 <= n,
        off + n <= total,
        base + total <= u64::MAX,
        pt2.interp(m2) == spec_map(pt.interp(m), (base + off) as u64, ppf0, flags, n),
        tables_after(pt, m, pt2, m2, (base + off) as u64, n),
        total_frames(b2@) == total_frames(b@) - tables_for(pt, m, (base + off) as u64, n),
    ensures
        staged(pt0, m0, b0, pt2, m2, b2, base, off + n),
{
    lemma_unmapped_free(pt0, m0, base, total);
    lemma_stage_free(pt0.interp(m0), pt.interp(m), base, off, n, total, ppf0, flags);
    lemma_tables_add(pt0, m0, pt, m, base, off, n);
    lemma_tables_compose(pt0, m0, pt, m, pt2, m2, base, off, n);
}

/// The pages of the segments of a kernel whose inner boundaries are page aligned follow
/// one another.
pub proof fn lemma_kernel_pages(
    text_start: VirtualAddr,
    rodata_start: VirtualAddr,
    data_start: VirtualAddr,
    bss_start: VirtualAddr,
    kernel_end: VirtualAddr,
    mem_end: VirtualAddr,
)
    requires
        PAGE_OFF <= text_start.0 <= rodata_start.0 <= data_start.0 <= bss_start.0 <= kernel_end.0
            <= mem_end.0 <= u64::MAX - 4095,
        rodata_start.0 % 4096 == 0,
        data_start.0 % 4096 == 0,
        bss_start.0 % 4096 == 0,
        kernel_end.0 % 4096 == 0,
    ensures
        rodata_start.0 / 4096 == text_start.0 / 4096 + segment_pages(text_start, rodata_start),
        data_start.0 / 4096 == rodata_start.0 / 4096 + segment_pages(rodata_start, data_start),
        bss_start.0 / 4096 == data_start.0 / 4096 + segment_pages(data_start, bss_start),
        kernel_end.0 / 4096 == bss_start.0 / 4096 + segment_pages(bss_start, kernel_end),
        segment_pages(text_start, mem_end) == segment_pages(text_start, rodata_start)
            + segment_pages(rodata_start, data_start) + segment_pages(data_start, bss_start)
            + segment_pages(bss_start, kernel_end) + segment_pages(kernel_end, mem_end),
        0 <= segment_pages(text_start, rodata_start),
        0 <= segment_pages(rodata_start, data_start),
        0 <= segment_pages(data_start, bss_start),
        0 <= segment_pages(bss_start, kernel_end),
        0 <= segment_pages(kernel_end, mem_end),
        text_start.0 / 4096 + segment_pages(text_start, mem_end) <= u64::MAX,
{
}

/// With `i` pages mapped on top, less than there are slots, the next page of the
/// range is mapped as it was before.
pub proof fn lemma_prefix_at(
    pt0: &PageTable,
    m0: &Memory,
    pt1: &PageTable,
    m1: &Memory,
    start: u64,
    ppf0: u64,
    flags: Flags,
    i: int,
    n: int,
)
    requires
        mapped_prefix(pt0, m0, pt1, m1, start, ppf0, flags, i),
        0 <= i < n,
        start + i <= u64::MAX,
    ensures
        n <= SLOTS ==> pt1.mapping(m1, slot_of((start + i) as u64)) == pt0.mapping(
            m0,
            slot_of((start + i) as u64),
        ),
{
    reveal(mapped_prefix);
    if n <= SLOTS {
        let si = slot_of((start + i) as u64);
        lemma_range_index(start, i, si);
    }
}

/// A step that maps nothing new keeps the pages that were mapped on top.
pub proof fn lemma_prefix_same(
    pt0: &PageTable,
    m0: &Memory,
    pt1: &PageTable,
    m1: &Memory,
    pt2: &PageTable,
    m2: &Memory,
    start: u64,
    ppf0: u64,
    flags: Flags,
    n: int,
)
    requires
        mapped_prefix(pt0, m0, pt1, m1, start, ppf0, flags, n),
        same_mapping(pt1, m1, pt2, m2),
    ensures
        mapped_prefix(pt0, m0, pt2, m2, start, ppf0, flags, n),
{
    reveal(mapped_prefix);
    assert forall|s: int| 0 <= s < SLOTS implies #[trigger] pt2.mapping(m2, s) == (if range_index(
        slot_of(start),
        s,
    ) < n {
        Some(leaf_pte((ppf0 + range_index(slot_of(start), s)) as u64, flags))
    } else {
        pt0.mapping(m0, s)
    }) by {
        assert(pt2.mapping(m2, s) == pt1.mapping(m1, s));
    }
}

/// Whatever is mapped after `i` of `n` pages were mapped on top was mapped before or
/// lies among the `n` pages.
pub proof fn lemma_prefix_origin(
    pt0: &PageTable,
    m0: &Memory,
    pt1: &PageTable,
    m1: &Memory,
    start: u64,
    ppf0: u64,
    flags: Flags,
    i: int,
    n: int,
)
    requires
        mapped_prefix(pt0, m0, pt1, m1, start, ppf0, flags, i),
        i <= n,
    ensures
        forall|s: int|
            0 <= s < SLOTS && pt1.mapping(m1, s) is Some ==> pt0.mapping(m0, s) is Some
                || range_index(slot_of(start), s) < n,
{
    reveal(mapped_prefix);
    assert forall|s: int| 0 <= s < SLOTS && pt1.mapping(m1, s) is Some implies pt0.mapping(
        m0,
        s,
    ) is Some || range_index(slot_of(start), s) < n by {
        assert(pt1.mapping(m1, s) == (if range_index(slot_of(start), s) < i {
            Some(leaf_pte((ppf0 + range_index(slot_of(start), s)) as u64, flags))
        } else {
            pt0.mapping(m0, s)
        }));
    }
}

/// How far the slot of page `start + i` lies after the slot of page `start`.
pub proof fn lemma_range_index(start: u64, i: int, s: int)
    requires
        0 <= i <= SLOTS,
        start + i <= u64::MAX,
        0 <= s < SLOTS,
    ensures
        range_index(slot_of(start), slot_of((start + i) as u64)) == i % (SLOTS as int),
        0 <= range_index(slot_of(start), s) < SLOTS,
        range_index(slot_of(start), s) == i % (SLOTS as int) ==> s == slot_of((start + i) as u64),
{
    let a = start as int % 0x800_0000;
    let q = start as int / 0x800_0000;
    assert(start == q * 0x800_0000 + a);
    let t = (start + i) % 0x800_0000;
    if i == 0x800_0000 {
        assert(start + i == (q + 1) * 0x800_0000 + a);
        assert(t == a);
    } else if a + i < 0x800_0000 {
        assert(start + i == q * 0x800_0000 + (a + i));
        assert(t == a + i);
    } else {
        assert(start + i == (q + 1) * 0x800_0000 + (a + i - 0x800_0000));
        assert(t == a + i - 0x800_0000);
    }
}

/// Writing a valid entry for the next page of the range maps one page more.
pub proof fn lemma_prefix_step(
    pt0: &PageTable,
    m0: &Memory,
    pt1: &PageTable,
    m1: &Memory,
    pt2: &PageTable,
    m2: &Memory,
    start: u64,
    ppf0: u64,
    flags: Flags,
    i: int,
    e: PTE,
)
    requires
        mapped_prefix(pt0, m0, pt1, m1, start, ppf0, flags, i),
        0 <= i <= SLOTS,
        start + i <= u64::MAX,
        ppf0 + i <= MAX_PPN,
        pt1.mapping(m1, slot_of((start + i) as u64)) is None,
        e == leaf_pte((ppf0 + i) as u64, flags),
        forall|s: int|
            0 <= s < SLOTS ==> #[trigger] pt2.mapping(m2, s) == (if s == slot_of(
                (start + i) as u64,
            ) {
                Some(e)
            } else {
                pt1.mapping(m1, s)
            }),
    ensures
        i < SLOTS,
        mapped_prefix(pt0, m0, pt2, m2, start, ppf0, flags, i + 1),
        pt0.mapping(m0, slot_of((start + i) as u64)) is None,
{
    reveal(mapped_prefix);
    let si = slot_of((start + i) as u64);
    lemma_range_index(start, i, si);
    assert(pt1.mapping(m1, si) == (if range_index(slot_of(start), si) < i {
        Some(leaf_pte((ppf0 + range_index(slot_of(start), si)) as u64, flags))
    } else {
        pt0.mapping(m0, si)
    }));
    assert(i < SLOTS);
    assert forall|s: int| 0 <= s < SLOTS implies #[trigger] pt2.mapping(m2, s) == (if range_index(
        slot_of(start),
        s,
    ) < i + 1 {
        Some(leaf_pte((ppf0 + range_index(slot_of(start), s)) as u64, flags))
    } else {
        pt0.mapping(m0, s)
    }) by {
        lemma_range_index(start, i, s);
        assert(pt1.mapping(m1, s) == (if range_index(slot_of(start), s) < i {
            Some(leaf_pte((ppf0 + range_index(slot_of(start), s)) as u64, flags))
        } else {
            pt0.mapping(m0, s)
        }));
    }
}

/// Writing a valid entry into the level-0 entry of slot `s` maps that slot by it and
/// leaves every other slot, the tree and the allocator as they are.
pub proof fn lemma_write_leaf<const ORDER: usize>(
    pt: &PageTable,
    m1: &Memory,
    m2: &Memory,
    b: &Buddy<ORDER>,
    s: int,
    e: PTE,
)
    requires
        pt.wf(m1),
        b.wf(m1),
        pt.clear_of(b),
        0 <= s < SLOTS,
        pt.lookup(m1, s) is Some,
        e.spec_valid(),
        m2.wf(),
        m2.same_shape(m1),
        m2.word(entry_addr(pt.l1_entry(m1, l2_of(s), l1_of(s)).spec_ppn(), l0_of(s))) == e.0,
        forall|x: u64|
            m1.contains(x) && x != entry_addr(
                pt.l1_entry(m1, l2_of(s), l1_of(s)).spec_ppn(),
                l0_of(s),
            ) ==> m2.word(x) == m1.word(x),
    ensures
        grows(pt, m1, b, pt, m2, b, 0),
        forall|t: int|
            0 <= t < SLOTS ==> #[trigger] pt.mapping(m2, t) == (if t == s {
                Some(e)
            } else {
                pt.mapping(m1, t)
            }),
        forall|t: int| 0 <= t < SLOTS ==> #[trigger] pt.has_l0(m2, t) == pt.has_l0(m1, t),
{
    reveal(grows);
    let l2 = l2_of(s);
    let l1 = l1_of(s);
    let l0 = l0_of(s);
    let f1 = pt.entries@[l2].spec_ppn();
    let f0 = pt.l1_entry(m1, l2, l1).spec_ppn();
    let slot = entry_addr(f0, l0);
    assert(pt.dirs@.contains_key(f1));
    assert(pt.dirs@.contains_key(f0));
    assert(pt.dirs@[f0] == (l2, l1));
    lemma_entry_addr(m1, f0, l0);
    assert forall|g: u64, i: int|
        g != f0 && frame_run_ok(m1, g, 0) && 0 <= i < 512 implies #[trigger] entry_at(m2, g, i)
        == entry_at(m1, g, i) by {
        lemma_entry_addr(m1, g, i);
    }
    assert forall|i: int| 0 <= i < 512 && i != l0 implies #[trigger] entry_at(m2, f0, i)
        == entry_at(m1, f0, i) by {
        lemma_entry_addr(m1, f0, i);
    }
    assert forall|k2: int, k1: int|
        0 <= k2 < 512 && 0 <= k1 < 512 && pt.entries@[k2].spec_valid() implies #[trigger] pt.l1_entry(
        m2,
        k2,
        k1,
    ) == pt.l1_entry(m1, k2, k1) by {
        let g = pt.entries@[k2].spec_ppn();
        assert(pt.dirs@.contains_key(g));
        assert(pt.dirs@[g] == (k2, -1int));
        assert(g != f0);
    }
    assert forall|g: u64| #[trigger] pt.dirs@.contains_key(g) implies frame_run_ok(m2, g, 0) by {
        assert(frame_run_ok(m1, g, 0));
    }
    assert forall|t: int| 0 <= t < SLOTS implies #[trigger] pt.mapping(m2, t) == (if t == s {
        Some(e)
    } else {
        pt.mapping(m1, t)
    }) by {
        let k2 = l2_of(t);
        let k1 = l1_of(t);
        let k0 = l0_of(t);
        assert(t == k2 * 0x4_0000 + k1 * 512 + k0);
        assert(s == l2 * 0x4_0000 + l1 * 512 + l0);
        if pt.entries@[k2].spec_dir() {
            assert(pt.l1_entry(m2, k2, k1) == pt.l1_entry(m1, k2, k1));
            let d = pt.l1_entry(m1, k2, k1);
            if d.spec_dir() {
                let g = d.spec_ppn();
                assert(pt.dirs@.contains_key(g));
                assert(pt.dirs@[g] == (k2, k1));
                if t != s {
                    if g == f0 {
                        assert(k0 != l0);
                    }
                    assert(entry_at(m2, g, k0) == entry_at(m1, g, k0));
                }
            }
        }
    }
    assert forall|t: int| 0 <= t < SLOTS implies #[trigger] pt.has_l0(m2, t) == pt.has_l0(
        m1,
        t,
    ) by {
        if pt.entries@[l2_of(t)].spec_dir() {
            assert(pt.l1_entry(m2, l2_of(t), l1_of(t)) == pt.l1_entry(m1, l2_of(t), l1_of(t)));
        }
    }
    assert(in_page(f0, slot as int));
    assert(pt.owns(slot as int));
    assert forall|x: u64| m1.contains(x) && b.is_free(x as int) implies m2.word(x) == m1.word(
        x,
    ) by {}
    b.lemma_wf_frame(m1, m2);
}

/// The tables that are missing on the way to the level-0 entry of slot `s`: two where
/// the root entry points to no table, one where the entry below it points to none.
pub open spec fn tables_missing(pt: &PageTable, mem: &Memory, s: int) -> int {
    if !pt.entries@[l2_of(s)].spec_dir() {
        2
    } else if !pt.l1_entry(mem, l2_of(s), l1_of(s)).spec_dir() {
        1
    } else {
        0
    }
}

/// How the tables of the second tree stand to those of the first after the walk to slot
/// `s0`: the tables on the way to `s0` are there besides those that were, and each of
/// them that was missing has taken one frame.
pub open spec fn walked<const ORDER: usize>(
    pt0: &PageTable,
    m0: &Memory,
    b0: &Buddy<ORDER>,
    pt1: &PageTable,
    m1: &Memory,
    b1: &Buddy<ORDER>,
    s0: int,
) -> bool {
    &&& forall|s: int|
        0 <= s < SLOTS ==> #[trigger] pt1.has_l1(s) == (pt0.has_l1(s) || l2_of(s) == l2_of(s0))
    &&& forall|s: int|
        0 <= s < SLOTS ==> #[trigger] pt1.has_l0(m1, s) == (pt0.has_l0(m0, s) || (l2_of(s)
            == l2_of(s0) && l1_of(s) == l1_of(s0)))
    &&& total_frames(b1@) == total_frames(b0@) - tables_missing(pt0, m0, s0)
}

/// Whether one of the `i` pages from virtual page `start` on has the level-1 table of
/// slot `s` on its way.
pub open spec fn shares_l1(start: u64, i: int, s: int) -> bool
    decreases i,
{
    if i <= 0 {
        false
    } else {
        l2_of(slot_of((start + i - 1) as u64)) == l2_of(s) || shares_l1(start, i - 1, s)
    }
}

/// Whether one of the `i` pages from virtual page `start` on has the level-0 table of
/// slot `s` on its way.
pub open spec fn shares_l0(start: u64, i: int, s: int) -> bool
    decreases i,
{
    if i <= 0 {
        false
    } else {
        let t = slot_of((start + i - 1) as u64);
        (l2_of(t) == l2_of(s) && l1_of(t) == l1_of(s)) || shares_l0(start, i - 1, s)
    }
}

/// The tables that mapping the `n` pages from virtual page `start` on adds to the tree:
/// for each page the tables on its way that the tree does not hold and that no page
/// before it in the run has on its way.
pub open spec fn tables_for(pt: &PageTable, mem: &Memory, start: u64, n: int) -> int
    decreases n,
{
    if n <= 0 {
        0
    } else {
        let s = slot_of((start + n - 1) as u64);
        tables_for(pt, mem, start, n - 1) + (if pt.has_l1(s) || shares_l1(start, n - 1, s) {
            0int
        } else {
            1int
        }) + (if pt.has_l0(mem, s) || shares_l0(start, n - 1, s) {
            0int
        } else {
            1int
        })
    }
}

/// The second tree holds the tables that the first one holds and those on the way to the
/// `i` pages from virtual page `start` on.
pub open spec fn tables_after(
    pt0: &PageTable,
    m0: &Memory,
    pt1: &PageTable,
    m1: &Memory,
    start: u64,
    i: int,
) -> bool {
    &&& forall|s: int|
        0 <= s < SLOTS ==> #[trigger] pt1.has_l1(s) == (pt0.has_l1(s) || shares_l1(start, i, s))
    &&& forall|s: int|
        0 <= s < SLOTS ==> #[trigger] pt1.has_l0(m1, s) == (pt0.has_l0(m0, s) || shares_l0(
            start,
            i,
            s,
        ))
}

/// Mapping more pages does not take fewer tables.
pub proof fn lemma_tables_mono(pt: &PageTable, mem: &Memory, start: u64, i: int, n: int)
    requires
        0 <= i <= n,
    ensures
        0 <= tables_for(pt, mem, start, i) <= tables_for(pt, mem, start, n),
    decreases n,
{
    if n > 0 {
        if i < n {
            lemma_tables_mono(pt, mem, start, i, n - 1);
        } else {
            lemma_tables_mono(pt, mem, start, i - 1, n - 1);
        }
    }
}

/// With the first `i` pages of a run walked to, the tables that page `i` still misses
/// are those that it adds to the count.
pub proof fn lemma_tables_next(
    pt0: &PageTable,
    m0: &Memory,
    pt1: &PageTable,
    m1: &Memory,
    start: u64,
    i: int,
)
    requires
        tables_after(pt0, m0, pt1, m1, start, i),
        0 <= i,
        start + i <= u64::MAX,
    ensures
        tables_missing(pt1, m1, slot_of((start + i) as u64)) == tables_for(pt0, m0, start, i + 1)
            - tables_for(pt0, m0, start, i),
{
    let s = slot_of((start + i) as u64);
    lemma_indices((start + i) as u64);
    assert(pt1.has_l1(s) == (pt0.has_l1(s) || shares_l1(start, i, s)));
    assert(pt1.has_l0(m1, s) == (pt0.has_l0(m0, s) || shares_l0(start, i, s)));
}

/// The walk to page `i` of a run adds the tables on its way to those that the tree
/// holds, and takes the frames that the count says.
pub proof fn lemma_tables_step<const ORDER: usize>(
    pt0: &PageTable,
    m0: &Memory,
    b0: &Buddy<ORDER>,
    pt1: &PageTable,
    m1: &Memory,
    b1: &Buddy<ORDER>,
    pt2: &PageTable,
    m2: &Memory,
    b2: &Buddy<ORDER>,
    start: u64,
    i: int,
)
    requires
        tables_after(pt0, m0, pt1, m1, start, i),
        total_frames(b1@) == total_frames(b0@) - tables_for(pt0, m0, start, i),
        walked(pt1, m1, b1, pt2, m2, b2, slot_of((start + i) as u64)),
        0 <= i,
        start + i <= u64::MAX,
    ensures
        tables_after(pt0, m0, pt2, m2, start, i + 1),
        total_frames(b2@) == total_frames(b0@) - tables_for(pt0, m0, start, i + 1),
{
    lemma_tables_next(pt0, m0, pt1, m1, start, i);
    assert forall|s: int| 0 <= s < SLOTS implies #[trigger] pt2.has_l1(s) == (pt0.has_l1(s)
        || shares_l1(start, i + 1, s)) by {
        assert(pt1.has_l1(s) == (pt0.has_l1(s) || shares_l1(start, i, s)));
    }
    assert forall|s: int| 0 <= s < SLOTS implies #[trigger] pt2.has_l0(m2, s) == (pt0.has_l0(
        m0,
        s,
    ) || shares_l0(start, i + 1, s)) by {
        assert(pt1.has_l0(m1, s) == (pt0.has_l0(m0, s) || shares_l0(start, i, s)));
    }
}

/// Writing a leaf entry leaves the tables of the tree as they are.
pub proof fn lemma_tables_kept(
    pt0: &PageTable,
    m0: &Memory,
    pt: &PageTable,
    m1: &Memory,
    m2: &Memory,
    start: u64,
    i: int,
)
    requires
        tables_after(pt0, m0, pt, m1, start, i),
        forall|t: int| 0 <= t < SLOTS ==> #[trigger] pt.has_l0(m2, t) == pt.has_l0(m1, t),
    ensures
        tables_after(pt0, m0, pt, m2, start, i),
{
    assert forall|s: int| 0 <= s < SLOTS implies #[trigger] pt.has_l0(m2, s) == (pt0.has_l0(
        m0,
        s,
    ) || shares_l0(start, i, s)) by {
        assert(pt.has_l0(m1, s) == (pt0.has_l0(m0, s) || shares_l0(start, i, s)));
    }
}

/// Whether the `n` pages from virtual page `start` on can be mapped in the tree: they
/// are no more than there are slots, none of them is mapped, and the allocator has a
/// frame for each table that is missing.
pub open spec fn can_map<const ORDER: usize>(
    pt: &PageTable,
    mem: &Memory,
    buddy: &Buddy<ORDER>,
    start: u64,
    n: int,
) -> bool {
    &&& n <= SLOTS
    &&& unmapped_before(pt, mem, start, n)
    &&& total_frames(buddy@) >= tables_for(pt, mem, start, n)
}

/// Whether the segments of the kernel can be mapped in the tree: the boundaries
/// between them are page aligned, so that no page belongs to two of them, and the
/// pages from `text_start` up to `mem_end` can be mapped.
pub open spec fn kernel_ok<const ORDER: usize>(
    pt: &PageTable,
    mem: &Memory,
    buddy: &Buddy<ORDER>,
    text_start: VirtualAddr,
    rodata_start: VirtualAddr,
    data_start: VirtualAddr,
    bss_start: VirtualAddr,
    kernel_end: VirtualAddr,
    mem_end: VirtualAddr,
) -> bool {
    &&& rodata_start.0 % 4096 == 0
    &&& data_start.0 % 4096 == 0
    &&& bss_start.0 % 4096 == 0
    &&& kernel_end.0 % 4096 == 0
    &&& can_map(
        pt,
        mem,
        buddy,
        (text_start.0 / 4096) as u64,
        segment_pages(text_start, mem_end),
    )
}

/// Pages that are not mapped in a tree are not mapped in its translation.
pub proof fn lemma_unmapped_free(pt: &PageTable, mem: &Memory, start: u64, n: int)
    requires
        unmapped_before(pt, mem, start, n),
        0 <= n <= SLOTS,
        start + n <= u64::MAX,
    ensures
        range_free(pt.interp(mem), start, n),
{
    assert forall|s: int| 0 <= s < SLOTS && range_index(slot_of(start), s) < n implies !pt.interp(
        mem,
    ).contains_key(s) by {
        let j = range_index(slot_of(start), s);
        lemma_range_index(start, j, s);
        assert(j % (SLOTS as int) == j);
        assert(pt.mapping(mem, slot_of((start + j) as u64)) is None);
    }
}

/// A page among the first `off + i` of a run is among the first `off` or among the `i`
/// after them.
pub proof fn lemma_shares_split(base: u64, off: int, i: int, s: int)
    requires
        0 <= off,
        0 <= i,
        base + off + i <= u64::MAX,
    ensures
        shares_l1(base, off + i, s) == (shares_l1(base, off, s) || shares_l1(
            (base + off) as u64,
            i,
            s,
        )),
        shares_l0(base, off + i, s) == (shares_l0(base, off, s) || shares_l0(
            (base + off) as u64,
            i,
            s,
        )),
    decreases i,
{
    if i > 0 {
        lemma_shares_split(base, off, i - 1, s);
        assert((base + (off + i) - 1) as u64 == (((base + off) as u64) + i - 1) as u64);
    }
}

/// The tables that the `n` pages after the first `off` of a run add to a tree that
/// holds those of the first `off` are the tables that the count goes up by.
pub proof fn lemma_tables_add(
    pt0: &PageTable,
    m0: &Memory,
    pt1: &PageTable,
    m1: &Memory,
    base: u64,
    off: int,
    n: int,
)
    requires
        tables_after(pt0, m0, pt1, m1, base, off),
        0 <= off,
        0 <= n,
        base + off + n <= u64::MAX,
    ensures
        tables_for(pt1, m1, (base + off) as u64, n) == tables_for(pt0, m0, base, off + n)
            - tables_for(pt0, m0, base, off),
    decreases n,
{
    if n > 0 {
        lemma_tables_add(pt0, m0, pt1, m1, base, off, n - 1);
        let s = slot_of((base + off + n - 1) as u64);
        lemma_indices((base + off + n - 1) as u64);
        lemma_shares_split(base, off, n - 1, s);
        assert((((base + off) as u64) + n - 1) as u64 == (base + (off + n) - 1) as u64);
        assert(pt1.has_l1(s) == (pt0.has_l1(s) || shares_l1(base, off, s)));
        assert(pt1.has_l0(m1, s) == (pt0.has_l0(m0, s) || shares_l0(base, off, s)));
    }
}

/// A tree that holds the tables of the first `off` pages of a run, and then those of the
/// `n` pages after them, holds those of the first `off + n`.
pub proof fn lemma_tables_compose(
    pt0: &PageTable,
    m0: &Memory,
    pt1: &PageTable,
    m1: &Memory,
    pt2: &PageTable,
    m2: &Memory,
    base: u64,
    off: int,
    n: int,
)
    requires
        tables_after(pt0, m0, pt1, m1, base, off),
        tables_after(pt1, m1, pt2, m2, (base + off) as u64, n),
        0 <= off,
        0 <= n,
        base + off + n <= u64::MAX,
    ensures
        tables_after(pt0, m0, pt2, m2, base, off + n),
{
    assert forall|s: int| 0 <= s < SLOTS implies #[trigger] pt2.has_l1(s) == (pt0.has_l1(s)
        || shares_l1(base, off + n, s)) by {
        lemma_shares_split(base, off, n, s);
        assert(pt1.has_l1(s) == (pt0.has_l1(s) || shares_l1(base, off, s)));
    }
    assert forall|s: int| 0 <= s < SLOTS implies #[trigger] pt2.has_l0(m2, s) == (pt0.has_l0(
        m0,
        s,
    ) || shares_l0(base, off + n, s)) by {
        lemma_shares_split(base, off, n, s);
        assert(pt1.has_l0(m1, s) == (pt0.has_l0(m0, s) || shares_l0(base, off, s)));
    }
}

/// A page adds two tables at most.
pub proof fn lemma_tables_bound(pt: &PageTable, mem: &Memory, start: u64, n: int)
    requires
        0 <= n,
    ensures
        0 <= tables_for(pt, mem, start, n) <= 2 * n,
    decreases n,
{
    if n > 0 {
        lemma_tables_bound(pt, mem, start, n - 1);
    }
}

/// A page that lies in the level-0 table of the first page of a run has the same tables
/// on its way.
pub proof fn lemma_same_table(start: u64, j: int)
    requires
        0 <= j,
        l0_of(slot_of(start)) + j < 512,
        start + j <= u64::MAX,
    ensures
        l2_of(slot_of((start + j) as u64)) == l2_of(slot_of(start)),
        l1_of(slot_of((start + j) as u64)) == l1_of(slot_of(start)),
{
    lemma_indices(start);
    lemma_range_index(start, j, 0);
    assert(j % (SLOTS as int) == j);
    let a = slot_of(start);
    let t = slot_of((start + j) as u64);
    assert(a == a / 512 * 512 + a % 512);
    assert(a / 512 <= 0x3_ffff);
    assert(a + j < SLOTS);
    assert(t == a + j) by {
        assert((a + j - a + SLOTS) % (SLOTS as int) == j);
        lemma_range_index(start, j, a + j);
    }
    assert((a + j) / 512 == a / 512);
}

/// The pages of a run that lie in the level-0 table of its first page take the tables
/// that the first page misses.
pub proof fn lemma_tables_one(pt: &PageTable, mem: &Memory, start: u64, n: int)
    requires
        1 <= n,
        l0_of(slot_of(start)) + n <= 512,
        start + n <= u64::MAX,
    ensures
        tables_for(pt, mem, start, n) == tables_missing(pt, mem, slot_of(start)),
    decreases n,
{
    lemma_indices(start);
    if n > 1 {
        lemma_tables_one(pt, mem, start, n - 1);
        let s = slot_of((start + n - 1) as u64);
        lemma_same_table(start, n - 1);
        lemma_shares_first(start, n - 1, s);
    } else {
        assert(tables_for(pt, mem, start, 0) == 0);
        assert(!shares_l1(start, 0, slot_of(start)));
        assert(!shares_l0(start, 0, slot_of(start)));
    }
}

/// A slot that has the tables of the first page of a run on its way shares them with
/// the run.
pub proof fn lemma_shares_first(start: u64, i: int, s: int)
    requires
        1 <= i,
        l2_of(slot_of(start)) == l2_of(s),
        l1_of(slot_of(start)) == l1_of(s),
    ensures
        shares_l1(start, i, s),
        shares_l0(start, i, s),
    decreases i,
{
    if i > 1 {
        lemma_shares_first(start, i - 1, s);
    }
}

/// Every slot is mapped in the second tree as it is in the first.
pub open spec fn same_mapping(pt0: &PageTable, m0: &Memory, pt1: &PageTable, m1: &Memory) -> bool {
    forall|s: int| 0 <= s < SLOTS ==> #[trigger] pt1.mapping(m1, s) == pt0.mapping(m0, s)
}

/// What such a step leaves well formed, and how many frames it took.
pub proof fn lemma_grows_facts<const ORDER: usize>(
    pt0: &PageTable,
    m0: &Memory,
    b0: &Buddy<ORDER>,
    pt1: &PageTable,
    m1: &Memory,
    b1: &Buddy<ORDER>,
    n: int,
)
    requires
        grows(pt0, m0, b0, pt1, m1, b1, n),
    ensures
        pt1.wf(m1),
        b1.wf(m1),
        pt1.clear_of(b1),
        m1.same_shape(m0),
        total_frames(b0@) - n <= total_frames(b1@) <= total_frames(b0@),
{
    reveal(grows);
}

/// A step that took at most `n` frames took at most `n2`, for `n2` above `n`.
pub proof fn lemma_grows_more<const ORDER: usize>(
    pt0: &PageTable,
    m0: &Memory,
    b0: &Buddy<ORDER>,
    pt1: &PageTable,
    m1: &Memory,
    b1: &Buddy<ORDER>,
    n: int,
    n2: int,
)
    requires
        grows(pt0, m0, b0, pt1, m1, b1, n),
        n <= n2,
    ensures
        grows(pt0, m0, b0, pt1, m1, b1, n2),
{
    reveal(grows);
}

/// Two such steps make one.
pub proof fn lemma_grows_trans<const ORDER: usize>(
    pt0: &PageTable,
    m0: &Memory,
    b0: &Buddy<ORDER>,
    pt1: &PageTable,
    m1: &Memory,
    b1: &Buddy<ORDER>,
    pt2: &PageTable,
    m2: &Memory,
    b2: &Buddy<ORDER>,
    n1: int,
    n2: int,
)
    requires
        grows(pt0, m0, b0, pt1, m1, b1, n1),
        grows(pt1, m1, b1, pt2, m2, b2, n2),
    ensures
        grows(pt0, m0, b0, pt2, m2, b2, n1 + n2),
{
    reveal(grows);
    assert forall|x: u64|
        m0.contains(x) && !b0.is_free(x as int) && !pt0.owns(x as int) implies m2.word(x)
        == m0.word(x) by {
        assert(m1.contains(x));
    }
}

/// Lists that hold no frame are all empty, and the other way round.
pub proof fn lemma_total_empty(lists: Seq<Seq<u64>>)
    ensures
        total_frames(lists) >= 0,
        total_frames(lists) == 0 <==> forall|k: int| 0 <= k < lists.len() ==> lists[k].len() == 0,
{
    lemma_total_empty_upto(lists, lists.len());
}

proof fn lemma_total_empty_upto(lists: Seq<Seq<u64>>, n: nat)
    requires
        n <= lists.len(),
    ensures
        crate::mm::buddy::buddy::total_upto(lists, n) >= 0,
        crate::mm::buddy::buddy::total_upto(lists, n) == 0 <==> forall|k: int|
            0 <= k < n ==> lists[k].len() == 0,
    decreases n,
{
    if n > 0 {
        lemma_total_empty_upto(lists, (n - 1) as nat);
        vstd::arithmetic::power2::lemma_pow2_pos((n - 1) as nat);
        let p = vstd::arithmetic::power2::pow2((n - 1) as nat) as int;
        let c = lists[n - 1].len() as int;
        assert(c * p >= 0 && (c * p == 0 <==> c == 0)) by (nonlinear_arith)
            requires
                p > 0,
                c >= 0,
        ;
        if crate::mm::buddy::buddy::total_upto(lists, n) == 0 {
            assert forall|k: int| 0 <= k < n implies lists[k].len() == 0 by {
                if k < n - 1 {
                }
            }
        }
    }
}

/// Linking a fresh, zeroed table into an empty root entry keeps the tree well formed
/// and maps nothing new.
pub proof fn lemma_install_root(
    before: &PageTable,
    after: &PageTable,
    mem: &Memory,
    l2: int,
    e: PTE,
)
    requires
        before.wf(mem),
        0 <= l2 < 512,
        !before.entries@[l2].spec_valid(),
        after.entries@ == before.entries@.update(l2, e),
        e.spec_dir(),
        !before.dirs@.contains_key(e.spec_ppn()),
        after.dirs@ == before.dirs@.insert(e.spec_ppn(), (l2, -1int)),
        frame_run_ok(mem, e.spec_ppn(), 0),
        forall|i: int| 0 <= i < 512 ==> (#[trigger] entry_at(mem, e.spec_ppn(), i)).0 == 0,
    ensures
        after.wf(mem),
        forall|s: int|
            0 <= s < SLOTS ==> #[trigger] after.mapping(mem, s) == before.mapping(mem, s),
        forall|s: int| 0 <= s < SLOTS ==> #[trigger] after.has_l0(mem, s) == before.has_l0(mem, s),
        forall|x: int| after.owns(x) <==> (before.owns(x) || in_page(e.spec_ppn(), x)),
{
    let f = e.spec_ppn();
    assert forall|s: int| 0 <= s < SLOTS implies #[trigger] after.has_l0(mem, s)
        == before.has_l0(mem, s) by {
        let k2 = l2_of(s);
        if k2 == l2 {
            assert(entry_at(mem, f, l1_of(s)).0 == 0);
        } else {
            assert(after.l1_entry(mem, k2, l1_of(s)) == before.l1_entry(mem, k2, l1_of(s)));
        }
    }
    assert forall|k2: int, k1: int|
        0 <= k2 < 512 && 0 <= k1 < 512 && after.entries@[k2].spec_valid() && (
        #[trigger] after.l1_entry(mem, k2, k1)).spec_valid() implies {
        &&& after.l1_entry(mem, k2, k1).spec_dir()
        &&& after.dirs@.contains_key(after.l1_entry(mem, k2, k1).spec_ppn())
        &&& after.dirs@[after.l1_entry(mem, k2, k1).spec_ppn()] == (k2, k1)
    } by {
        if k2 == l2 {
            assert(entry_at(mem, f, k1).0 == 0);
        } else {
            assert(after.l1_entry(mem, k2, k1) == before.l1_entry(mem, k2, k1));
        }
    }
    assert forall|k2: int| 0 <= k2 < 512 && (#[trigger] after.entries@[k2]).spec_valid() implies {
        &&& after.entries@[k2].spec_dir()
        &&& after.dirs@.contains_key(after.entries@[k2].spec_ppn())
        &&& after.dirs@[after.entries@[k2].spec_ppn()] == (k2, -1int)
    } by {
        if k2 != l2 {
            assert(before.entries@[k2].spec_valid());
        }
    }
    assert forall|g: u64| #[trigger] after.dirs@.contains_key(g) implies frame_run_ok(
        mem,
        g,
        0,
    ) by {
        if g != f {
            assert(before.dirs@.contains_key(g));
        }
    }
    assert forall|s: int| 0 <= s < SLOTS implies #[trigger] after.mapping(mem, s)
        == before.mapping(mem, s) by {
        let k2 = l2_of(s);
        if k2 == l2 {
            assert(entry_at(mem, f, l1_of(s)).0 == 0);
        } else {
            assert(after.l1_entry(mem, k2, l1_of(s)) == before.l1_entry(mem, k2, l1_of(s)));
        }
    }
    assert forall|x: int| after.owns(x) <==> (before.owns(x) || in_page(f, x)) by {
        if after.owns(x) {
            let g = choose|g: u64| #[trigger] after.dirs@.contains_key(g) && in_page(g, x);
            if g != f {
                assert(before.dirs@.contains_key(g));
            }
        }
        if before.owns(x) {
            let g = choose|g: u64| #[trigger] before.dirs@.contains_key(g) && in_page(g, x);
            assert(after.dirs@.contains_key(g));
        }
        if in_page(f, x) {
            assert(after.dirs@.contains_key(f));
        }
    }
}

/// Linking a fresh, zeroed table into an empty entry of a level-1 table keeps the tree
/// well formed and maps nothing new.
pub proof fn lemma_install_l1(
    before: &PageTable,
    after: &PageTable,
    m1: &Memory,
    m2: &Memory,
    l2: int,
    l1: int,
    e: PTE,
)
    requires
        before.wf(m1),
        0 <= l2 < 512,
        0 <= l1 < 512,
        before.entries@[l2].spec_dir(),
        !before.l1_entry(m1, l2, l1).spec_valid(),
        after.entries@ == before.entries@,
        m2.wf(),
        m2.same_shape(m1),
        m2.word(entry_addr(before.entries@[l2].spec_ppn(), l1)) == e.0,
        forall|x: u64|
            m1.contains(x) && x != entry_addr(before.entries@[l2].spec_ppn(), l1) ==> m2.word(x)
                == m1.word(x),
        e.spec_dir(),
        !before.dirs@.contains_key(e.spec_ppn()),
        after.dirs@ == before.dirs@.insert(e.spec_ppn(), (l2, l1)),
        frame_run_ok(m1, e.spec_ppn(), 0),
        forall|i: int| 0 <= i < 512 ==> (#[trigger] entry_at(m1, e.spec_ppn(), i)).0 == 0,
    ensures
        after.wf(m2),
        forall|s: int|
            0 <= s < SLOTS ==> #[trigger] after.mapping(m2, s) == before.mapping(m1, s),
        forall|s: int|
            0 <= s < SLOTS ==> #[trigger] after.has_l0(m2, s) == (before.has_l0(m1, s) || (l2_of(s)
                == l2 && l1_of(s) == l1)),
        forall|x: int| after.owns(x) <==> (before.owns(x) || in_page(e.spec_ppn(), x)),
        after.l1_entry(m2, l2, l1) == e,
{
    let f = e.spec_ppn();
    let f1 = before.entries@[l2].spec_ppn();
    let slot = entry_addr(f1, l1);
    assert(before.dirs@.contains_key(f1));
    lemma_entry_addr(m1, f1, l1);
    // every entry of a table other than the one written to is as before
    assert forall|g: u64, i: int|
        g != f1 && frame_run_ok(m1, g, 0) && 0 <= i < 512 implies #[trigger] entry_at(m2, g, i)
        == entry_at(m1, g, i) by {
        lemma_entry_addr(m1, g, i);
    }
    assert forall|i: int| 0 <= i < 512 && i != l1 implies #[trigger] entry_at(m2, f1, i)
        == entry_at(m1, f1, i) by {
        lemma_entry_addr(m1, f1, i);
    }
    assert(entry_at(m2, f1, l1) == e);
    assert forall|k2: int, k1: int|
        0 <= k2 < 512 && 0 <= k1 < 512 && before.entries@[k2].spec_valid() && !(k2 == l2 && k1
            == l1) implies #[trigger] after.l1_entry(m2, k2, k1) == before.l1_entry(m1, k2, k1) by {
        let g = before.entries@[k2].spec_ppn();
        assert(before.dirs@.contains_key(g));
        if k2 != l2 {
            assert(g != f1);
        }
    }
    assert forall|k2: int, k1: int|
        0 <= k2 < 512 && 0 <= k1 < 512 && after.entries@[k2].spec_valid() && (
        #[trigger] after.l1_entry(m2, k2, k1)).spec_valid() implies {
        &&& after.l1_entry(m2, k2, k1).spec_dir()
        &&& after.dirs@.contains_key(after.l1_entry(m2, k2, k1).spec_ppn())
        &&& after.dirs@[after.l1_entry(m2, k2, k1).spec_ppn()] == (k2, k1)
    } by {
        if !(k2 == l2 && k1 == l1) {
            assert(after.l1_entry(m2, k2, k1) == before.l1_entry(m1, k2, k1));
        }
    }
    assert forall|g: u64| #[trigger] after.dirs@.contains_key(g) implies frame_run_ok(
        m2,
        g,
        0,
    ) by {
        if g != f {
            assert(before.dirs@.contains_key(g));
            assert(frame_run_ok(m1, g, 0));
        }
    }
    assert forall|s: int| 0 <= s < SLOTS implies #[trigger] after.has_l0(m2, s) == (
    before.has_l0(m1, s) || (l2_of(s) == l2 && l1_of(s) == l1)) by {
        let k2 = l2_of(s);
        let k1 = l1_of(s);
        if before.entries@[k2].spec_dir() && !(k2 == l2 && k1 == l1) {
            assert(after.l1_entry(m2, k2, k1) == before.l1_entry(m1, k2, k1));
        }
    }
    assert forall|s: int| 0 <= s < SLOTS implies #[trigger] after.mapping(m2, s)
        == before.mapping(m1, s) by {
        let k2 = l2_of(s);
        let k1 = l1_of(s);
        let k0 = l0_of(s);
        if before.entries@[k2].spec_dir() {
            if k2 == l2 && k1 == l1 {
                assert(f != f1);
                assert(entry_at(m1, f, k0).0 == 0);
                assert(entry_at(m2, f, k0) == entry_at(m1, f, k0));
            } else {
                assert(after.l1_entry(m2, k2, k1) == before.l1_entry(m1, k2, k1));
                let d = before.l1_entry(m1, k2, k1);
                if d.spec_dir() {
                    let g = d.spec_ppn();
                    assert(before.dirs@.contains_key(g));
                    assert(before.dirs@[g] == (k2, k1));
                    assert(before.dirs@[f1] == (l2, -1int));
                    assert(g != f1);
                    assert(entry_at(m2, g, k0) == entry_at(m1, g, k0));
                }
            }
        }
    }
    assert forall|x: int| after.owns(x) <==> (before.owns(x) || in_page(f, x)) by {
        if after.owns(x) {
            let g = choose|g: u64| #[trigger] after.dirs@.contains_key(g) && in_page(g, x);
            if g != f {
                assert(before.dirs@.contains_key(g));
            }
        }
        if before.owns(x) {
            let g = choose|g: u64| #[trigger] before.dirs@.contains_key(g) && in_page(g, x);
            assert(after.dirs@.contains_key(g));
        }
        if in_page(f, x) {
            assert(after.dirs@.contains_key(f));
        }
    }
}

/// The entries of a table that lies in memory are words of memory, inside its page.
pub proof fn lemma_entry_addr(mem: &Memory, f: u64, i: int)
    requires
        mem.wf(),
        frame_run_ok(mem, f, 0),
        0 <= i < 512,
    ensures
        mem.contains(entry_addr(f, i)),
        entry_addr(f, i) == f * 4096 + PAGE_OFF + 8 * i,
        in_page(f, entry_addr(f, i) as int),
        f < 0x400_0000,
        table_addr(f) == f * 4096 + PAGE_OFF,
        frame_addr(f) == f * 4096 + PAGE_OFF,
{
    reveal(crate::mm::memory::addr_ok);
    lemma_run_bytes(0);
    vstd::arithmetic::power2::lemma2_to64();
}

} // verus!
