//! Physical memory as a store of machine words.
//!
//! The allocators keep their free lists inside the memory that they manage:
//! the first word of a free block holds the address of the next one. This
//! type is that memory, addressed through the kernel's linear map.

use vstd::prelude::*;

use super::{PhysicalAddr, VirtualAddr, PAGE_OFF};

verus! {

/// One past the highest physical address that the linear map can reach.
pub const LINEAR_LIMIT: u64 = 0x40_0000_0000;

/// A run of RAM that starts at physical address `base`, one `u64` for each 8 bytes.
pub struct Memory {
    pub base: u64,
    pub words: Vec<u64>,
}

/// Whether `va` is the address, in the linear map, of a word of the `len` words of
/// memory that start at physical address `base`.
#[verifier::opaque]
pub open spec fn addr_ok(base: u64, len: nat, va: u64) -> bool {
    &&& base + PAGE_OFF <= va
    &&& va + 8 <= base + PAGE_OFF + 8 * len
    &&& (va - (base + PAGE_OFF)) % 8 == 0
}

/// The index of the word at `va` in memory that starts at physical address `base`.
#[verifier::opaque]
pub open spec fn word_index(base: u64, va: u64) -> int {
    (va - (base + PAGE_OFF)) / 8
}

impl View for Memory {
    type V = Seq<u64>;

    open spec fn view(&self) -> Seq<u64> {
        self.words@
    }
}

impl Memory {
    /// The run starts on a page boundary and lies within reach of the linear map.
    pub open spec fn wf(&self) -> bool {
        &&& self.base % 4096 == 0
        &&& self.base + 8 * self.words@.len() <= LINEAR_LIMIT
    }

    /// The virtual address of the first word.
    pub open spec fn start(&self) -> int {
        self.base + PAGE_OFF
    }

    /// One past the virtual address of the last byte.
    pub open spec fn end(&self) -> int {
        self.base + PAGE_OFF + 8 * self.words@.len()
    }

    /// Whether `va` is the address of a word of this memory.
    pub open spec fn contains(&self, va: u64) -> bool {
        addr_ok(self.base, self.words@.len(), va)
    }

    /// The index of the word at `va`.
    pub open spec fn index_of(&self, va: u64) -> int {
        word_index(self.base, va)
    }

    /// The word at `va`.
    pub open spec fn word(&self, va: u64) -> u64 {
        self.words@[self.index_of(va)]
    }

    /// `other` is a memory over the same addresses.
    pub open spec fn same_shape(&self, other: &Memory) -> bool {
        self.base == other.base && self.words@.len() == other.words@.len()
    }

    /// What it takes to be the address of a word of this memory, and that 0 is none.
    pub proof fn lemma_contains(&self, va: u64)
        ensures
            self.contains(va) == (self.start() <= va && va + 8 <= self.end() && (va
                - self.start()) % 8 == 0),
            self.contains(va) ==> va >= PAGE_OFF && va != 0,
            self.contains(va) ==> self.word(va) == self@[self.index_of(va)] && 0 <= self.index_of(
                va,
            ) < self@.len(),
    {
        reveal(addr_ok);
        reveal(word_index);
    }

    /// `size` bytes of zeroed memory at physical address `base`. `None` where `base` is
    /// not page aligned or the run would leave the reach of the linear map.
    pub fn new(base: PhysicalAddr, size: u64) -> (r: Option<Self>)
        ensures
            r is Some <==> base.0 % 4096 == 0 && base.0 + size / 8 * 8 <= LINEAR_LIMIT,
            r matches Some(m) ==> {
                &&& m.wf()
                &&& m.base == base.0
                &&& m@.len() == size / 8
                &&& forall|i: int| 0 <= i < m@.len() ==> m@[i] == 0
            },
    {
        let n: u64 = size / 8;
        if base.0 % 4096 != 0 || base.0 > LINEAR_LIMIT || n > (LINEAR_LIMIT - base.0) / 8 {
            return None;
        }
        let mut words: Vec<u64> = Vec::new();
        let mut i: u64 = 0;
        while i < n
            invariant
                i <= n,
                words@.len() == i,
                forall|k: int| 0 <= k < i ==> words@[k] == 0,
            decreases n - i,
        {
            words.push(0);
            i = i + 1;
        }
        Some(Memory { base: base.0, words })
    }

    /// Whether `va` is the address of a word of this memory.
    pub fn has(&self, va: VirtualAddr) -> (r: bool)
        requires
            self.wf(),
        ensures
            r == self.contains(va.0),
    {
        proof {
            reveal(addr_ok);
        }
        if va.0 < PAGE_OFF || va.0 - PAGE_OFF < self.base {
            return false;
        }
        let off: u64 = va.0 - PAGE_OFF - self.base;
        off % 8 == 0 && off / 8 < self.words.len() as u64
    }

    /// Whether the page of `frame` lies in this memory.
    pub fn has_frame(&self, frame: u64) -> (r: bool)
        requires
            self.wf(),
        ensures
            r == (self.base <= frame * 4096 && frame * 4096 + 4096 <= self.base + 8
                * self.words@.len()),
    {
        if frame > LINEAR_LIMIT / 4096 {
            return false;
        }
        let pa: u64 = frame * 4096;
        if pa < self.base {
            return false;
        }
        let off: u64 = pa - self.base;
        assert(off % 8 == 0);
        let n: u64 = self.words.len() as u64;
        assert((off + 4096 <= 8 * n) == (off / 8 + 512 <= n));
        off / 8 + 512 <= n
    }

    /// Reads the word at `va`.
    pub fn read(&self, va: VirtualAddr) -> (r: u64)
        requires
            self.wf(),
            self.contains(va.0),
        ensures
            r == self.word(va.0),
    {
        proof {
            reveal(addr_ok);
            reveal(word_index);
        }
        let idx: u64 = (va.0 - PAGE_OFF - self.base) / 8;
        let n: usize = self.words.len();
        assert(idx == self.index_of(va.0) && idx < n);
        self.words[idx as usize]
    }

    /// Writes `val` to the word at `va`; every other word stays as it is.
    pub fn write(&mut self, va: VirtualAddr, val: u64)
        requires
            old(self).wf(),
            old(self).contains(va.0),
        ensures
            final(self).wf(),
            final(self).same_shape(old(self)),
            final(self)@ == old(self)@.update(old(self).index_of(va.0), val),
            final(self).word(va.0) == val,
            forall|a: u64|
                old(self).contains(a) && a != va.0 ==> final(self).word(a) == old(self).word(a),
    {
        proof {
            reveal(addr_ok);
            reveal(word_index);
        }
        let idx: u64 = (va.0 - PAGE_OFF - self.base) / 8;
        let n: usize = self.words.len();
        assert(idx == self.index_of(va.0) && idx < n);
        self.words[idx as usize] = val;
        assert forall|a: u64| old(self).contains(a) && a != va.0 implies self.word(a) == old(
            self,
        ).word(a) by {
            assert(self.index_of(a) != self.index_of(va.0));
        }
    }
}

} // verus!
