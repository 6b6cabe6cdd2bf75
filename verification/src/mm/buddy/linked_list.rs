//! Intrusive singly-linked list of free blocks.
//!
//! A list is the address of its first block; the first word of each block
//! holds the address of the next one, and the last block holds 0.

use vstd::prelude::*;

use crate::mm::memory::Memory;
use crate::mm::VirtualAddr;

verus! {

/// The address that block `i` of `s` links to: the next block, or 0 after the last.
pub open spec fn next_of(s: Seq<u64>, i: int) -> u64 {
    if i + 1 < s.len() {
        s[i + 1]
    } else {
        0
    }
}

/// A list of free blocks. Its view is the addresses of the blocks, first to last.
#[derive(Clone, Copy)]
pub struct LinkedList {
    pub head: u64,
    pub nodes: Ghost<Seq<u64>>,
}

impl View for LinkedList {
    type V = Seq<u64>;

    open spec fn view(&self) -> Seq<u64> {
        self.nodes@
    }
}

impl LinkedList {
    /// `head` is the first block, every block is a word of `mem` that holds the
    /// address of its successor, and no block occurs twice.
    pub open spec fn wf(&self, mem: &Memory) -> bool {
        &&& self.head == (if self@.len() == 0 {
            0
        } else {
            self@[0]
        })
        &&& forall|i: int|
            0 <= i < self@.len() ==> mem.contains(#[trigger] self@[i]) && mem.word(self@[i])
                == next_of(self@, i)
        &&& forall|i: int, j: int|
            0 <= i < j < self@.len() ==> #[trigger] self@[i] != #[trigger] self@[j]
    }

    /// A list stays well formed when memory changes outside of its blocks.
    pub proof fn lemma_wf_frame(&self, m1: &Memory, m2: &Memory)
        requires
            self.wf(m1),
            m2.same_shape(m1),
            forall|i: int|
                0 <= i < self@.len() ==> m2.word(#[trigger] self@[i]) == m1.word(self@[i]),
        ensures
            self.wf(m2),
    {
        assert forall|i: int| 0 <= i < self@.len() implies m2.contains(#[trigger] self@[i])
            && m2.word(self@[i]) == next_of(self@, i) by {
            assert(m1.contains(self@[i]));
        }
    }

    /// The empty list.
    pub fn new() -> (r: LinkedList)
        ensures
            r@ == Seq::<u64>::empty(),
            r.head == 0,
            forall|mem: &Memory| r.wf(mem),
    {
        LinkedList { head: 0, nodes: Ghost(Seq::empty()) }
    }

    /// Whether the list holds no block.
    pub fn empty(&self) -> (r: bool)
        ensures
            r == (self.head == 0),
    {
        self.head == 0
    }

    /// In a well-formed list the head is 0 exactly if there is no block.
    pub proof fn lemma_head(&self, mem: &Memory)
        requires
            mem.wf(),
            self.wf(mem),
        ensures
            (self.head == 0) == (self@.len() == 0),
            self@.len() > 0 ==> self.head == self@[0],
    {
        if self@.len() > 0 {
            assert(mem.contains(self@[0]));
            mem.lemma_contains(self@[0]);
        }
    }

    /// Forgets every block.
    pub fn reset(&mut self)
        ensures
            final(self)@ == Seq::<u64>::empty(),
            final(self).head == 0,
    {
        self.head = 0;
        self.nodes = Ghost(Seq::empty());
    }

    /// Exchanges the blocks of two lists.
    pub fn swap(&mut self, other: &mut LinkedList)
        ensures
            *final(self) == *old(other),
            *final(other) == *old(self),
    {
        let t: LinkedList = *self;
        *self = *other;
        *other = t;
    }

    /// Puts the block at `node` in front: its first word takes the old head.
    pub fn push(&mut self, mem: &mut Memory, node: u64)
        requires
            old(mem).wf(),
            old(self).wf(old(mem)),
            old(mem).contains(node),
            !old(self)@.contains(node),
        ensures
            final(self)@ == seq![node] + old(self)@,
            final(self).head == node,
            final(self).wf(final(mem)),
            final(mem).wf(),
            final(mem).same_shape(old(mem)),
            final(mem)@ == old(mem)@.update(old(mem).index_of(node), old(self).head),
            forall|a: u64|
                old(mem).contains(a) && a != node ==> final(mem).word(a) == old(mem).word(a),
    {
        mem.write(VirtualAddr(node), self.head);
        let ghost s = self.nodes@;
        self.head = node;
        self.nodes = Ghost(seq![node] + s);
        proof {
            let t = self@;
            assert forall|i: int| 0 <= i < t.len() implies mem.contains(#[trigger] t[i])
                && mem.word(t[i]) == next_of(t, i) by {
                if i > 0 {
                    assert(t[i] == s[i - 1]);
                    assert(old(mem).contains(s[i - 1]));
                    assert(s.contains(s[i - 1]));
                    assert(next_of(t, i) == next_of(s, i - 1));
                }
            }
            assert forall|i: int, j: int| 0 <= i < j < t.len() implies #[trigger] t[i]
                != #[trigger] t[j] by {
                assert(t[j] == s[j - 1]);
                assert(s.contains(s[j - 1]));
                if i > 0 {
                    assert(t[i] == s[i - 1]);
                }
            }
        }
    }

    /// Takes the first block off, if there is one. Memory is only read.
    pub fn pop(&mut self, mem: &Memory) -> (r: Option<u64>)
        requires
            mem.wf(),
            old(self).wf(mem),
        ensures
            final(self).wf(mem),
            match r {
                None => old(self)@.len() == 0 && final(self)@ == old(self)@,
                Some(node) => {
                    &&& old(self)@.len() > 0
                    &&& node == old(self)@[0]
                    &&& final(self)@ == old(self)@.drop_first()
                },
            },
    {
        proof {
            self.lemma_head(mem);
        }
        if self.empty() {
            None
        } else {
            let node: u64 = self.head;
            let ghost s = self.nodes@;
            assert(mem.contains(s[0]));
            self.head = mem.read(VirtualAddr(node));
            self.nodes = Ghost(s.drop_first());
            proof {
                let t = self@;
                assert forall|i: int| 0 <= i < t.len() implies mem.contains(#[trigger] t[i])
                    && mem.word(t[i]) == next_of(t, i) by {
                    assert(t[i] == s[i + 1]);
                    assert(next_of(t, i) == next_of(s, i + 1));
                }
                assert forall|i: int, j: int| 0 <= i < j < t.len() implies #[trigger] t[i]
                    != #[trigger] t[j] by {
                    assert(t[i] == s[i + 1] && t[j] == s[j + 1]);
                }
            }
            Some(node)
        }
    }

    /// A cursor at the first block that only reads.
    pub fn iter(&self) -> (r: Iter)
        ensures
            r.cur == self.head,
    {
        Iter { cur: self.head }
    }

    /// A cursor in front of the first block whose blocks can be unlinked.
    pub fn iter_mut(&mut self) -> (r: IterMut)
        ensures
            r.prev == 0,
            *final(self) == *old(self),
    {
        IterMut { prev: 0 }
    }
}

/// A read-only cursor: the address of the block to hand out next, or 0 at the end.
pub struct Iter {
    pub cur: u64,
}

impl Iter {
    /// Hands out the block under the cursor and moves to its successor.
    pub fn next(&mut self, mem: &Memory) -> (r: Option<u64>)
        requires
            mem.wf(),
            old(self).cur != 0 ==> mem.contains(old(self).cur),
        ensures
            r == (if old(self).cur == 0 {
                None
            } else {
                Some(old(self).cur)
            }),
            final(self).cur == (if old(self).cur == 0 {
                0
            } else {
                mem.word(old(self).cur)
            }),
    {
        if self.cur == 0 {
            None
        } else {
            let item: u64 = self.cur;
            self.cur = mem.read(VirtualAddr(item));
            Some(item)
        }
    }
}

/// A block met by an `IterMut`, with the slot that links to it: `prev` is the address
/// of the block before it, or 0 where the list's head links to it.
pub struct ListNode {
    pub prev: u64,
    pub cur: u64,
}

impl ListNode {
    /// The address of the block.
    pub fn data(&self) -> (r: u64)
        ensures
            r == self.cur,
    {
        self.cur
    }

    /// This node is block `i` of `list`, reached through the slot that links to it.
    pub open spec fn at(&self, list: &LinkedList, i: int) -> bool {
        &&& 0 <= i < list@.len()
        &&& self.cur == list@[i]
        &&& self.prev == (if i == 0 {
            0
        } else {
            list@[i - 1]
        })
    }

    /// Unlinks the block: the slot that linked to it takes its successor.
    pub fn remove(self, list: &mut LinkedList, mem: &mut Memory)
        requires
            old(mem).wf(),
            old(list).wf(old(mem)),
            exists|i: int| self.at(old(list), i),
        ensures
            forall|i: int| self.at(old(list), i) ==> final(list)@ == old(list)@.remove(i),
            final(list).wf(final(mem)),
            final(mem).wf(),
            final(mem).same_shape(old(mem)),
            forall|a: u64|
                old(mem).contains(a) && a != self.prev ==> final(mem).word(a) == old(mem).word(a),
            self.prev != 0 ==> final(mem).word(self.prev) == old(mem).word(self.cur),
            self.prev == 0 ==> final(mem)@ == old(mem)@,
    {
        let ghost s = list.nodes@;
        let ghost i = choose|i: int| self.at(list, i);
        assert(mem.contains(s[i]));
        assert(mem.word(s[i]) == next_of(s, i));
        proof {
            list.lemma_head(mem);
            if i > 0 {
                mem.lemma_contains(s[i - 1]);
            }
        }
        let next: u64 = mem.read(VirtualAddr(self.cur));
        if self.prev == 0 {
            list.head = next;
        } else {
            assert(mem.contains(s[i - 1]));
            mem.write(VirtualAddr(self.prev), next);
        }
        list.nodes = Ghost(s.remove(i));
        proof {
            lemma_unlink(old(list), old(mem), list, mem, i);
            assert forall|j: int| self.at(old(list), j) implies j == i by {
                if j != i {
                    assert(s[j] == s[i]);
                }
            }
        }
    }
}

/// What is left after block `i` was unlinked is a list.
pub proof fn lemma_unlink(l0: &LinkedList, m0: &Memory, l1: &LinkedList, m1: &Memory, i: int)
    requires
        l0.wf(m0),
        0 <= i < l0@.len(),
        m1.same_shape(m0),
        l1@ == l0@.remove(i),
        l1.head == (if i == 0 {
            next_of(l0@, 0)
        } else {
            l0.head
        }),
        i > 0 ==> m1.word(l0@[i - 1]) == next_of(l0@, i),
        forall|a: u64|
            m0.contains(a) && (i == 0 || a != l0@[i - 1]) ==> m1.word(a) == m0.word(a),
    ensures
        l1.wf(m1),
{
    let s = l0@;
    let t = l1@;
    assert forall|k: int| 0 <= k < t.len() implies m1.contains(#[trigger] t[k]) && m1.word(t[k])
        == next_of(t, k) by {
        let sk = if k < i { k } else { k + 1 };
        assert(t[k] == s[sk]);
        assert(m0.contains(s[sk]));
        assert(m0.word(s[sk]) == next_of(s, sk));
        if i > 0 && sk != i - 1 {
            assert(s[sk] != s[i - 1]);
        }
    }
    assert forall|k: int, j: int| 0 <= k < j < t.len() implies #[trigger] t[k] != #[trigger] t[j] by {
        let sk = if k < i { k } else { k + 1 };
        let sj = if j < i { j } else { j + 1 };
        assert(t[k] == s[sk] && t[j] == s[sj]);
    }
    if t.len() > 0 {
        assert(t[0] == s[if i == 0 { 1int } else { 0int }]);
    }
}

/// A cursor that hands out blocks together with the slot that links to them.
/// `prev` is the address of the block handed out last, or 0 before the first.
pub struct IterMut {
    pub prev: u64,
}

impl IterMut {
    /// What the slot under the cursor holds: the address of the next block, or 0.
    pub open spec fn slot(&self, list: &LinkedList, mem: &Memory) -> u64 {
        if self.prev == 0 {
            list.head
        } else {
            mem.word(self.prev)
        }
    }

    /// Hands out the block that the slot under the cursor links to, and moves onto it.
    pub fn next(&mut self, list: &LinkedList, mem: &Memory) -> (r: Option<ListNode>)
        requires
            mem.wf(),
            old(self).prev != 0 ==> mem.contains(old(self).prev),
        ensures
            match r {
                None => old(self).slot(list, mem) == 0 && final(self).prev == old(self).prev,
                Some(node) => {
                    &&& node.cur == old(self).slot(list, mem)
                    &&& node.cur != 0
                    &&& node.prev == old(self).prev
                    &&& final(self).prev == node.cur
                },
            },
    {
        let cur: u64 = if self.prev == 0 {
            list.head
        } else {
            mem.read(VirtualAddr(self.prev))
        };
        if cur == 0 {
            None
        } else {
            let node = ListNode { prev: self.prev, cur };
            self.prev = cur;
            Some(node)
        }
    }
}

} // verus!
