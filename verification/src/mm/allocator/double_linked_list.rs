//! Intrusive doubly-linked list of page descriptors.
//!
//! Each descriptor carries a hook with the frame numbers of its neighbours.
//! A list is the hook of its owner, which stands in no descriptor: the first
//! descriptor names it by `LINK_HEAD`.

use vstd::prelude::*;

use crate::mm::page::{Page, Pages};
use crate::mm::PageFrame;
use crate::sync::Spin;

verus! {

/// The link of a hook that has no neighbour on that side.
pub const LINK_NULL: u64 = 0;

/// The link by which the first descriptor of a list names the list's own hook.
pub const LINK_HEAD: u64 = 0xffff_ffff_ffff_ffff;

/// A hook: the frames of the next and the previous descriptor.
#[derive(Clone, Copy, PartialEq, Eq, Structural, Debug)]
pub struct DoubleLinkedList {
    pub next: u64,
    pub prev: u64,
}

impl DoubleLinkedList {
    /// A hook that is on no list.
    pub fn new() -> (r: Self)
        ensures
            r.next == LINK_NULL,
            r.prev == LINK_NULL,
    {
        DoubleLinkedList { next: LINK_NULL, prev: LINK_NULL }
    }

    /// Takes the hook off whatever it was linked to, without telling the neighbours.
    pub fn reset(&mut self)
        ensures
            final(self).next == LINK_NULL,
            final(self).prev == LINK_NULL,
    {
        self.next = LINK_NULL;
        self.prev = LINK_NULL;
    }
}

/// The link that descriptor `i` of the list `s` holds to its successor.
pub open spec fn next_link(s: Seq<u64>, i: int) -> u64 {
    if i + 1 < s.len() {
        s[i + 1]
    } else {
        LINK_NULL
    }
}

/// The link that descriptor `i` of the list `s` holds to its predecessor.
pub open spec fn prev_link(s: Seq<u64>, i: int) -> u64 {
    if i == 0 {
        LINK_HEAD
    } else {
        s[i - 1]
    }
}

/// `head` is the hook of a list that holds the descriptors of the frames `s`, first to
/// last: each is linked to its neighbours, and no frame occurs twice.
pub open spec fn dll_wf(head: DoubleLinkedList, pages: &Pages, s: Seq<u64>) -> bool {
    &&& head.next == (if s.len() == 0 {
        LINK_NULL
    } else {
        s[0]
    })
    &&& forall|i: int|
        0 <= i < s.len() ==> {
            &&& pages.has(#[trigger] s[i])
            &&& s[i] != LINK_HEAD
            &&& pages.page(s[i]).list_node.data.next == next_link(s, i)
            &&& pages.page(s[i]).list_node.data.prev == prev_link(s, i)
        }
    &&& forall|i: int, j: int| 0 <= i < j < s.len() ==> #[trigger] s[i] != #[trigger] s[j]
}

/// Every descriptor but those of `frames` is as before, and those differ in their
/// hooks only.
pub open spec fn hooks_only(before: &Pages, after: &Pages, frames: Set<u64>) -> bool {
    &&& after@.len() == before@.len()
    &&& forall|f: u64|
        before.has(f) ==> #[trigger] after.page(f) == (if frames.contains(f) {
            Page {
                list_node: Spin { data: after.page(f).list_node.data, ..before.page(f).list_node },
                ..before.page(f)
            }
        } else {
            before.page(f)
        })
}

/// Reads the hook of `frame`.
fn hook(pages: &Pages, frame: u64) -> (r: DoubleLinkedList)
    requires
        pages.has(frame),
    ensures
        r == pages.page(frame).list_node.data,
{
    PageFrame(frame).get_page(pages).list_node.data
}

/// Writes the hook of `frame`.
fn write_hook(pages: &mut Pages, frame: u64, node: DoubleLinkedList)
    requires
        old(pages).has(frame),
    ensures
        final(pages)@.len() == old(pages)@.len(),
        final(pages).page(frame) == (Page {
            list_node: Spin { data: node, ..old(pages).page(frame).list_node },
            ..old(pages).page(frame)
        }),
        forall|f: u64|
            old(pages).has(f) && f != frame ==> #[trigger] final(pages).page(f) == old(pages).page(
                f,
            ),
{
    let mut page: Page = *PageFrame(frame).get_page(pages);
    page.list_node.data = node;
    PageFrame(frame).set_page(pages, page);
}

impl DoubleLinkedList {
    /// Links the descriptor of `frame` in right behind this hook, the hook of a list.
    pub fn insert(&mut self, pages: &mut Pages, frame: PageFrame)
        requires
            old(pages).has(frame.0),
            frame.0 != LINK_HEAD,
            exists|s: Seq<u64>| dll_wf(*old(self), old(pages), s) && !s.contains(frame.0),
        ensures
            forall|s: Seq<u64>|
                dll_wf(*old(self), old(pages), s) && !s.contains(frame.0) ==> dll_wf(
                    *final(self),
                    final(pages),
                    seq![frame.0] + s,
                ),
            hooks_only(
                old(pages),
                final(pages),
                if old(self).next == LINK_NULL {
                    set![frame.0]
                } else {
                    set![frame.0, old(self).next]
                },
            ),
    {
        let first: u64 = self.next;
        let ghost s0 = choose|s: Seq<u64>| dll_wf(*self, pages, s) && !s.contains(frame.0);
        write_hook(pages, frame.0, DoubleLinkedList { next: first, prev: LINK_HEAD });
        if first != LINK_NULL {
            assert(first == s0[0] && pages.has(first));
            assert(s0.contains(s0[0]));
            let h: DoubleLinkedList = hook(pages, first);
            write_hook(pages, first, DoubleLinkedList { next: h.next, prev: frame.0 });
        }
        self.next = frame.0;
        proof {
            assert forall|s: Seq<u64>|
                dll_wf(*old(self), old(pages), s) && !s.contains(frame.0) implies dll_wf(
                *self,
                pages,
                seq![frame.0] + s,
            ) by {
                let t = seq![frame.0] + s;
                assert forall|i: int| 0 <= i < t.len() implies {
                    &&& pages.has(#[trigger] t[i])
                    &&& t[i] != LINK_HEAD
                    &&& pages.page(t[i]).list_node.data.next == next_link(t, i)
                    &&& pages.page(t[i]).list_node.data.prev == prev_link(t, i)
                } by {
                    if i > 0 {
                        assert(t[i] == s[i - 1]);
                        assert(s.contains(s[i - 1]));
                        assert(next_link(t, i) == next_link(s, i - 1));
                        if i > 1 {
                            assert(s[i - 1] != s[0]);
                            assert(prev_link(t, i) == prev_link(s, i - 1));
                        }
                    }
                }
                assert forall|i: int, j: int| 0 <= i < j < t.len() implies #[trigger] t[i]
                    != #[trigger] t[j] by {
                    assert(t[j] == s[j - 1]);
                    assert(s.contains(s[j - 1]));
                    if i > 0 {
                        assert(t[i] == s[i - 1]);
                    }
                }
            }
        }
    }

    /// Takes the first descriptor off the list of this hook, if there is one, and
    /// resets its hook.
    pub fn remove_next(&mut self, pages: &mut Pages) -> (r: Option<PageFrame>)
        requires
            exists|s: Seq<u64>| dll_wf(*old(self), old(pages), s),
        ensures
            forall|s: Seq<u64>|
                dll_wf(*old(self), old(pages), s) ==> {
                    &&& r == (if s.len() == 0 {
                        None
                    } else {
                        Some(PageFrame(s[0]))
                    })
                    &&& dll_wf(
                        *final(self),
                        final(pages),
                        if s.len() == 0 {
                            s
                        } else {
                            s.drop_first()
                        },
                    )
                },
            r is None ==> *final(pages) == *old(pages) && *final(self) == *old(self),
            r matches Some(f) ==> final(pages).page(f.0).list_node.data == (DoubleLinkedList {
                next: LINK_NULL,
                prev: LINK_NULL,
            }) && hooks_only(
                old(pages),
                final(pages),
                if old(pages).page(f.0).list_node.data.next == LINK_NULL {
                    set![f.0]
                } else {
                    set![f.0, old(pages).page(f.0).list_node.data.next]
                },
            ),
    {
        let ghost s0 = choose|s: Seq<u64>| dll_wf(*self, pages, s);
        if self.next == LINK_NULL {
            proof {
                assert forall|s: Seq<u64>| dll_wf(*self, pages, s) implies s.len() == 0 by {
                    if s.len() > 0 {
                        assert(pages.has(s[0]));
                    }
                }
            }
            return None;
        }
        let node: u64 = self.next;
        proof {
            if s0.len() == 0 {
            } else {
                assert(pages.has(s0[0]));
            }
        }
        let h: DoubleLinkedList = hook(pages, node);
        self.next = h.next;
        if h.next != LINK_NULL {
            proof {
                assert(h.next == next_link(s0, 0));
                assert(pages.has(s0[1]));
            }
            let n: DoubleLinkedList = hook(pages, h.next);
            write_hook(pages, h.next, DoubleLinkedList { next: n.next, prev: LINK_HEAD });
        }
        write_hook(pages, node, DoubleLinkedList::new());
        proof {
            assert forall|s: Seq<u64>| dll_wf(*old(self), old(pages), s) implies s.len() > 0
                && s[0] == node && dll_wf(*self, pages, s.drop_first()) by {
                if s.len() == 0 {
                } else {
                    assert(old(pages).has(s[0]));
                    let t = s.drop_first();
                    assert forall|i: int| 0 <= i < t.len() implies {
                        &&& pages.has(#[trigger] t[i])
                        &&& t[i] != LINK_HEAD
                        &&& pages.page(t[i]).list_node.data.next == next_link(t, i)
                        &&& pages.page(t[i]).list_node.data.prev == prev_link(t, i)
                    } by {
                        assert(t[i] == s[i + 1]);
                        assert(old(pages).has(s[i + 1]));
                        assert(s[i + 1] != s[0]);
                        assert(next_link(t, i) == next_link(s, i + 1));
                        if i > 0 {
                            assert(s[i + 1] != s[1]);
                            assert(prev_link(t, i) == prev_link(s, i + 1));
                        }
                    }
                    assert forall|i: int, j: int| 0 <= i < j < t.len() implies #[trigger] t[i]
                        != #[trigger] t[j] by {
                        assert(t[i] == s[i + 1] && t[j] == s[j + 1]);
                    }
                }
            }
        }
        Some(PageFrame(node))
    }

    /// Unlinks the descriptor of `frame` from the list of this hook and resets its hook.
    pub fn remove(&mut self, pages: &mut Pages, frame: PageFrame)
        requires
            exists|s: Seq<u64>| dll_wf(*old(self), old(pages), s) && s.contains(frame.0),
        ensures
            forall|s: Seq<u64>, i: int|
                dll_wf(*old(self), old(pages), s) && 0 <= i < s.len() && s[i] == frame.0 ==> dll_wf(
                    *final(self),
                    final(pages),
                    s.remove(i),
                ),
            final(pages).page(frame.0).list_node.data == (DoubleLinkedList {
                next: LINK_NULL,
                prev: LINK_NULL,
            }),
            final(pages)@.len() == old(pages)@.len(),
            forall|f: u64|
                old(pages).has(f) ==> #[trigger] final(pages).page(f) == (Page {
                    list_node: Spin {
                        data: final(pages).page(f).list_node.data,
                        ..old(pages).page(f).list_node
                    },
                    ..old(pages).page(f)
                }),
            forall|s: Seq<u64>, f: u64|
                #![trigger dll_wf(*old(self), old(pages), s), final(pages).page(f)]
                dll_wf(*old(self), old(pages), s) && old(pages).has(f) && !s.contains(f)
                    ==> final(pages).page(f) == old(pages).page(f),
    {
        let ghost s0 = choose|s: Seq<u64>| dll_wf(*self, pages, s) && s.contains(frame.0);
        let ghost i0 = choose|i: int| 0 <= i < s0.len() && s0[i] == frame.0;
        assert(pages.has(s0[i0]));
        let h: DoubleLinkedList = hook(pages, frame.0);
        if h.next != LINK_NULL {
            proof {
                assert(h.next == next_link(s0, i0));
                assert(pages.has(s0[i0 + 1]));
            }
            let n: DoubleLinkedList = hook(pages, h.next);
            write_hook(pages, h.next, DoubleLinkedList { next: n.next, prev: h.prev });
        }
        if h.prev == LINK_HEAD {
            self.next = h.next;
        } else {
            proof {
                assert(h.prev == prev_link(s0, i0));
                assert(pages.has(s0[i0 - 1]));
            }
            let p: DoubleLinkedList = hook(pages, h.prev);
            write_hook(pages, h.prev, DoubleLinkedList { next: h.next, prev: p.prev });
        }
        write_hook(pages, frame.0, DoubleLinkedList::new());
        proof {
            assert forall|s: Seq<u64>, i: int|
                dll_wf(*old(self), old(pages), s) && 0 <= i < s.len() && s[i]
                    == frame.0 implies dll_wf(*self, pages, s.remove(i)) by {
                lemma_remove(*old(self), old(pages), *self, pages, s, i);
            }
            assert forall|s: Seq<u64>, f: u64|
                #![trigger dll_wf(*old(self), old(pages), s), pages.page(f)]
                dll_wf(*old(self), old(pages), s) && old(pages).has(f) && !s.contains(
                    f,
                ) implies pages.page(f) == old(pages).page(f) by {
                lemma_same_list(*old(self), old(pages), s, s0);
                if i0 + 1 < s0.len() {
                    assert(s0.contains(s0[i0 + 1]));
                }
                if i0 > 0 {
                    assert(s0.contains(s0[i0 - 1]));
                }
            }
        }
    }
}

/// A hook is the hook of one list only.
pub proof fn lemma_same_list(head: DoubleLinkedList, pages: &Pages, s: Seq<u64>, t: Seq<u64>)
    requires
        dll_wf(head, pages, s),
        dll_wf(head, pages, t),
    ensures
        s == t,
{
    lemma_same_prefix(head, pages, s, t, s.len() as int);
    lemma_same_prefix(head, pages, t, s, t.len() as int);
    if s.len() < t.len() {
        let n = s.len() as int;
        if n == 0 {
            assert(pages.has(t[0]));
        } else {
            assert(pages.has(s[n - 1]));
            assert(pages.has(t[n]));
            assert(pages.page(s[n - 1]).list_node.data.next == next_link(s, n - 1));
            assert(pages.page(t[n - 1]).list_node.data.next == next_link(t, n - 1));
        }
    }
    if t.len() < s.len() {
        let n = t.len() as int;
        if n == 0 {
            assert(pages.has(s[0]));
        } else {
            assert(pages.has(t[n - 1]));
            assert(pages.has(s[n]));
            assert(pages.page(s[n - 1]).list_node.data.next == next_link(s, n - 1));
            assert(pages.page(t[n - 1]).list_node.data.next == next_link(t, n - 1));
        }
    }
    assert(s =~= t);
}

proof fn lemma_same_prefix(
    head: DoubleLinkedList,
    pages: &Pages,
    s: Seq<u64>,
    t: Seq<u64>,
    n: int,
)
    requires
        dll_wf(head, pages, s),
        dll_wf(head, pages, t),
        0 <= n <= s.len(),
    ensures
        forall|i: int| 0 <= i < n && i < t.len() ==> s[i] == t[i],
    decreases n,
{
    if n > 0 {
        lemma_same_prefix(head, pages, s, t, n - 1);
        if n - 1 < t.len() {
            if n == 1 {
            } else {
                assert(pages.has(s[n - 2]));
                assert(pages.has(t[n - 2]));
                assert(pages.page(s[n - 2]).list_node.data.next == next_link(s, n - 2));
                assert(pages.page(t[n - 2]).list_node.data.next == next_link(t, n - 2));
            }
        }
    }
}

/// What unlinking descriptor `i` leaves: the list without it.
proof fn lemma_remove(
    head0: DoubleLinkedList,
    before: &Pages,
    head1: DoubleLinkedList,
    after: &Pages,
    s: Seq<u64>,
    i: int,
)
    requires
        dll_wf(head0, before, s),
        0 <= i < s.len(),
        after@.len() == before@.len(),
        head1.next == (if i == 0 {
            next_link(s, 0)
        } else {
            head0.next
        }),
        forall|k: int|
            0 <= k < s.len() && k != i ==> (#[trigger] after.page(s[k])).list_node.data
                == (DoubleLinkedList {
                next: if k == i - 1 {
                    next_link(s, i)
                } else {
                    next_link(s, k)
                },
                prev: if k == i + 1 {
                    prev_link(s, i)
                } else {
                    prev_link(s, k)
                },
            }),
    ensures
        dll_wf(head1, after, s.remove(i)),
{
    let t = s.remove(i);
    assert forall|k: int| 0 <= k < t.len() implies {
        &&& after.has(#[trigger] t[k])
        &&& t[k] != LINK_HEAD
        &&& after.page(t[k]).list_node.data.next == next_link(t, k)
        &&& after.page(t[k]).list_node.data.prev == prev_link(t, k)
    } by {
        let sk = if k < i { k } else { k + 1 };
        assert(t[k] == s[sk]);
        assert(before.has(s[sk]));
        assert(after.page(s[sk]).list_node.data.next == next_link(t, k));
        assert(after.page(s[sk]).list_node.data.prev == prev_link(t, k));
    }
    assert forall|k: int, j: int| 0 <= k < j < t.len() implies #[trigger] t[k]
        != #[trigger] t[j] by {
        let sk = if k < i { k } else { k + 1 };
        let sj = if j < i { j } else { j + 1 };
        assert(t[k] == s[sk] && t[j] == s[sj]);
    }
    if t.len() > 0 {
        assert(t[0] == s[if i == 0 { 1int } else { 0int }]);
    }
}

} // verus!
