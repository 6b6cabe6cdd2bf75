//! Buddy system implementation.
//!
//! Free memory is kept as runs of `2^k` page frames, each aligned to its own
//! size. List `k` holds the runs of order `k`; a run is named by the address
//! of its first word in the linear map, which is where its list node lives.

use vstd::arithmetic::power2::{lemma2_to64, lemma_pow2_pos, lemma_pow2_strictly_increases, lemma_pow2_unfold, pow2};
use vstd::prelude::*;

use super::linked_list::{next_of, LinkedList};
use crate::mm::memory::Memory;
use crate::mm::{PageFrame, PAGE_OFF};

verus! {

/// The highest number of free lists that the linear map has room for.
pub const MAX_ORDER: usize = 26;

/// The bytes in a run of order `k`: `4096 * 2^k`.
pub open spec fn run_bytes(k: nat) -> int {
    4096 * (pow2(k) as int)
}

/// The run of order `k` at `a` lies in `mem` and is aligned to its own size.
pub open spec fn run_ok(mem: &Memory, a: u64, k: nat) -> bool {
    &&& mem.start() <= a
    &&& a + run_bytes(k) <= mem.end()
    &&& (a - PAGE_OFF) % run_bytes(k) == 0
}

/// The runs of order `k` at `a` and of order `k2` at `b` share no byte.
pub open spec fn runs_disjoint(a: u64, k: nat, b: u64, k2: nat) -> bool {
    a + run_bytes(k) <= b || b + run_bytes(k2) <= a
}

/// The address of the run that a run of order `k` at `a` merges with: `a` with bit
/// `12 + k` flipped, which is one run up from an even position and one down from an odd
/// one.
pub open spec fn buddy_of(a: u64, k: nat) -> int {
    if ((a - PAGE_OFF) / run_bytes(k)) % 2 == 0 {
        a + run_bytes(k)
    } else {
        a - run_bytes(k)
    }
}

/// `x` is a multiple of `d`, given with the factor.
pub proof fn lemma_multiple(x: int, q: int, d: int)
    requires
        d > 0,
        x == q * d,
    ensures
        x % d == 0,
        x / d == q,
{
    vstd::arithmetic::div_mod::lemma_mod_multiples_basic(q, d);
    vstd::arithmetic::div_mod::lemma_div_multiples_vanish(q, d);
    assert(d * q == q * d) by (nonlinear_arith);
}

/// A multiple of `d` is its quotient times `d`.
pub proof fn lemma_factor(x: int, d: int)
    requires
        d > 0,
        x % d == 0,
    ensures
        x == (x / d) * d,
{
    vstd::arithmetic::div_mod::lemma_fundamental_div_mod(x, d);
    assert(d * (x / d) == (x / d) * d) by (nonlinear_arith);
}

pub proof fn lemma_run_bytes(k: nat)
    ensures
        run_bytes(k) >= 4096,
        run_bytes(k) % 4096 == 0,
        run_bytes(k + 1) == 2 * run_bytes(k),
        k <= 25 ==> run_bytes(k) <= 0x20_0000_0000,
{
    lemma_pow2_pos(k);
    lemma_pow2_unfold(k + 1);
    let p = pow2(k) as int;
    assert(4096 * p == p * 4096) by (nonlinear_arith);
    lemma_multiple(run_bytes(k), p, 4096);
    if k <= 25 {
        lemma2_to64();
        if k < 25 {
            lemma_pow2_strictly_increases(k, 25);
        }
    }
}

/// A run that is in order starts at a word of memory.
pub proof fn lemma_run_contains(mem: &Memory, a: u64, k: nat)
    requires
        mem.wf(),
        run_ok(mem, a, k),
    ensures
        mem.contains(a),
        a >= PAGE_OFF,
        (a - PAGE_OFF) % 4096 == 0,
{
    reveal(crate::mm::memory::addr_ok);
    lemma_run_bytes(k);
    let x = a - PAGE_OFF;
    let p = pow2(k) as int;
    let b = run_bytes(k);
    lemma_factor(x, b);
    let q = x / b;
    assert(q * (4096 * p) == (q * p) * 4096) by (nonlinear_arith);
    lemma_multiple(x, q * p, 4096);
}

/// The two halves of a run are runs of the order below.
pub proof fn lemma_halves(mem: &Memory, a: u64, k: nat)
    requires
        mem.wf(),
        run_ok(mem, a, k + 1),
    ensures
        run_ok(mem, a, k),
        run_ok(mem, (a + run_bytes(k)) as u64, k),
        a + run_bytes(k) <= u64::MAX,
        a + 2 * run_bytes(k) == a + run_bytes(k + 1),
{
    lemma_run_bytes(k);
    let x = a - PAGE_OFF;
    let b = run_bytes(k);
    lemma_factor(x, 2 * b);
    let q = x / (2 * b);
    assert(q * (2 * b) == (2 * q) * b) by (nonlinear_arith);
    assert((2 * q) * b + b == (2 * q + 1) * b) by (nonlinear_arith);
    lemma_multiple(x, 2 * q, b);
    lemma_multiple(x + b, 2 * q + 1, b);
}

/// A run and its buddy, both in order, make up a run of the order above, which
/// starts at the lower of the two.
pub proof fn lemma_merge(mem: &Memory, a: u64, b: u64, k: nat)
    requires
        mem.wf(),
        run_ok(mem, a, k),
        run_ok(mem, b, k),
        b == buddy_of(a, k),
    ensures
        run_ok(mem, if a < b { a } else { b }, k + 1),
        (if a < b { a } else { b }) + run_bytes(k) == (if a < b { b } else { a }),
{
    lemma_run_bytes(k);
    let x = a - PAGE_OFF;
    let s = run_bytes(k);
    let m = x / s;
    lemma_factor(x, s);
    if m % 2 == 0 {
        let q = m / 2;
        assert(m == 2 * q);
        assert((2 * q) * s == q * (2 * s)) by (nonlinear_arith);
        lemma_multiple(x, q, 2 * s);
    } else {
        let q = (m - 1) / 2;
        assert(m == 2 * q + 1);
        assert((2 * q + 1) * s - s == q * (2 * s)) by (nonlinear_arith);
        lemma_multiple(x - s, q, 2 * s);
    }
}

/// The bytes in a run of order `k`.
pub fn order_bytes(k: usize) -> (r: u64)
    requires
        k <= 25,
    ensures
        r == run_bytes(k as nat),
{
    proof {
        lemma_run_bytes(k as nat);
        vstd::bits::lemma_u64_shl_is_mul(4096, k as u64);
    }
    4096u64 << (k as u64)
}

/// What a list holds once `a` was put in front of `s`.
pub proof fn lemma_push_contains(s: Seq<u64>, a: u64)
    ensures
        forall|x: u64| #[trigger] (seq![a] + s).contains(x) <==> (x == a || s.contains(x)),
{
    let t = seq![a] + s;
    assert forall|x: u64| #[trigger] t.contains(x) <==> (x == a || s.contains(x)) by {
        if t.contains(x) {
            let i = choose|i: int| 0 <= i < t.len() && t[i] == x;
            if i > 0 {
                assert(s[i - 1] == x);
            }
        }
        if x == a {
            assert(t[0] == x);
        }
        if s.contains(x) {
            let i = choose|i: int| 0 <= i < s.len() && s[i] == x;
            assert(t[i + 1] == x);
        }
    }
}

/// What a list without duplicates holds once block `i` was taken out of `s`.
pub proof fn lemma_remove_contains(s: Seq<u64>, i: int)
    requires
        0 <= i < s.len(),
        s.no_duplicates(),
    ensures
        forall|x: u64| #[trigger] s.remove(i).contains(x) <==> (x != s[i] && s.contains(x)),
{
    let t = s.remove(i);
    assert forall|x: u64| #[trigger] t.contains(x) <==> (x != s[i] && s.contains(x)) by {
        if t.contains(x) {
            let j = choose|j: int| 0 <= j < t.len() && t[j] == x;
            let sj = if j < i { j } else { j + 1 };
            assert(s[sj] == x);
        }
        if x != s[i] && s.contains(x) {
            let j = choose|j: int| 0 <= j < s.len() && s[j] == x;
            let tj = if j < i { j } else { j - 1 };
            assert(t[tj] == x);
        }
    }
}

/// The buddy allocator: `ORDER` free lists, list `k` for the runs of `2^k` frames.
pub struct Buddy<const ORDER: usize> {
    pub free_list: [LinkedList; ORDER],
}

impl<const ORDER: usize> View for Buddy<ORDER> {
    type V = Seq<Seq<u64>>;

    /// For each order the addresses of its free runs, in the order of the list.
    open spec fn view(&self) -> Seq<Seq<u64>> {
        Seq::new(ORDER as nat, |k: int| self.level(k))
    }
}

impl<const ORDER: usize> Buddy<ORDER> {
    /// The addresses of the free runs of order `k`, in the order of the list.
    pub open spec fn level(&self, k: int) -> Seq<u64> {
        self.free_list@[k]@
    }

    /// Every list is a list in `mem`; every run lies in `mem` and is aligned to its
    /// size; no two runs share a byte, so no run occurs twice.
    pub open spec fn wf(&self, mem: &Memory) -> bool {
        &&& 1 <= ORDER <= MAX_ORDER
        &&& mem.wf()
        &&& forall|k: int| 0 <= k < ORDER ==> (#[trigger] self.free_list@[k]).wf(mem)
        &&& forall|k: int, a: u64|
            0 <= k < ORDER && #[trigger] self.level(k).contains(a) ==> run_ok(mem, a, k as nat)
        &&& forall|k: int, a: u64, k2: int, b: u64|
            0 <= k < ORDER && 0 <= k2 < ORDER && #[trigger] self.level(k).contains(a)
                && #[trigger] self.level(k2).contains(b) && (k != k2 || a != b) ==> runs_disjoint(
                a,
                k as nat,
                b,
                k2 as nat,
            )
    }

    /// The run of order `k` at `a` shares no byte with a free run.
    pub open spec fn clear_of(&self, a: u64, k: nat) -> bool {
        forall|k2: int, b: u64|
            0 <= k2 < ORDER && #[trigger] self.level(k2).contains(b) ==> runs_disjoint(
                a,
                k,
                b,
                k2 as nat,
            )
    }

    /// Whether byte address `a` lies in a free run.
    pub open spec fn is_free(&self, a: int) -> bool {
        exists|k: int, b: u64|
            0 <= k < ORDER && #[trigger] self.level(k).contains(b) && b <= a < b + run_bytes(
                k as nat,
            )
    }

    /// The allocator stays well formed when memory changes outside of its free runs.
    pub proof fn lemma_wf_frame(&self, m1: &Memory, m2: &Memory)
        requires
            self.wf(m1),
            m2.wf(),
            m2.same_shape(m1),
            forall|x: u64| m1.contains(x) && self.is_free(x as int) ==> m2.word(x) == m1.word(x),
        ensures
            self.wf(m2),
    {
        assert forall|k: int| 0 <= k < ORDER implies (#[trigger] self.free_list@[k]).wf(m2) by {
            let l = self.free_list@[k];
            assert(l.wf(m1));
            assert forall|i: int| 0 <= i < l@.len() implies m2.word(#[trigger] l@[i]) == m1.word(
                l@[i],
            ) by {
                assert(self.level(k).contains(l@[i]));
                lemma_run_bytes(k as nat);
                assert(self.is_free(l@[i] as int));
            }
            l.lemma_wf_frame(m1, m2);
        }
        assert forall|k: int, a: u64| 0 <= k < ORDER && #[trigger] self.level(k).contains(
            a,
        ) implies run_ok(m2, a, k as nat) by {
            assert(run_ok(m1, a, k as nat));
        }
    }

    /// In a well-formed allocator every address on list `k` is aligned to `4096 * 2^k`,
    /// and no address stands twice on the lists.
    pub proof fn lemma_free_lists_aligned(&self, mem: &Memory, k: int, i: int, k2: int, j: int)
        requires
            self.wf(mem),
            0 <= k < ORDER,
            0 <= i < self@[k].len(),
            0 <= k2 < ORDER,
            0 <= j < self@[k2].len(),
        ensures
            (self@[k][i] - PAGE_OFF) % (4096 * pow2(k as nat)) as int == 0,
            self@[k][i] % (4096 * pow2(k as nat)) as u64 == 0,
            (k != k2 || i != j) ==> self@[k][i] != self@[k2][j],
    {
        let a = self@[k][i];
        let b = self@[k2][j];
        assert(self.level(k).contains(a));
        assert(self.level(k2).contains(b));
        lemma_run_bytes(k as nat);
        lemma_run_bytes(k2 as nat);
        let bytes = run_bytes(k as nat);
        // the offset of the linear map is a multiple of every run size
        lemma2_to64();
        vstd::arithmetic::power2::lemma2_to64_rest();
        vstd::arithmetic::power2::lemma_pow2_adds((12 + k) as nat, (26 - k) as nat);
        vstd::arithmetic::power2::lemma_pow2_adds(12, k as nat);
        vstd::arithmetic::power2::lemma_pow2_pos((26 - k) as nat);
        let q = 0x3ff_ffff * (pow2((26 - k) as nat) as int);
        assert(PAGE_OFF as int == 0x3ff_ffff * 0x40_0000_0000);
        assert(0x3ff_ffff * (pow2((26 - k) as nat) * bytes) == q * bytes) by (nonlinear_arith)
            requires
                q == 0x3ff_ffff * (pow2((26 - k) as nat) as int),
        ;
        assert(pow2((26 - k) as nat) * bytes == 0x40_0000_0000) by (nonlinear_arith)
            requires
                bytes == 4096 * pow2(k as nat),
                pow2(38) == pow2((12 + k) as nat) * pow2((26 - k) as nat),
                pow2((12 + k) as nat) == pow2(12) * pow2(k as nat),
                pow2(12) == 4096,
                pow2(38) == 0x40_0000_0000,
        ;
        lemma_factor(a - PAGE_OFF, bytes);
        let m = (a - PAGE_OFF) / bytes;
        assert(a as int == (m + q) * bytes) by (nonlinear_arith)
            requires
                a - PAGE_OFF == m * bytes,
                PAGE_OFF as int == q * bytes,
        ;
        lemma_multiple(a as int, m + q, bytes);
        if k == k2 && i != j {
            assert(self.free_list@[k].wf(mem));
            assert(self.level(k)[i] != self.level(k)[j]);
        }
    }

    /// A run none of whose bytes is free shares no byte with a free run.
    pub proof fn lemma_clear_from_free(&self, mem: &Memory, a: u64, k: nat)
        requires
            self.wf(mem),
            forall|x: int| a <= x < a + run_bytes(k) ==> !self.is_free(x),
        ensures
            self.clear_of(a, k),
    {
        lemma_run_bytes(k);
        assert forall|k2: int, b: u64| 0 <= k2 < ORDER && #[trigger] self.level(k2).contains(
            b,
        ) implies runs_disjoint(a, k, b, k2 as nat) by {
            lemma_run_bytes(k2 as nat);
            if !runs_disjoint(a, k, b, k2 as nat) {
                let x = if a < b { b as int } else { a as int };
                assert(b <= x < b + run_bytes(k2 as nat));
                assert(self.is_free(x));
            }
        }
    }

    /// An allocator without free memory.
    pub fn new() -> (r: Self)
        ensures
            forall|k: int| 0 <= k < ORDER ==> r.level(k) == Seq::<u64>::empty(),
            forall|mem: &Memory| mem.wf() && 1 <= ORDER <= MAX_ORDER ==> r.wf(mem),
    {
        let r = Buddy { free_list: vstd::array::array_fill_for_copy_types(LinkedList::new()) };
        assert forall|mem: &Memory| mem.wf() && 1 <= ORDER <= MAX_ORDER implies r.wf(mem) by {
            assert forall|k: int, a: u64| 0 <= k < ORDER implies !#[trigger] r.level(k).contains(
                a,
            ) by {}
        }
        r
    }

    /// Puts the run of order `k` at `a` in front of list `k`.
    pub fn put(&mut self, mem: &mut Memory, k: usize, a: u64)
        requires
            old(self).wf(old(mem)),
            k < ORDER,
            run_ok(old(mem), a, k as nat),
            old(self).clear_of(a, k as nat),
        ensures
            final(self).wf(final(mem)),
            final(self).level(k as int) == seq![a] + old(self).level(k as int),
            forall|k2: int| 0 <= k2 < ORDER && k2 != k ==> final(self).level(k2) == old(self).level(k2),
            final(self)@ == old(self)@.update(k as int, seq![a] + old(self).level(k as int)),
            final(mem).same_shape(old(mem)),
            forall|x: u64|
                old(mem).contains(x) && x != a ==> final(mem).word(x) == old(mem).word(x),
            forall|x: int|
                final(self).is_free(x) <==> (old(self).is_free(x) || a <= x < a + run_bytes(
                    k as nat,
                )),
    {
        proof {
            lemma_run_contains(mem, a, k as nat);
            assert forall|k2: int, b: u64| 0 <= k2 < ORDER && #[trigger] self.level(k2).contains(
                b,
            ) implies b != a by {
                lemma_run_bytes(k as nat);
                lemma_run_bytes(k2 as nat);
                assert(runs_disjoint(a, k as nat, b, k2 as nat));
            }
        }
        let mut list: LinkedList = self.free_list[k];
        assert(list == self.free_list@[k as int]);
        assert(!list@.contains(a)) by {
            if self.level(k as int).contains(a) {
            }
        }
        list.push(mem, a);
        self.free_list[k] = list;
        proof {
            lemma_push_contains(old(self).level(k as int), a);
            assert forall|k2: int| 0 <= k2 < ORDER implies (#[trigger] self.free_list@[k2]).wf(
                mem,
            ) by {
                if k2 != k {
                    let l = old(self).free_list@[k2];
                    assert(l.wf(old(mem)));
                    assert forall|i: int| 0 <= i < l@.len() implies mem.word(#[trigger] l@[i])
                        == old(mem).word(l@[i]) by {
                        assert(old(self).level(k2).contains(l@[i]));
                    }
                    l.lemma_wf_frame(old(mem), mem);
                }
            }
            assert forall|k2: int, b: u64| 0 <= k2 < ORDER && #[trigger] self.level(k2).contains(
                b,
            ) implies run_ok(mem, b, k2 as nat) by {
                if !(k2 == k && b == a) {
                    assert(old(self).level(k2).contains(b));
                }
            }
            assert forall|k1: int, a1: u64, k2: int, b: u64|
                0 <= k1 < ORDER && 0 <= k2 < ORDER && #[trigger] self.level(k1).contains(a1)
                    && #[trigger] self.level(k2).contains(b) && (k1 != k2 || a1 != b) implies runs_disjoint(
                a1,
                k1 as nat,
                b,
                k2 as nat,
            ) by {
                let new1 = k1 == k && a1 == a;
                let new2 = k2 == k && b == a;
                if !new1 {
                    assert(old(self).level(k1).contains(a1));
                }
                if !new2 {
                    assert(old(self).level(k2).contains(b));
                }
            }
            assert(self@ =~= old(self)@.update(k as int, seq![a] + old(self).level(k as int)));
            assert forall|x: int| self.is_free(x) <==> (old(self).is_free(x) || a <= x < a
                + run_bytes(k as nat)) by {
                if self.is_free(x) {
                    let (k2, b) = choose|k2: int, b: u64|
                        0 <= k2 < ORDER && #[trigger] self.level(k2).contains(b) && b <= x < b
                            + run_bytes(k2 as nat);
                    if !(k2 == k && b == a) {
                        assert(old(self).level(k2).contains(b));
                    }
                }
                if old(self).is_free(x) {
                    let (k2, b) = choose|k2: int, b: u64|
                        0 <= k2 < ORDER && #[trigger] old(self).level(k2).contains(b) && b <= x < b
                            + run_bytes(k2 as nat);
                    assert(self.level(k2).contains(b));
                }
                if a <= x < a + run_bytes(k as nat) {
                    assert(self.level(k as int).contains(a));
                }
            }
        }
    }

    /// Takes the first run off list `k`.
    pub fn take(&mut self, mem: &Memory, k: usize) -> (a: u64)
        requires
            old(self).wf(mem),
            k < ORDER,
            old(self).level(k as int).len() > 0,
        ensures
            final(self).wf(mem),
            a == old(self).level(k as int)[0],
            final(self).level(k as int) == old(self).level(k as int).drop_first(),
            forall|k2: int| 0 <= k2 < ORDER && k2 != k ==> final(self).level(k2) == old(self).level(k2),
            final(self)@ == old(self)@.update(k as int, old(self).level(k as int).drop_first()),
            run_ok(mem, a, k as nat),
            final(self).clear_of(a, k as nat),
            forall|x: int|
                final(self).is_free(x) <==> (old(self).is_free(x) && !(a <= x < a + run_bytes(
                    k as nat,
                ))),
    {
        let mut list: LinkedList = self.free_list[k];
        assert(list == self.free_list@[k as int]);
        let r = list.pop(mem);
        self.free_list[k] = list;
        let a: u64 = r.unwrap();
        proof {
            let s = old(self).level(k as int);
            assert(s.contains(s[0]));
            assert(s.no_duplicates());
            assert(s.drop_first() =~= s.remove(0));
            lemma_remove_contains(s, 0);
            assert forall|k2: int, b: u64| 0 <= k2 < ORDER && #[trigger] self.level(k2).contains(
                b,
            ) implies old(self).level(k2).contains(b) && (k2 != k || b != a) by {}
            assert(self@ =~= old(self)@.update(k as int, s.drop_first()));
            lemma_run_bytes(k as nat);
            assert forall|x: int| self.is_free(x) <==> (old(self).is_free(x) && !(a <= x < a
                + run_bytes(k as nat))) by {
                if self.is_free(x) {
                    let (k2, b) = choose|k2: int, b: u64|
                        0 <= k2 < ORDER && #[trigger] self.level(k2).contains(b) && b <= x < b
                            + run_bytes(k2 as nat);
                    assert(old(self).level(k2).contains(b));
                    assert(runs_disjoint(a, k as nat, b, k2 as nat));
                }
                if old(self).is_free(x) && !(a <= x < a + run_bytes(k as nat)) {
                    let (k2, b) = choose|k2: int, b: u64|
                        0 <= k2 < ORDER && #[trigger] old(self).level(k2).contains(b) && b <= x < b
                            + run_bytes(k2 as nat);
                    assert(self.level(k2).contains(b));
                }
            }
        }
        a
    }

    /// Looks for the run at `b` in list `k` and unlinks it where it is there.
    pub fn unlink(&mut self, mem: &mut Memory, k: usize, b: u64) -> (found: bool)
        requires
            old(self).wf(old(mem)),
            k < ORDER,
        ensures
            final(self).wf(final(mem)),
            found == old(self).level(k as int).contains(b),
            forall|k2: int| 0 <= k2 < ORDER && k2 != k ==> final(self).level(k2) == old(self).level(k2),
            !found ==> final(self).level(k as int) == old(self).level(k as int),
            !found ==> final(mem)@ == old(mem)@,
            found ==> final(self).level(k as int) == old(self).level(k as int).remove(
                index_in(old(self).level(k as int), b),
            ),
            found ==> final(self)@ == old(self)@.update(
                k as int,
                old(self).level(k as int).remove(index_in(old(self).level(k as int), b)),
            ),
            !found ==> final(self)@ == old(self)@,
            found ==> run_ok(final(mem), b, k as nat) && final(self).clear_of(b, k as nat),
            final(mem).same_shape(old(mem)),
            forall|x: u64|
                old(mem).contains(x) && !old(self).level(k as int).contains(x) ==> final(mem).word(
                    x,
                ) == old(mem).word(x),
            forall|x: int|
                final(self).is_free(x) <==> (old(self).is_free(x) && !(found && b <= x < b
                    + run_bytes(k as nat))),
    {
        let mut list: LinkedList = self.free_list[k];
        assert(list == self.free_list@[k as int]);
        let ghost s = list@;
        let mut it = list.iter_mut();
        let mut found = false;
        let ghost mut pos: int = 0;
        proof {
            list.lemma_head(mem);
        }
        while !found
            invariant_except_break
                *mem == *old(mem),
                list == self.free_list@[k as int],
                s == list@,
                !found,
                0 <= pos <= s.len(),
                it.prev == (if pos == 0 {
                    0
                } else {
                    s[pos - 1]
                }),
                forall|j: int| 0 <= j < pos ==> s[j] != b,
            invariant
                mem.wf(),
                *self == *old(self),
                list.wf(mem),
            ensures
                mem.wf(),
                mem.same_shape(old(mem)),
                *self == *old(self),
                list.wf(mem),
                found ==> 0 <= pos < s.len() && s[pos] == b && list@ == s.remove(pos),
                !found ==> list@ == s && *mem == *old(mem) && forall|j: int|
                    0 <= j < s.len() ==> s[j] != b,
                forall|x: u64|
                    old(mem).contains(x) && !s.contains(x) ==> mem.word(x) == old(mem).word(x),
            decreases s.len() - pos,
        {
            proof {
                if pos > 0 {
                    assert(mem.contains(s[pos - 1]));
                    assert(mem.word(s[pos - 1]) == next_of(s, pos - 1));
                    mem.lemma_contains(s[pos - 1]);
                }
                if pos < s.len() {
                    assert(mem.contains(s[pos]));
                    mem.lemma_contains(s[pos]);
                }
            }
            match it.next(&list, mem) {
                None => {
                    break ;
                },
                Some(node) => {
                    assert(node.at(&list, pos));
                    if node.data() == b {
                        proof {
                            if pos > 0 {
                                assert(s.contains(s[pos - 1]));
                            }
                        }
                        node.remove(&mut list, mem);
                        found = true;
                        break ;
                    }
                    proof {
                        pos = pos + 1;
                    }
                },
            }
        }
        self.free_list[k] = list;
        proof {
            let old_level = old(self).level(k as int);
            assert(old_level.no_duplicates());
            if found {
                assert(old_level.contains(b));
                let i = index_in(old_level, b);
                assert(i == pos) by {
                    if i != pos {
                        assert(old_level[i] == old_level[pos]);
                    }
                }
                lemma_remove_contains(old_level, pos);
            } else {
                assert(!old_level.contains(b));
            }
            assert forall|k2: int| 0 <= k2 < ORDER implies (#[trigger] self.free_list@[k2]).wf(
                mem,
            ) by {
                if k2 != k {
                    let l = old(self).free_list@[k2];
                    assert(l.wf(old(mem)));
                    assert forall|i: int| 0 <= i < l@.len() implies mem.word(#[trigger] l@[i])
                        == old(mem).word(l@[i]) by {
                        assert(old(self).level(k2).contains(l@[i]));
                        if old_level.contains(l@[i]) {
                            lemma_run_bytes(k as nat);
                            lemma_run_bytes(k2 as nat);
                            assert(runs_disjoint(l@[i], k2 as nat, l@[i], k as nat));
                        }
                    }
                    l.lemma_wf_frame(old(mem), mem);
                }
            }
            assert forall|k2: int, c: u64| 0 <= k2 < ORDER && #[trigger] self.level(k2).contains(
                c,
            ) implies old(self).level(k2).contains(c) && !(found && k2 == k && c == b) by {}
            if found {
                assert(self@ =~= old(self)@.update(k as int, old_level.remove(pos)));
            } else {
                assert(self@ =~= old(self)@);
            }
            lemma_run_bytes(k as nat);
            assert forall|x: int| self.is_free(x) <==> (old(self).is_free(x) && !(found && b <= x
                < b + run_bytes(k as nat))) by {
                if self.is_free(x) {
                    let (k2, c) = choose|k2: int, c: u64|
                        0 <= k2 < ORDER && #[trigger] self.level(k2).contains(c) && c <= x < c
                            + run_bytes(k2 as nat);
                    assert(old(self).level(k2).contains(c));
                    if found {
                        assert(runs_disjoint(b, k as nat, c, k2 as nat));
                    }
                }
                if old(self).is_free(x) && !(found && b <= x < b + run_bytes(k as nat)) {
                    let (k2, c) = choose|k2: int, c: u64|
                        0 <= k2 < ORDER && #[trigger] old(self).level(k2).contains(c) && c <= x < c
                            + run_bytes(k2 as nat);
                    assert(self.level(k2).contains(c));
                }
            }
        }
        found
    }
}

/// The address in the linear map of the first word of frame `f`.
pub open spec fn frame_addr(f: u64) -> u64 {
    (f * 4096 + PAGE_OFF) as u64
}

/// The run of `2^k` frames at frame `f` lies in `mem` and is aligned to its size.
pub open spec fn frame_run_ok(mem: &Memory, f: u64, k: nat) -> bool {
    &&& mem.base <= f * 4096
    &&& f * 4096 + run_bytes(k) <= mem.base + 8 * mem@.len()
    &&& f % (pow2(k) as u64) == 0
}

/// A run that is in order by its frame is in order by its address.
pub proof fn lemma_frame_run(mem: &Memory, f: u64, k: nat)
    requires
        mem.wf(),
        frame_run_ok(mem, f, k),
    ensures
        run_ok(mem, frame_addr(f), k),
        frame_addr(f) == f * 4096 + PAGE_OFF,
        (frame_addr(f) - PAGE_OFF) / 4096 == f,
{
    lemma_run_bytes(k);
    lemma_pow2_pos(k);
    let p = pow2(k) as int;
    lemma_factor(f as int, p);
    let q = f as int / p;
    assert((q * p) * 4096 == q * (4096 * p)) by (nonlinear_arith);
    lemma_multiple(f * 4096, q, 4096 * p);
}

/// The first order from `k` up whose list is not empty; the number of lists if all are.
pub open spec fn first_nonempty(lists: Seq<Seq<u64>>, k: int) -> int
    decreases lists.len() - k,
{
    if k >= lists.len() {
        lists.len() as int
    } else if k >= 0 && lists[k].len() > 0 {
        k
    } else {
        first_nonempty(lists, k + 1)
    }
}

/// The free lists after a run of order `ord` was allocated: the first run of the lowest
/// order that has one leaves its list, and of each split on the way down the upper half
/// stays behind.
pub open spec fn spec_alloc(lists: Seq<Seq<u64>>, ord: int) -> Seq<Seq<u64>> {
    let i = first_nonempty(lists, ord);
    if i >= lists.len() {
        lists
    } else {
        Seq::new(
            lists.len(),
            |k: int|
                if k == i {
                    lists[i].drop_first()
                } else if ord <= k < i {
                    seq![(lists[i][0] + run_bytes(k as nat)) as u64]
                } else {
                    lists[k]
                },
        )
    }
}

/// The frame that such an allocation returns, if there is a run to take it from.
pub open spec fn spec_alloc_frame(lists: Seq<Seq<u64>>, ord: int) -> Option<PageFrame> {
    let i = first_nonempty(lists, ord);
    if i >= lists.len() {
        None
    } else {
        Some(PageFrame(((lists[i][0] - PAGE_OFF) / 4096) as u64))
    }
}

/// The address of the buddy of the run of order `k` at `a`, or 0 where that is no address.
pub open spec fn buddy_addr(a: u64, k: nat) -> u64 {
    if 0 <= buddy_of(a, k) <= u64::MAX {
        buddy_of(a, k) as u64
    } else {
        0
    }
}

/// The first run of `level`, a list of runs of order `j`, holds the run of order `k` at
/// `a`.
pub open spec fn holds_first(level: Seq<u64>, j: nat, a: u64, k: nat) -> bool {
    &&& level.len() > 0
    &&& level[0] <= a
    &&& a + run_bytes(k) <= level[0] + run_bytes(j)
}

/// The free lists after the run of order `k` at `a` was freed: while its buddy is free
/// and the order is below the highest, the two merge and go on one order up; the run
/// that is left goes in front of its list.
pub open spec fn spec_free(lists: Seq<Seq<u64>>, a: u64, k: nat) -> Seq<Seq<u64>>
    decreases lists.len() - k,
{
    if k >= lists.len() {
        lists
    } else {
        let b = buddy_addr(a, k);
        if k + 1 < lists.len() && lists[k as int].contains(b) {
            spec_free(
                lists.update(k as int, lists[k as int].remove(index_in(lists[k as int], b))),
                if a < b {
                    a
                } else {
                    b
                },
                k + 1,
            )
        } else {
            lists.update(k as int, seq![a] + lists[k as int])
        }
    }
}

/// The highest order, below `n`, of a run that can start at frame `cur` with `len`
/// frames left: `2^k` divides `cur` and is at most `len`.
pub open spec fn spec_carve_order(cur: int, len: int, n: nat) -> nat
    decreases n,
{
    if n <= 1 {
        0
    } else if cur % (pow2((n - 1) as nat) as int) == 0 && pow2((n - 1) as nat) <= len {
        (n - 1) as nat
    } else {
        spec_carve_order(cur, len, (n - 1) as nat)
    }
}

/// The free lists after the frames from `cur` to `end` were carved into runs, each the
/// largest that is aligned and fits, and each put in front of its list.
pub open spec fn spec_carve(lists: Seq<Seq<u64>>, cur: int, end: int) -> Seq<Seq<u64>>
    decreases end - cur,
{
    if cur >= end {
        lists
    } else {
        let k = spec_carve_order(cur, end - cur, lists.len());
        let step = pow2(k) as int;
        if step <= 0 || cur + step > end {
            lists
        } else {
            spec_carve(
                lists.update(k as int, seq![(cur * 4096 + PAGE_OFF) as u64] + lists[k as int]),
                cur + step,
                end,
            )
        }
    }
}

/// The frames on the first `n` lists: `2^k` for each run of order `k`.
pub open spec fn total_upto(lists: Seq<Seq<u64>>, n: nat) -> int
    decreases n,
{
    if n == 0 {
        0
    } else {
        total_upto(lists, (n - 1) as nat) + lists[n - 1].len() * pow2((n - 1) as nat)
    }
}

/// The free frames: `2^k` for each run of order `k`, over all lists.
pub open spec fn total_frames(lists: Seq<Seq<u64>>) -> int {
    total_upto(lists, lists.len())
}

/// Changing one list changes the total by the runs it gained, `2^k` frames each.
pub proof fn lemma_total_update(lists: Seq<Seq<u64>>, k: int, level: Seq<u64>)
    requires
        0 <= k < lists.len(),
    ensures
        total_frames(lists.update(k, level)) == total_frames(lists) + (level.len()
            - lists[k].len()) * pow2(k as nat),
{
    lemma_total_update_upto(lists, k, level, lists.len());
}

proof fn lemma_total_update_upto(lists: Seq<Seq<u64>>, k: int, level: Seq<u64>, n: nat)
    requires
        0 <= k < lists.len(),
        n <= lists.len(),
    ensures
        total_upto(lists.update(k, level), n) == total_upto(lists, n) + if k < n {
            (level.len() - lists[k].len()) * pow2(k as nat)
        } else {
            0
        },
    decreases n,
{
    if n > 0 {
        lemma_total_update_upto(lists, k, level, (n - 1) as nat);
        if k == n - 1 {
            let p = pow2(k as nat) as int;
            let x = level.len() as int;
            let y = lists[k].len() as int;
            assert(x * p == y * p + (x - y) * p) by (nonlinear_arith);
        }
    }
}

impl<const ORDER: usize> Buddy<ORDER> {
    /// A run that is clear of the free runs is so in each of its halves.
    pub proof fn lemma_clear_halves(&self, a: u64, k: nat)
        requires
            self.clear_of(a, k + 1),
            a + run_bytes(k + 1) <= u64::MAX + 1,
        ensures
            self.clear_of(a, k),
            self.clear_of((a + run_bytes(k)) as u64, k),
    {
        lemma_run_bytes(k);
        assert forall|k2: int, b: u64| 0 <= k2 < ORDER && #[trigger] self.level(k2).contains(
            b,
        ) implies runs_disjoint(a, k, b, k2 as nat) && runs_disjoint(
            (a + run_bytes(k)) as u64,
            k,
            b,
            k2 as nat,
        ) by {
            assert(runs_disjoint(a, k + 1, b, k2 as nat));
        }
    }

    /// Two runs that are clear of the free runs, one right after the other, are so as one.
    pub proof fn lemma_clear_merge(&self, a: u64, b: u64, k: nat)
        requires
            self.clear_of(a, k),
            self.clear_of(b, k),
            a + run_bytes(k) == b,
        ensures
            self.clear_of(a, k + 1),
    {
        lemma_run_bytes(k);
        assert forall|k2: int, c: u64| 0 <= k2 < ORDER && #[trigger] self.level(k2).contains(
            c,
        ) implies runs_disjoint(a, k + 1, c, k2 as nat) by {
            assert(runs_disjoint(a, k, c, k2 as nat));
            assert(runs_disjoint(b, k, c, k2 as nat));
            lemma_run_bytes(k2 as nat);
        }
    }

    /// The order of the run to carve at frame `cur` with `len` frames left.
    pub fn carve_order(cur: u64, len: u64) -> (k: usize)
        requires
            1 <= ORDER <= MAX_ORDER,
        ensures
            k == spec_carve_order(cur as int, len as int, ORDER as nat),
            k < ORDER,
            cur % (pow2(k as nat) as u64) == 0,
            len >= 1 ==> pow2(k as nat) <= len,
    {
        let mut n: usize = ORDER;
        proof {
            lemma2_to64();
        }
        while n > 1
            invariant
                1 <= n <= ORDER <= MAX_ORDER,
                spec_carve_order(cur as int, len as int, ORDER as nat) == spec_carve_order(
                    cur as int,
                    len as int,
                    n as nat,
                ),
            decreases n,
        {
            proof {
                lemma_run_bytes((n - 1) as nat);
                lemma_pow2_pos((n - 1) as nat);
                lemma2_to64();
                if n - 1 < 25 {
                    lemma_pow2_strictly_increases((n - 1) as nat, 25);
                }
                vstd::bits::lemma_u64_shl_is_mul(1, (n - 1) as u64);
            }
            let size: u64 = 1u64 << ((n - 1) as u64);
            if cur % size == 0 && size <= len {
                return n - 1;
            }
            n = n - 1;
        }
        0
    }

    /// Hands the frames from `start` up to `end` to the allocator. The range is carved
    /// greedily into runs: each is the largest that is aligned at its start, fits in
    /// what is left, and has a list.
    pub fn add_free_memory(&mut self, mem: &mut Memory, start: PageFrame, end: PageFrame)
        requires
            old(self).wf(old(mem)),
            start.0 < end.0,
            old(mem).base <= start.0 * 4096,
            end.0 * 4096 <= old(mem).base + 8 * old(mem)@.len(),
            forall|x: int|
                start.0 * 4096 + PAGE_OFF <= x < end.0 * 4096 + PAGE_OFF ==> !old(self).is_free(x),
        ensures
            final(self).wf(final(mem)),
            final(mem).same_shape(old(mem)),
            final(self)@ == spec_carve(old(self)@, start.0 as int, end.0 as int),
            total_frames(final(self)@) == total_frames(old(self)@) + (end.0 - start.0),
            forall|x: int|
                final(self).is_free(x) <==> (old(self).is_free(x) || start.0 * 4096 + PAGE_OFF <= x
                    < end.0 * 4096 + PAGE_OFF),
            forall|x: u64|
                old(mem).contains(x) && !(start.0 * 4096 + PAGE_OFF <= x < end.0 * 4096
                    + PAGE_OFF) ==> final(mem).word(x) == old(mem).word(x),
    {
        let mut cur: u64 = start.0;
        while cur < end.0
            invariant
                self.wf(mem),
                mem.same_shape(old(mem)),
                start.0 <= cur <= end.0,
                end.0 * 4096 <= mem.base + 8 * mem@.len(),
                mem.base <= start.0 * 4096,
                spec_carve(old(self)@, start.0 as int, end.0 as int) == spec_carve(
                    self@,
                    cur as int,
                    end.0 as int,
                ),
                total_frames(self@) == total_frames(old(self)@) + (cur - start.0),
                forall|x: int|
                    self.is_free(x) <==> (old(self).is_free(x) || start.0 * 4096 + PAGE_OFF <= x
                        < cur * 4096 + PAGE_OFF),
                forall|x: int|
                    start.0 * 4096 + PAGE_OFF <= x < end.0 * 4096 + PAGE_OFF ==> !old(
                        self,
                    ).is_free(x),
                forall|x: u64|
                    old(mem).contains(x) && !(start.0 * 4096 + PAGE_OFF <= x < end.0 * 4096
                        + PAGE_OFF) ==> mem.word(x) == old(mem).word(x),
            decreases end.0 - cur,
        {
            let k: usize = Self::carve_order(cur, end.0 - cur);
            let ghost lists = self@;
            proof {
                lemma_pow2_pos(k as nat);
                lemma_run_bytes(k as nat);
                assert(run_bytes(k as nat) == (pow2(k as nat) as int) * 4096) by (nonlinear_arith)
                    requires
                        run_bytes(k as nat) == 4096 * (pow2(k as nat) as int),
                ;
                assert(frame_run_ok(mem, cur, k as nat));
                lemma_frame_run(mem, cur, k as nat);
            }
            let addr: u64 = cur * 4096 + PAGE_OFF;
            proof {
                assert forall|k2: int, b: u64| 0 <= k2 < ORDER && #[trigger] self.level(
                    k2,
                ).contains(b) implies runs_disjoint(addr, k as nat, b, k2 as nat) by {
                    lemma_run_bytes(k2 as nat);
                    assert(self.is_free(b as int));
                    assert(self.is_free(b + run_bytes(k2 as nat) - 1));
                    if !runs_disjoint(addr, k as nat, b, k2 as nat) {
                        if b < addr {
                            assert(self.is_free(addr as int)) by {
                                assert(b <= addr < b + run_bytes(k2 as nat));
                            }
                        }
                    }
                }
                lemma_total_update(lists, k as int, seq![addr] + lists[k as int]);
                lemma2_to64();
                if k < 25 {
                    lemma_pow2_strictly_increases(k as nat, 25);
                }
                assert(1 * pow2(k as nat) <= u64::MAX);
                vstd::bits::lemma_u64_shl_is_mul(1, k as u64);
            }
            self.put(mem, k, addr);
            cur = cur + (1u64 << (k as u64));
        }
    }

    /// Splits the first run of list `j`: its upper half and then its lower half go in
    /// front of the list below.
    #[verifier::spinoff_prover]
    #[verifier::rlimit(60)]
    pub fn split_first(&mut self, mem: &mut Memory, j: usize)
        requires
            old(self).wf(old(mem)),
            0 < j < ORDER,
            old(self).level(j as int).len() > 0,
        ensures
            final(self).wf(final(mem)),
            final(mem).same_shape(old(mem)),
            final(self).level(j as int) == old(self).level(j as int).drop_first(),
            final(self).level(j - 1) == seq![
                old(self).level(j as int)[0],
                (old(self).level(j as int)[0] + run_bytes((j - 1) as nat)) as u64,
            ] + old(self).level(j - 1),
            forall|k: int|
                0 <= k < ORDER && k != j && k != j - 1 ==> final(self).level(k) == old(self).level(
                    k,
                ),
            total_frames(final(self)@) == total_frames(old(self)@),
            forall|x: int| final(self).is_free(x) <==> old(self).is_free(x),
            forall|x: u64|
                old(mem).contains(x) && !old(self).is_free(x as int) ==> final(mem).word(x) == old(
                    mem,
                ).word(x),
    {
        let ghost before = self@;
        let ghost a = self.level(j as int)[0];
        proof {
            assert(self.level(j as int).contains(a));
        }
        let addr: u64 = self.take(mem, j);
        let ghost mid = self@;
        let half: u64 = order_bytes(j - 1);
        proof {
            lemma_halves(mem, addr, (j - 1) as nat);
            lemma_run_bytes((j - 1) as nat);
            self.lemma_clear_halves(addr, (j - 1) as nat);
            lemma_total_update(before, j as int, before[j as int].drop_first());
            lemma_run_contains(mem, (addr + half) as u64, (j - 1) as nat);
            lemma_run_contains(mem, addr, (j - 1) as nat);
        }
        let ghost mem1 = *mem;
        self.put(mem, j - 1, addr + half);
        let ghost mid2 = self@;
        let ghost mem2 = *mem;
        proof {
            lemma_total_update(mid, j - 1, seq![(addr + half) as u64] + mid[j - 1]);
            lemma_push_contains(mid[j - 1], (addr + half) as u64);
            assert forall|k2: int, b: u64| 0 <= k2 < ORDER && #[trigger] self.level(k2).contains(
                b,
            ) implies runs_disjoint(addr, (j - 1) as nat, b, k2 as nat) by {
                if k2 == j - 1 && b == addr + half {
                } else {
                    assert(mid[k2].contains(b));
                }
            }
        }
        self.put(mem, j - 1, addr);
        proof {
            lemma_total_update(mid2, j - 1, seq![addr] + mid2[j - 1]);
            lemma_pow2_unfold(j as nat);
            let p = pow2((j - 1) as nat) as int;
            let n0 = before[j as int].len() as int;
            let n1 = mid[j - 1].len() as int;
            assert(before[j as int].drop_first().len() == n0 - 1);
            assert(mid2[j - 1].len() == n1 + 1);
            assert(((n0 - 1) - n0) * (2 * p) + ((n1 + 1) - n1) * p + ((n1 + 2) - (n1 + 1)) * p
                == 0) by (nonlinear_arith);
            assert(self.level(j - 1) =~= seq![a, (a + run_bytes((j - 1) as nat)) as u64] + old(
                self,
            ).level(j - 1));
            assert(addr + 2 * half == addr + run_bytes(j as nat));
            assert forall|x: int| self.is_free(x) <==> old(self).is_free(x) by {
                if addr <= x < addr + run_bytes(j as nat) {
                    assert(old(self).level(j as int).contains(a));
                }
            }
            assert forall|x: u64|
                old(mem).contains(x) && !old(self).is_free(x as int) implies mem.word(x) == old(
                mem,
            ).word(x) by {
                assert(old(self).level(j as int).contains(a));
                assert(x != addr && x != addr + half);
                assert(mem1.contains(x));
                assert(mem2.contains(x));
            }
        }
    }

    /// Whether there is a run to allocate `2^ord` frames from: a run of order `ord` or
    /// above on a list.
    pub fn has_run(&self, mem: &Memory, ord: usize) -> (r: bool)
        requires
            self.wf(mem),
        ensures
            r == (spec_alloc_frame(self@, ord as int) is Some),
            r == exists|k: int| ord <= k < ORDER && self.level(k).len() > 0,
    {
        let mut i: usize = ord;
        while i < ORDER && self.free_list[i].empty()
            invariant
                self.wf(mem),
                ord <= i,
                first_nonempty(self@, ord as int) == first_nonempty(self@, i as int),
                forall|k: int| ord <= k < i && k < ORDER ==> self.level(k).len() == 0,
            decreases ORDER - i,
        {
            proof {
                self.free_list@[i as int].lemma_head(mem);
            }
            i = i + 1;
        }
        proof {
            if i < ORDER {
                self.free_list@[i as int].lemma_head(mem);
                assert(first_nonempty(self@, i as int) == i);
                assert(self.level(i as int).len() > 0);
            }
        }
        i < ORDER
    }

    /// Allocates a run of `2^ord` frames. The lists are scanned from `ord` up; the first
    /// run of the first list that has one is split down to order `ord`, the upper half
    /// going on the list below at each step, and the lowest part is returned.
    pub fn alloc_pages(&mut self, mem: &mut Memory, ord: usize) -> (r: Option<PageFrame>)
        requires
            old(self).wf(old(mem)),
        ensures
            final(self).wf(final(mem)),
            final(mem).same_shape(old(mem)),
            r == spec_alloc_frame(old(self)@, ord as int),
            final(self)@ == spec_alloc(old(self)@, ord as int),
            r is Some <==> exists|k: int| ord <= k < ORDER && old(self).level(k).len() > 0,
            r is None ==> *final(mem) == *old(mem) && *final(self) == *old(self),
            r matches Some(f) ==> {
                &&& frame_run_ok(final(mem), f.0, ord as nat)
                &&& final(self).clear_of(frame_addr(f.0), ord as nat)
                &&& total_frames(final(self)@) == total_frames(old(self)@) - pow2(ord as nat)
                &&& forall|x: int|
                    final(self).is_free(x) <==> (old(self).is_free(x) && !(frame_addr(f.0) <= x
                        < frame_addr(f.0) + run_bytes(ord as nat)))
                &&& forall|x: int|
                    frame_addr(f.0) <= x < frame_addr(f.0) + run_bytes(ord as nat) ==> old(
                        self,
                    ).is_free(x)
            },
            forall|x: u64|
                old(mem).contains(x) && !old(self).is_free(x as int) ==> final(mem).word(x) == old(
                    mem,
                ).word(x),
    {
        let mut i: usize = ord;
        while i < ORDER && self.free_list[i].empty()
            invariant
                *self == *old(self),
                *mem == *old(mem),
                self.wf(mem),
                ord <= i,
                first_nonempty(self@, ord as int) == first_nonempty(self@, i as int),
                forall|k: int| ord <= k < i && k < ORDER ==> self.level(k).len() == 0,
            decreases ORDER - i,
        {
            proof {
                self.free_list@[i as int].lemma_head(mem);
            }
            i = i + 1;
        }
        if i >= ORDER {
            assert(self@ =~= spec_alloc(self@, ord as int));
            return None;
        }
        proof {
            self.free_list@[i as int].lemma_head(mem);
            assert(first_nonempty(self@, i as int) == i);
            assert(self.level(i as int).len() > 0);
        }
        let ghost a: u64 = self.level(i as int)[0];
        let ghost lists = self@;
        let mut j: usize = i;
        while j > ord
            invariant
                ord <= j <= i < ORDER,
                self.wf(mem),
                mem.same_shape(old(mem)),
                lists == old(self)@,
                a == old(self).level(i as int)[0],
                old(self).level(i as int).len() > 0,
                forall|k: int| ord <= k < i ==> old(self).level(k).len() == 0,
                forall|k: int|
                    0 <= k < ORDER && (k < j || k > i) ==> self.level(k) == old(self).level(k),
                j == i ==> self.level(i as int) == old(self).level(i as int),
                j < i ==> self.level(i as int) == old(self).level(i as int).drop_first()
                    && self.level(j as int) == seq![a, (a + run_bytes(j as nat)) as u64],
                forall|k: int|
                    j < k < i ==> self.level(k) == seq![(a + run_bytes(k as nat)) as u64],
                total_frames(self@) == total_frames(lists),
                forall|x: int| self.is_free(x) <==> old(self).is_free(x),
                forall|x: u64|
                    old(mem).contains(x) && !old(self).is_free(x as int) ==> mem.word(x) == old(
                        mem,
                    ).word(x),
            decreases j,
        {
            let ghost prev = *self;
            let ghost mem0 = *mem;
            self.split_first(mem, j);
            proof {
                assert(prev.level(j as int)[0] == a);
                assert(prev.level(j - 1) == old(self).level(j - 1));
                assert(old(self).level(j - 1) =~= Seq::<u64>::empty());
                assert(self.level(j - 1) =~= seq![a, (a + run_bytes((j - 1) as nat)) as u64]);
                if j < i {
                    assert(self.level(j as int) =~= seq![(a + run_bytes(j as nat)) as u64]);
                }
                assert forall|x: u64|
                    old(mem).contains(x) && !old(self).is_free(x as int) implies mem.word(x)
                    == old(mem).word(x) by {
                    assert(mem0.contains(x));
                    assert(!prev.is_free(x as int));
                }
            }
            j = j - 1;
        }
        let ghost before = self@;
        let ghost prev = *self;
        proof {
            if j < i {
                assert(self.level(j as int)[0] == a);
            }
            assert(self.level(ord as int).contains(a));
        }
        let addr: u64 = self.take(mem, ord);
        proof {
            lemma_total_update(before, ord as int, before[ord as int].drop_first());
            lemma_run_contains(mem, addr, ord as nat);
            assert(self.level(ord as int) =~= if ord == i {
                old(self).level(i as int).drop_first()
            } else {
                seq![(a + run_bytes(ord as nat)) as u64]
            });
            assert(self@ =~= spec_alloc(lists, ord as int));
            let f = ((addr - PAGE_OFF) / 4096) as u64;
            assert(f * 4096 + PAGE_OFF == addr);
            lemma_run_bytes(ord as nat);
            lemma_pow2_pos(ord as nat);
            let p = pow2(ord as nat) as int;
            let x = addr - PAGE_OFF;
            lemma_factor(x, run_bytes(ord as nat));
            let q = x / run_bytes(ord as nat);
            assert(q * (4096 * p) == (q * p) * 4096) by (nonlinear_arith);
            assert(f == q * p);
            lemma_multiple(f as int, q, p);
            assert(old(self).level(i as int).len() > 0);
            assert forall|x: int| addr <= x < addr + run_bytes(ord as nat) implies old(
                self,
            ).is_free(x) by {
                assert(prev.is_free(x));
            }
            lemma2_to64();
            if ord < 25 {
                lemma_pow2_strictly_increases(ord as nat, 25);
            }
            assert(frame_addr(f) == addr);
            assert(frame_run_ok(mem, f, ord as nat));
            let n0 = before[ord as int].len() as int;
            assert((n0 - 1 - n0) * p == -p) by (nonlinear_arith);
            assert(total_frames(self@) == total_frames(old(self)@) - pow2(ord as nat));
        }
        Some(PageFrame((addr - PAGE_OFF) / 4096))
    }

    /// Gives the run of `2^ord` frames at `pages` back. While the buddy of the run is
    /// free and the order is below the highest, the two merge into a run of the order
    /// above; the run that is left goes in front of its list. No frame is lost: what is
    /// free afterwards is what was free before and the run.
    pub fn free_pages(&mut self, mem: &mut Memory, pages: PageFrame, ord: usize)
        requires
            old(self).wf(old(mem)),
            ord < ORDER,
            frame_run_ok(old(mem), pages.0, ord as nat),
            old(self).clear_of(frame_addr(pages.0), ord as nat),
        ensures
            final(self).wf(final(mem)),
            final(mem).same_shape(old(mem)),
            final(self)@ == spec_free(old(self)@, frame_addr(pages.0), ord as nat),
            total_frames(final(self)@) == total_frames(old(self)@) + pow2(ord as nat),
            forall|x: int|
                final(self).is_free(x) <==> (old(self).is_free(x) || frame_addr(pages.0) <= x
                    < frame_addr(pages.0) + run_bytes(ord as nat)),
            exists|j: int|
                ord <= j < ORDER && holds_first(
                    #[trigger] final(self).level(j),
                    j as nat,
                    frame_addr(pages.0),
                    ord as nat,
                ),
            forall|x: u64|
                old(mem).contains(x) && !old(self).is_free(x as int) && !(frame_addr(pages.0) <= x
                    < frame_addr(pages.0) + run_bytes(ord as nat)) ==> final(mem).word(x) == old(
                    mem,
                ).word(x),
    {
        proof {
            lemma_frame_run(mem, pages.0, ord as nat);
        }
        let ghost va: u64 = frame_addr(pages.0);
        let mut cur: u64 = pages.0 * 4096 + PAGE_OFF;
        let mut k: usize = ord;
        let mut done: bool = false;
        while !done
            invariant
                self.wf(mem),
                mem.same_shape(old(mem)),
                ord <= k < ORDER,
                self@.len() == ORDER,
                va == frame_addr(pages.0),
                !done ==> {
                    &&& run_ok(mem, cur, k as nat)
                    &&& cur <= va
                    &&& va + run_bytes(ord as nat) <= cur + run_bytes(k as nat)
                    &&& self.clear_of(cur, k as nat)
                    &&& spec_free(old(self)@, va, ord as nat) == spec_free(self@, cur, k as nat)
                    &&& total_frames(self@) + pow2(k as nat) == total_frames(old(self)@) + pow2(
                        ord as nat,
                    )
                    &&& forall|x: int|
                        (self.is_free(x) || cur <= x < cur + run_bytes(k as nat)) <==> (old(
                            self,
                        ).is_free(x) || va <= x < va + run_bytes(ord as nat))
                },
                done ==> {
                    &&& self@ == spec_free(old(self)@, va, ord as nat)
                    &&& holds_first(self.level(k as int), k as nat, va, ord as nat)
                    &&& total_frames(self@) == total_frames(old(self)@) + pow2(ord as nat)
                    &&& forall|x: int|
                        self.is_free(x) <==> (old(self).is_free(x) || va <= x < va + run_bytes(
                            ord as nat,
                        ))
                },
                forall|x: u64|
                    old(mem).contains(x) && !old(self).is_free(x as int) && !(va <= x < va
                        + run_bytes(ord as nat)) ==> mem.word(x) == old(mem).word(x),
            decreases ORDER - k, (if done { 0int } else { 1int }),
        {
            let ghost before = *self;
            let ghost mem0 = *mem;
            let buddy: u64 = buddy_address(cur, k);
            let found: bool = if k + 1 < ORDER {
                self.unlink(mem, k, buddy)
            } else {
                false
            };
            proof {
                lemma_run_bytes(k as nat);
                assert(before.level(k as int) == before@[k as int]);
                assert(before.level(k as int).no_duplicates());
                assert forall|x: u64|
                    old(mem).contains(x) && !old(self).is_free(x as int) && !(va <= x < va
                        + run_bytes(ord as nat)) implies mem.word(x) == old(mem).word(x) by {
                    assert(mem0.contains(x));
                    if before.level(k as int).contains(x) {
                        assert(before.is_free(x as int));
                    }
                }
            }
            if found {
                proof {
                    let level = before.level(k as int);
                    let i = index_in(level, buddy);
                    lemma_remove_contains(level, i);
                    lemma_total_update(before@, k as int, level.remove(i));
                    assert(buddy != 0) by {
                        assert(run_ok(mem, buddy, k as nat));
                    }
                    assert(buddy == buddy_of(cur, k as nat));
                    lemma_merge(mem, cur, buddy, k as nat);
                    assert forall|k2: int, c: u64| 0 <= k2 < ORDER && #[trigger] self.level(
                        k2,
                    ).contains(c) implies runs_disjoint(cur, k as nat, c, k2 as nat) by {
                        assert(before.level(k2).contains(c));
                    }
                    if cur < buddy {
                        self.lemma_clear_merge(cur, buddy, k as nat);
                    } else {
                        self.lemma_clear_merge(buddy, cur, k as nat);
                    }
                    lemma_pow2_unfold((k + 1) as nat);
                    let p = pow2(k as nat) as int;
                    let n0 = level.len() as int;
                    assert((n0 - 1 - n0) * p == -p) by (nonlinear_arith);
                    assert(before.level(k as int).contains(buddy));
                    let lo = if cur < buddy { cur } else { buddy };
                    assert forall|x: int|
                        (self.is_free(x) || lo <= x < lo + run_bytes((k + 1) as nat)) <==> (old(
                            self,
                        ).is_free(x) || va <= x < va + run_bytes(ord as nat)) by {
                        if buddy <= x < buddy + run_bytes(k as nat) {
                            assert(before.is_free(x));
                        }
                    }
                }
                cur = if cur < buddy {
                    cur
                } else {
                    buddy
                };
                k = k + 1;
            } else {
                proof {
                    lemma_total_update(before@, k as int, seq![cur] + before.level(k as int));
                    let p = pow2(k as nat) as int;
                    let n0 = before.level(k as int).len() as int;
                    assert((n0 + 1 - n0) * p == p) by (nonlinear_arith);
                    assert forall|x: u64|
                        old(mem).contains(x) && !old(self).is_free(x as int) && !(va <= x < va
                            + run_bytes(ord as nat)) implies x != cur by {
                        if x == cur {
                            assert(cur <= x < cur + run_bytes(k as nat));
                        }
                    }
                }
                let ghost mem1 = *mem;
                self.put(mem, k, cur);
                proof {
                    assert forall|x: u64|
                        old(mem).contains(x) && !old(self).is_free(x as int) && !(va <= x < va
                            + run_bytes(ord as nat)) implies mem.word(x) == old(mem).word(x) by {
                        assert(mem1.contains(x));
                    }
                }
                done = true;
            }
        }
    }
}

/// Flipping bit `s` of an address of the linear map goes one run of `2^s` bytes up from
/// an even position and one down from an odd one.
proof fn lemma_flip_bit(a: u64, s: u64)
    by (bit_vector)
    requires
        12 <= s <= 37,
        a >= 0xffff_ffc0_0000_0000,
    ensures
        (((a - 0xffff_ffc0_0000_0000u64) as u64 >> s) & 1 == 0) ==> (a ^ (1u64 << s)) == a + (1u64
            << s),
        (((a - 0xffff_ffc0_0000_0000u64) as u64 >> s) & 1 != 0) ==> (a ^ (1u64 << s)) == a - (1u64
            << s),
        (((a - 0xffff_ffc0_0000_0000u64) as u64 >> s) & 1) == ((a - 0xffff_ffc0_0000_0000u64) as u64
            >> s) % 2,
{
}

/// The buddy of a run is its address with bit `12 + k` flipped.
pub proof fn lemma_xor_buddy(a: u64, k: nat)
    requires
        k <= 25,
        a >= PAGE_OFF,
    ensures
        run_bytes(k) <= u64::MAX,
        a ^ (run_bytes(k) as u64) == buddy_addr(a, k),
{
    lemma_run_bytes(k);
    lemma2_to64();
    vstd::arithmetic::power2::lemma2_to64_rest();
    let s = (12 + k) as u64;
    vstd::arithmetic::power2::lemma_pow2_adds(12, k);
    if s < 37 {
        lemma_pow2_strictly_increases(s as nat, 37);
    }
    vstd::bits::lemma_u64_shl_is_mul(1, s);
    assert(run_bytes(k) == pow2(s as nat));
    assert(1u64 << s == run_bytes(k));
    let x = (a - PAGE_OFF) as u64;
    vstd::bits::lemma_u64_shr_is_div(x, s);
    lemma_flip_bit(a, s);
    assert((x >> s) == x as nat / pow2(s as nat));
}

/// The address of the buddy of the run of order `k` at `a`: `a` with bit `12 + k`
/// flipped.
pub fn buddy_address(a: u64, k: usize) -> (b: u64)
    requires
        k <= 25,
        a >= PAGE_OFF,
    ensures
        b == buddy_addr(a, k as nat),
{
    let bytes: u64 = order_bytes(k);
    proof {
        lemma_xor_buddy(a, k as nat);
    }
    a ^ bytes
}

/// The index at which `b` stands in `s`.
pub open spec fn index_in(s: Seq<u64>, b: u64) -> int {
    choose|i: int| 0 <= i < s.len() && s[i] == b
}

} // verus!
