//! The buddy core shared by the byte-heap and the frame allocator.
//!
//! `ORDER` size classes hold the starting addresses of free blocks; class `k`
//! holds blocks spanning `pow2(k)` units, each aligned to its own size, each
//! class kept sorted. Ghost state records the units ever fed (`fed`) and the
//! units currently handed out (`live`). The central invariant: free blocks
//! are pairwise disjoint, and together with the live units they partition
//! exactly what was fed — no unit is lost, duplicated or invented.
use vstd::prelude::*;

verus! {

use vstd::arithmetic::power2::{pow2, lemma_pow2_pos, lemma_pow2_unfold, lemma2_to64};
use crate::power::{
    lemma_pow2_le,
    lemma_pow2_mod_down,
    lemma_buddy_parity,
    lemma_aligned_add,
    lemma_pow2_self_aligned,
    lemma_odd_buddy,
    lemma_buddy_high_fits,
    pow2_exec,
    align_order,
    floor_log2,
    align_order_spec,
    lemma_align_order_spec_char,
    flog2_spec,
    lemma_flog2_bounds,
    lemma_flog2_spec_char,
};

/// Number of size classes: orders `0 .. ORDER`.
pub const ORDER: usize = 32;

/// The order of the block the feeding loop carves at `c` on the way to
/// `end`: the largest order to which `c` is aligned, no larger than what
/// remains, capped at the top class.
pub open spec fn carve_order(c: int, end: int) -> nat {
    let ka = align_order_spec(c as nat, (ORDER - 1) as nat);
    let kf = flog2_spec((end - c) as nat);
    if ka <= kf {
        ka
    } else {
        kf
    }
}

/// Block `(a, k)` is one of the blocks that feeding the range `[c, end)`
/// creates: the greedy decomposition into maximal self-aligned blocks.
pub open spec fn feed_block(c: int, end: int, a: usize, k: int) -> bool
    decreases end - c,
    via feed_block_decreases
{
    if 0 <= c < end {
        let k0 = carve_order(c, end);
        (a == c && k == k0) || feed_block(c + pow2(k0), end, a, k)
    } else {
        false
    }
}

#[via_fn]
proof fn feed_block_decreases(c: int, end: int, a: usize, k: int) {
    if 0 <= c < end {
        lemma_flog2_bounds((end - c) as nat);
        lemma_pow2_le(carve_order(c, end), flog2_spec((end - c) as nat));
        lemma_pow2_pos(carve_order(c, end));
    }
}

/// The sibling of the block at `b` of order `c` in the tree of splits.
pub open spec fn buddy_of(b: usize, c: int) -> int {
    if b as nat % pow2((c + 1) as nat) == 0 {
        b + pow2(c as nat)
    } else {
        b - pow2(c as nat)
    }
}

/// How feeding `[start, end)` changes the free lists: they gain exactly the
/// greedy decomposition's blocks, each on the class of its order.
pub open spec fn feed_evolution(pre: BuddyCore, post: BuddyCore, start: int, end: int) -> bool {
    forall|a: usize, k: int|
        #[trigger] has_block(post.cl(), a, k) <==> has_block(pre.cl(), a, k) || feed_block(
            start,
            end,
            a,
            k,
        )
}

/// How serving an order-`k0` request from the block `p` changes the free
/// lists: the chosen class `j` is the least non-empty one at or above `k0`,
/// `p` is the least address of that class, and the split leaves exactly the
/// upper halves of `p` on the classes between.
pub open spec fn alloc_choice(pre: BuddyCore, post: BuddyCore, p: usize, k0: int, j: int) -> bool {
    &&& k0 <= j < ORDER
    &&& pre.cl()[j]@.len() > 0
    &&& forall|jj: int| k0 <= jj < j ==> (#[trigger] pre.cl()[jj])@.len() == 0
    &&& p == pre.cl()[j]@[0]
    &&& forall|a: usize, kk: int|
        #[trigger] has_block(post.cl(), a, kk) <==> (has_block(pre.cl(), a, kk) && !(a == p && kk
            == j)) || (k0 <= kk < j && a == p + pow2(kk as nat))
}

/// The split rule of `alloc_choice`, for some choice of class.
pub open spec fn alloc_evolution(pre: BuddyCore, post: BuddyCore, p: usize, k0: int) -> bool {
    exists|j: int| #[trigger] alloc_choice(pre, post, p, k0, j)
}

/// Where a block freed at order `k0` from `ptr` lands: merging is maximal,
/// so the final lists hold an aligned block of some order `c >= k0` that
/// contains the freed one, and its own buddy is not free at that class.
pub open spec fn free_landing(post: BuddyCore, ptr: usize, k0: int) -> bool {
    exists|c: int, b: usize| #[trigger] free_landed_at(post, ptr, k0, c, b)
}

/// The landed block of `free_landing`, named.
pub open spec fn free_landed_at(post: BuddyCore, ptr: usize, k0: int, c: int, b: usize) -> bool {
    &&& k0 <= c < ORDER
    &&& b as nat % pow2(c as nat) == 0
    &&& b <= ptr
    &&& ptr + pow2(k0 as nat) <= b + pow2(c as nat)
    &&& has_block(post.cl(), b, c)
    &&& c < ORDER - 1 ==> forall|d: usize|
        d == buddy_of(b, c) ==> !has_block(post.cl(), d, c)
}

/// A strictly increasing sequence: sorted, no duplicates.
pub open spec fn sorted_strict(s: Seq<usize>) -> bool {
    forall|i: int, j: int| 0 <= i < j < s.len() ==> s[i] < s[j]
}

/// The half-open interval `[lo, hi)` as a set of unit indices.
pub open spec fn range_set(lo: int, hi: int) -> Set<int> {
    Set::new(|u: int| lo <= u < hi)
}

/// Class `k` holds a free block starting at `a`.
pub open spec fn has_block(cl: Seq<Vec<usize>>, a: usize, k: int) -> bool {
    0 <= k < cl.len() && cl[k]@.contains(a)
}

/// Unit `u` lies inside some free block.
pub open spec fn covers(cl: Seq<Vec<usize>>, u: int) -> bool {
    exists|a: usize, k: int| #[trigger] has_block(cl, a, k) && a <= u < a + pow2(k as nat)
}

/// All units inside free blocks.
pub open spec fn free_set(cl: Seq<Vec<usize>>) -> Set<int> {
    Set::new(|u: int| covers(cl, u))
}

/// Every free block is aligned to its own size and lies inside `fed`.
pub open spec fn blocks_wf(cl: Seq<Vec<usize>>, fed: Set<int>) -> bool {
    forall|a: usize, k: int| #[trigger] has_block(cl, a, k) ==> a as nat % pow2(k as nat) == 0
        && range_set(a as int, a + pow2(k as nat)) <= fed
}

/// No two distinct free blocks overlap.
pub open spec fn blocks_disjoint(cl: Seq<Vec<usize>>) -> bool {
    forall|a1: usize, k1: int, a2: usize, k2: int|
        #[trigger] has_block(cl, a1, k1) && #[trigger] has_block(cl, a2, k2)
        && !(a1 == a2 && k1 == k2)
        ==> a1 + pow2(k1 as nat) <= a2 || a2 + pow2(k2 as nat) <= a1
}

/// Units held by classes `0 .. n`: the sum of block sizes.
pub open spec fn units_upto(cl: Seq<Vec<usize>>, n: int) -> int
    decreases n,
{
    if n <= 0 {
        0
    } else {
        units_upto(cl, n - 1) + cl[n - 1]@.len() * pow2((n - 1) as nat)
    }
}

/// Units held free across all classes.
pub open spec fn free_units(cl: Seq<Vec<usize>>) -> int {
    units_upto(cl, cl.len() as int)
}

/// Changing one class changes the unit count by that class's difference.
proof fn lemma_units_update(cl1: Seq<Vec<usize>>, cl2: Seq<Vec<usize>>, k: int, n: int)
    requires
        0 <= k < cl1.len(),
        n <= cl1.len(),
        cl2.len() == cl1.len(),
        forall|j: int| 0 <= j < cl1.len() && j != k ==> cl2[j] == cl1[j],
    ensures
        units_upto(cl2, n) == units_upto(cl1, n) + if k < n {
            (cl2[k]@.len() - cl1[k]@.len()) * pow2(k as nat)
        } else {
            0
        },
    decreases n,
{
    if n > 0 {
        lemma_units_update(cl1, cl2, k, n - 1);
        if k != n - 1 {
            assert(cl2[n - 1] == cl1[n - 1]);
        }
        if k == n - 1 {
            assert(units_upto(cl2, n) == units_upto(cl2, n - 1) + cl2[k]@.len() * pow2(k as nat));
            assert(units_upto(cl1, n) == units_upto(cl1, n - 1) + cl1[k]@.len() * pow2(k as nat));
            assert(cl2[k]@.len() * pow2(k as nat) - cl1[k]@.len() * pow2(k as nat) == (cl2[k]@.len()
                - cl1[k]@.len()) * pow2(k as nat)) by (nonlinear_arith);
        }
    }
}

/// A single block's size never exceeds the total held free.
proof fn lemma_units_lower_bound(cl: Seq<Vec<usize>>, k: int, n: int)
    requires
        0 <= k < n <= cl.len(),
        cl[k]@.len() > 0,
        forall|j: int| 0 <= j < cl.len() ==> #[trigger] cl[j]@.len() >= 0,
    ensures
        units_upto(cl, n) >= pow2(k as nat),
    decreases n,
{
    lemma_pow2_pos((n - 1) as nat);
    lemma_units_nonneg(cl, n - 1);
    if k == n - 1 {
        assert(cl[k]@.len() * pow2(k as nat) >= pow2(k as nat)) by (nonlinear_arith)
            requires
                cl[k]@.len() >= 1,
                pow2(k as nat) >= 1,
        ;
    } else {
        lemma_units_lower_bound(cl, k, n - 1);
        assert(cl[n - 1]@.len() * pow2((n - 1) as nat) >= 0) by (nonlinear_arith)
            requires
                cl[n - 1]@.len() >= 0,
                pow2((n - 1) as nat) >= 1,
        ;
    }
}

/// The unit count is never negative.
proof fn lemma_units_nonneg(cl: Seq<Vec<usize>>, n: int)
    ensures
        units_upto(cl, n) >= 0,
    decreases n,
{
    if n > 0 {
        lemma_units_nonneg(cl, n - 1);
        lemma_pow2_pos((n - 1) as nat);
        assert(cl[n - 1]@.len() * pow2((n - 1) as nat) >= 0) by (nonlinear_arith)
            requires
                cl[n - 1]@.len() >= 0,
                pow2((n - 1) as nat) >= 1,
        ;
    }
}

/// Insert `x` into a sorted list, keeping it sorted.
fn sorted_insert(v: &mut Vec<usize>, x: usize)
    requires
        sorted_strict(old(v)@),
        !old(v)@.contains(x),
    ensures
        sorted_strict(final(v)@),
        final(v)@.len() == old(v)@.len() + 1,
        forall|y: usize| #[trigger] final(v)@.contains(y) <==> old(v)@.contains(y) || y == x,
{
    let ghost orig = v@;
    let mut i: usize = 0;
    while i < v.len() && v[i] < x
        invariant
            v@ == orig,
            sorted_strict(orig),
            !orig.contains(x),
            i <= v@.len(),
            forall|j: int| 0 <= j < i ==> v@[j] < x,
        decreases v@.len() - i,
    {
        i = i + 1;
    }
    proof {
        if i < orig.len() {
            // the scan stopped at an element not below x; equality is ruled
            // out because x is not in the list
            assert(orig.contains(orig[i as int]));
            assert(orig[i as int] > x);
        }
    }
    v.insert(i, x);
    proof {
        let new = v@;
        assert forall|y: usize| #[trigger] new.contains(y) implies orig.contains(y) || y == x by {
            let j = choose|j: int| 0 <= j < new.len() && new[j] == y;
            if j < i {
                assert(orig[j] == y);
                assert(orig.contains(y));
            } else if j > i {
                assert(orig[j - 1] == y);
                assert(orig.contains(y));
            }
        }
        assert forall|y: usize| orig.contains(y) || y == x implies #[trigger] new.contains(y) by {
            if orig.contains(y) {
                let j = choose|j: int| 0 <= j < orig.len() && orig[j] == y;
                if j < i {
                    assert(new[j] == y);
                } else {
                    assert(new[j + 1] == y);
                }
            } else {
                assert(new[i as int] == x);
            }
        }
        assert forall|p: int, q: int| 0 <= p < q < new.len() implies new[p] < new[q] by {
            if q < i {
                assert(new[p] == orig[p] && new[q] == orig[q]);
                assert(orig[p] < orig[q]);
            } else if p >= i + 1 {
                assert(new[p] == orig[p - 1] && new[q] == orig[q - 1]);
                assert(orig[p - 1] < orig[q - 1]);
            } else if p < i && q == i {
                assert(new[p] == orig[p] && new[q] == x);
                assert(orig[p] < x);
            } else if p == i {
                assert(new[p] == x && new[q] == orig[q - 1]);
                assert(i < orig.len());
                assert(x < orig[i as int]);
                if q - 1 > i {
                    assert(orig[i as int] < orig[q - 1]);
                }
            } else {
                assert(p < i && q > i);
                assert(new[p] == orig[p] && new[q] == orig[q - 1]);
                assert(orig[p] < x);
                assert(i < orig.len());
                assert(x < orig[i as int]);
                if q - 1 > i {
                    assert(orig[i as int] < orig[q - 1]);
                } else {
                    assert(q - 1 == i);
                }
            }
        }
    }
}

/// Remove `x` from a sorted list if present; report whether it was there.
fn sorted_remove(v: &mut Vec<usize>, x: usize) -> (found: bool)
    requires
        sorted_strict(old(v)@),
    ensures
        sorted_strict(final(v)@),
        found <==> old(v)@.contains(x),
        found ==> final(v)@.len() == old(v)@.len() - 1,
        found ==> forall|y: usize| #[trigger] final(v)@.contains(y) <==> old(v)@.contains(y) && y != x,
        !found ==> final(v)@ == old(v)@,
{
    let ghost orig = v@;
    let n = v.len();
    let mut i: usize = 0;
    while i < n
        invariant
            v@ == orig,
            orig == old(v)@,
            sorted_strict(orig),
            n == orig.len(),
            i <= n,
            forall|j: int| 0 <= j < i ==> orig[j] != x,
        decreases n - i,
    {
        if v[i] == x {
            let _ = v.remove(i);
            proof {
                let new = v@;
                assert(orig.contains(x));
                assert forall|y: usize| #[trigger] new.contains(y) implies orig.contains(y) && y
                    != x by {
                    let j = choose|j: int| 0 <= j < new.len() && new[j] == y;
                    // uniqueness: any other index holding x would break sortedness
                    if j < i {
                        assert(new[j] == orig[j]);
                        assert(orig.contains(y));
                        if y == x {
                            assert(orig[j] < orig[i as int]);
                            assert(false);
                        }
                    } else {
                        assert(new[j] == orig[j + 1]);
                        assert(orig.contains(y));
                        if y == x {
                            assert(orig[i as int] < orig[j + 1]);
                            assert(false);
                        }
                    }
                }
                assert forall|y: usize| orig.contains(y) && y != x implies #[trigger] new.contains(
                    y,
                ) by {
                    let j = choose|j: int| 0 <= j < orig.len() && orig[j] == y;
                    if j < i {
                        assert(new[j] == y);
                    } else {
                        assert(j != i);
                        assert(new[j - 1] == y);
                    }
                }
                assert forall|p: int, q: int| 0 <= p < q < new.len() implies new[p] < new[q] by {
                    if q < i {
                        assert(new[p] == orig[p] && new[q] == orig[q]);
                        assert(orig[p] < orig[q]);
                    } else if p >= i {
                        assert(new[p] == orig[p + 1] && new[q] == orig[q + 1]);
                        assert(orig[p + 1] < orig[q + 1]);
                    } else {
                        assert(new[p] == orig[p] && new[q] == orig[q + 1]);
                        assert(orig[p] < orig[q + 1]);
                    }
                }
            }
            return true;
        }
        i = i + 1;
    }
    proof {
        if orig.contains(x) {
            let j = choose|j: int| 0 <= j < orig.len() && orig[j] == x;
            assert(orig[j] != x);
        }
    }
    false
}

/// Remove and return the least element of a sorted, non-empty list.
fn pop_min(v: &mut Vec<usize>) -> (x: usize)
    requires
        sorted_strict(old(v)@),
        old(v)@.len() > 0,
    ensures
        x == old(v)@[0],
        old(v)@.contains(x),
        sorted_strict(final(v)@),
        final(v)@.len() == old(v)@.len() - 1,
        forall|y: usize| #[trigger] final(v)@.contains(y) <==> old(v)@.contains(y) && y != x,
{
    let ghost orig = v@;
    let x = v.remove(0);
    proof {
        let new = v@;
        assert(orig.contains(x));
        assert forall|y: usize| #[trigger] new.contains(y) implies orig.contains(y) && y != x by {
            let j = choose|j: int| 0 <= j < new.len() && new[j] == y;
            assert(orig[j + 1] == y);
            if y == x {
                assert(orig[0] < orig[j + 1]);
                assert(false);
            }
        }
        assert forall|y: usize| orig.contains(y) && y != x implies #[trigger] new.contains(y) by {
            let j = choose|j: int| 0 <= j < orig.len() && orig[j] == y;
            assert(j != 0);
            assert(new[j - 1] == y);
        }
    }
    x
}

/// The buddy core: sorted free lists per order, with ghost accounting.
pub struct BuddyCore {
    /// Free lists: class `k` holds start addresses of free `pow2(k)`-unit blocks.
    pub classes: Vec<Vec<usize>>,
    /// Ghost: the units ever fed in.
    pub fed: Ghost<Set<int>>,
    /// Ghost: the units currently handed out.
    pub live: Ghost<Set<int>>,
}

impl BuddyCore {
    /// The classes as a sequence, for specification.
    pub open spec fn cl(self) -> Seq<Vec<usize>> {
        self.classes@
    }

    /// Units ever fed to the allocator.
    pub open spec fn fed(self) -> Set<int> {
        self.fed@
    }

    /// Units currently handed out.
    pub open spec fn live(self) -> Set<int> {
        self.live@
    }

    /// Units currently free.
    pub open spec fn free(self) -> Set<int> {
        free_set(self.classes@)
    }

    /// Units held free, counted by block sizes.
    pub open spec fn units(self) -> int {
        free_units(self.classes@)
    }

    /// Some class at order `k0` or above has a free block.
    pub open spec fn has_order_at_least(self, k0: int) -> bool {
        exists|j: int| k0 <= j < ORDER && #[trigger] self.classes@[j]@.len() > 0
    }

    /// The structural and accounting invariants.
    pub open spec fn wf(self) -> bool {
        &&& self.classes@.len() == ORDER
        &&& forall|k: int| 0 <= k < ORDER ==> sorted_strict(#[trigger] self.classes@[k]@)
        &&& blocks_wf(self.classes@, self.fed@)
        &&& blocks_disjoint(self.classes@)
        &&& forall|u: int| #[trigger] self.fed@.contains(u) ==> 0 <= u <= usize::MAX
        &&& forall|u: int| #[trigger] covers(self.classes@, u) ==> !self.live@.contains(u)
        &&& forall|u: int|
            #[trigger] self.fed@.contains(u) <==> covers(self.classes@, u)
                || self.live@.contains(u)
    }

    /// An empty core: nothing fed, nothing free, nothing live.
    pub fn new() -> (r: BuddyCore)
        ensures
            r.wf(),
            r.fed() =~= Set::empty(),
            r.live() =~= Set::empty(),
            r.free() =~= Set::empty(),
            r.units() == 0,
            forall|j: int| 0 <= j < ORDER ==> #[trigger] r.cl()[j]@.len() == 0,
    {
        let mut classes: Vec<Vec<usize>> = Vec::new();
        let mut i: usize = 0;
        while i < ORDER
            invariant
                i <= ORDER,
                classes@.len() == i,
                forall|j: int| 0 <= j < i ==> #[trigger] classes@[j]@.len() == 0,
            decreases ORDER - i,
        {
            classes.push(Vec::new());
            i = i + 1;
        }
        let r = BuddyCore { classes, fed: Ghost(Set::empty()), live: Ghost(Set::empty()) };
        proof {
            assert forall|u: int| !covers(r.classes@, u) by {
                if covers(r.classes@, u) {
                    let (a, k) = choose|a: usize, k: int|
                        #[trigger] has_block(r.classes@, a, k) && a <= u < a + pow2(k as nat);
                    assert(r.classes@[k]@.len() == 0);
                }
            }
            lemma_units_all_empty(r.classes@, ORDER as int);
        }
        r
    }
}

impl BuddyCore {
    /// Feed the units `[start, end)`: decompose them into self-aligned blocks,
    /// largest first, and push each onto its class.
    pub fn add_range(&mut self, start: usize, end: usize)
        requires
            old(self).wf(),
            start <= end,
            range_set(start as int, end as int).disjoint(old(self).fed()),
        ensures
            final(self).wf(),
            final(self).fed() == old(self).fed() + range_set(start as int, end as int),
            final(self).free() == old(self).free() + range_set(start as int, end as int),
            final(self).live() == old(self).live(),
            final(self).units() == old(self).units() + end - start,
            feed_evolution(*old(self), *final(self), start as int, end as int),
    {
        let ghost orig = *old(self);
        let mut cur = start;
        proof {
            assert(self.fed@ =~= orig.fed@ + range_set(start as int, cur as int));
        }
        while cur < end
            invariant
                self.wf(),
                start <= cur <= end,
                self.fed@ == orig.fed@ + range_set(start as int, cur as int),
                self.live@ == orig.live@,
                self.units() == orig.units() + cur - start,
                forall|u: int|
                    #[trigger] covers(self.classes@, u) <==> covers(orig.classes@, u) || (start <= u
                        < cur),
                forall|a: usize, k: int|
                    #![trigger has_block(self.classes@, a, k)]
                    #![trigger feed_block(cur as int, end as int, a, k)]
                    has_block(self.classes@, a, k) || feed_block(cur as int, end as int, a, k)
                        <==> has_block(orig.classes@, a, k) || feed_block(
                        start as int,
                        end as int,
                        a,
                        k,
                    ),
                range_set(start as int, end as int).disjoint(orig.fed@),
                orig.wf(),
            decreases end - cur,
        {
            proof {
                lemma2_to64();
                assert(usize::MAX >= u32::MAX);
            }
            let ka = align_order(cur, ORDER - 1);
            let kf = floor_log2(end - cur);
            let k = if ka < kf {
                ka
            } else {
                kf
            };
            proof {
                lemma_pow2_le(k as nat, 31);
                lemma2_to64();
                lemma_pow2_le(k as nat, kf as nat);
                lemma_pow2_mod_down(cur as nat, ka as nat, k as nat);
                // the carved order matches its specification
                lemma_align_order_spec_char(cur as nat, (ORDER - 1) as nat, ka as nat);
                lemma_flog2_spec_char((end - cur) as nat, kf as nat);
                assert(k as nat == carve_order(cur as int, end as int));
            }
            let size = pow2_exec(k);
            let ghost cl0 = self.classes@;
            let ghost fed0 = self.fed@;
            proof {
                // the new block is not already free: its start is outside fed0
                assert(!(start <= cur < cur));
                assert(!range_set(start as int, end as int).disjoint(orig.fed@) ==> false);
                assert(!orig.fed@.contains(cur as int)) by {
                    if orig.fed@.contains(cur as int) {
                        assert(range_set(start as int, end as int).contains(cur as int));
                    }
                }
                assert(!fed0.contains(cur as int));
                if cl0[k as int]@.contains(cur) {
                    assert(has_block(cl0, cur, k as int));
                    lemma_pow2_pos(k as nat);
                    assert(range_set(cur as int, cur as int + pow2(k as nat)).contains(cur as int));
                    assert(fed0.contains(cur as int));
                }
            }
            self.fed = Ghost(fed0 + range_set(cur as int, cur as int + size));
            sorted_insert(&mut self.classes[k], cur);
            proof {
                let cl1 = self.classes@;
                let fed1 = self.fed@;
                let ghost lo = cur as int;
                let ghost hi = cur as int + size;
                assert(cl1 == cl0.update(k as int, cl1[k as int]));
                assert(forall|j: int| 0 <= j < cl0.len() && j != k ==> cl1[j] == cl0[j]);
                // every block of cl1 is an old block or the new one
                assert forall|a: usize, kk: int| #[trigger] has_block(cl1, a, kk) implies has_block(
                    cl0,
                    a,
                    kk,
                ) || (a == cur && kk == k) by {
                    if kk != k {
                        assert(cl1[kk] == cl0[kk]);
                    }
                }
                assert(has_block(cl1, cur, k as int));
                assert forall|a: usize, kk: int| has_block(cl0, a, kk) implies #[trigger] has_block(
                    cl1,
                    a,
                    kk,
                ) by {
                    if kk != k {
                        assert(cl1[kk] == cl0[kk]);
                    }
                }
                // the new block lies inside [cur, end), which is disjoint from fed0
                assert(size <= end - cur);
                assert forall|u: int| lo <= u < hi implies !fed0.contains(u) by {
                    if fed0.contains(u) {
                        if orig.fed@.contains(u) {
                            assert(range_set(start as int, end as int).contains(u));
                        } else {
                            assert(range_set(start as int, cur as int).contains(u));
                        }
                    }
                }
                // old blocks lie inside fed0
                assert forall|a: usize, kk: int, u: int|
                    #[trigger] has_block(cl0, a, kk) && a <= u < a + pow2(kk as nat) implies
                    #[trigger] fed0.contains(u) by {
                    assert(range_set(a as int, a + pow2(kk as nat)) <= fed0);
                    assert(range_set(a as int, a + pow2(kk as nat)).contains(u));
                }
                // disjointness of the new block from every old block
                assert forall|a: usize, kk: int|
                    #[trigger] has_block(cl0, a, kk) && !(a == cur && kk == k) implies a + pow2(
                    kk as nat,
                ) <= lo || hi <= a by {
                    lemma_pow2_pos(kk as nat);
                    if !(a + pow2(kk as nat) <= lo || hi <= a) {
                        let w = if a >= lo {
                            a as int
                        } else {
                            lo
                        };
                        assert(a <= w < a + pow2(kk as nat));
                        assert(lo <= w < hi);
                        assert(fed0.contains(w));
                    }
                }
                assert(blocks_disjoint(cl1)) by {
                    assert forall|a1: usize, k1: int, a2: usize, k2: int|
                        #[trigger] has_block(cl1, a1, k1) && #[trigger] has_block(cl1, a2, k2) && !(
                        a1 == a2 && k1 == k2) implies a1 + pow2(k1 as nat) <= a2 || a2 + pow2(
                        k2 as nat,
                    ) <= a1 by {
                        if has_block(cl0, a1, k1) && has_block(cl0, a2, k2) {
                        } else if !(a1 == cur && k1 == k) {
                            // a2 is the new block
                            assert(has_block(cl0, a1, k1));
                            assert(a2 == cur && k2 == k);
                        } else {
                            assert(a1 == cur && k1 == k);
                            if !(a2 == cur && k2 == k) {
                                assert(has_block(cl0, a2, k2));
                            }
                        }
                    }
                }
                assert(blocks_wf(cl1, fed1)) by {
                    assert forall|a: usize, kk: int| #[trigger] has_block(cl1, a, kk) implies a as nat
                        % pow2(kk as nat) == 0 && range_set(a as int, a + pow2(kk as nat))
                        <= fed1 by {
                        if has_block(cl0, a, kk) {
                            assert(range_set(a as int, a + pow2(kk as nat)) <= fed0);
                            assert forall|u: int|
                                range_set(a as int, a + pow2(kk as nat)).contains(u) implies
                                fed1.contains(u) by {
                                assert(fed0.contains(u));
                            }
                        } else {
                            assert(a == cur && kk == k);
                            assert forall|u: int|
                                range_set(a as int, a + pow2(kk as nat)).contains(u) implies
                                fed1.contains(u) by {
                                assert(range_set(lo, hi).contains(u));
                            }
                        }
                    }
                }
                // coverage evolves by exactly the new block's units
                assert forall|u: int| #[trigger] covers(cl1, u) implies covers(cl0, u) || (lo <= u
                    < hi) by {
                    let (a, kk) = choose|a: usize, kk: int|
                        #[trigger] has_block(cl1, a, kk) && a <= u < a + pow2(kk as nat);
                    if has_block(cl0, a, kk) {
                        assert(covers(cl0, u));
                    }
                }
                assert forall|u: int| covers(cl0, u) || (lo <= u < hi) implies #[trigger] covers(
                    cl1,
                    u,
                ) by {
                    if covers(cl0, u) {
                        let (a, kk) = choose|a: usize, kk: int|
                            #[trigger] has_block(cl0, a, kk) && a <= u < a + pow2(kk as nat);
                        assert(has_block(cl1, a, kk));
                    } else {
                        assert(has_block(cl1, cur, k as int) && cur <= u < cur + pow2(k as nat));
                    }
                }
                // conservation
                assert forall|u: int| #[trigger] fed1.contains(u) implies covers(cl1, u)
                    || self.live@.contains(u) by {
                    if fed0.contains(u) {
                    } else {
                        assert(range_set(lo, hi).contains(u));
                    }
                }
                assert forall|u: int| covers(cl1, u) || self.live@.contains(u) implies
                    #[trigger] fed1.contains(u) by {
                    if covers(cl1, u) {
                        if covers(cl0, u) {
                            assert(fed0.contains(u));
                        }
                    } else if self.live@.contains(u) {
                        assert(fed0.contains(u));
                    }
                }
                // free and live stay disjoint
                assert forall|u: int| #[trigger] covers(cl1, u) implies !self.live@.contains(u) by {
                    if covers(cl0, u) {
                    } else {
                        assert(lo <= u < hi);
                        if self.live@.contains(u) {
                            assert(fed0.contains(u));
                        }
                    }
                }
                // bounds
                assert forall|u: int| #[trigger] fed1.contains(u) implies 0 <= u <= usize::MAX by {
                    if !fed0.contains(u) {
                        assert(range_set(lo, hi).contains(u));
                    }
                }
                // unit count
                lemma_units_update(cl0, cl1, k as int, cl0.len() as int);
                assert((cl1[k as int]@.len() - cl0[k as int]@.len()) * pow2(k as nat) == pow2(
                    k as nat,
                )) by (nonlinear_arith)
                    requires
                        cl1[k as int]@.len() == cl0[k as int]@.len() + 1,
                ;
                assert(free_units(cl1) == free_units(cl0) + pow2(k as nat));
                // the carved block is exactly the head of the remaining feed
                assert(feed_block(cur as int, end as int, cur, k as int));
                assert forall|a: usize, kk: int|
                    #![trigger has_block(cl1, a, kk)]
                    #![trigger feed_block((cur + size) as int, end as int, a, kk)]
                    has_block(cl1, a, kk) || feed_block((cur + size) as int, end as int, a, kk)
                        <==> has_block(orig.classes@, a, kk) || feed_block(
                        start as int,
                        end as int,
                        a,
                        kk,
                    ) by {
                    assert(feed_block(cur as int, end as int, a, kk) <==> (a == cur && kk
                        == k as int) || feed_block((cur + size) as int, end as int, a, kk));
                    assert(has_block(cl1, a, kk) <==> has_block(cl0, a, kk) || (a == cur && kk
                        == k as int));
                }
                // fed set shape
                assert(fed1 =~= orig.fed@ + range_set(start as int, (cur + size) as int));
            }
            cur = cur + size;
        }
        proof {
            assert(final(self).fed() =~= old(self).fed() + range_set(start as int, end as int));
            assert forall|u: int| #[trigger] covers(self.classes@, u) <==> covers(
                orig.classes@,
                u,
            ) || (start <= u < end) by {}
            assert(final(self).free() =~= old(self).free() + range_set(start as int, end as int));
            assert forall|a: usize, k: int| #[trigger] has_block(final(self).cl(), a, k) <==>
                has_block(old(self).cl(), a, k) || feed_block(start as int, end as int, a, k) by {
                assert(!feed_block(end as int, end as int, a, k));
            }
        }
    }

    /// Take one free block of order `k0`, splitting a larger block if none of
    /// that size is free. Returns the block's start, or nothing when no class
    /// at order `k0` or above holds a block. The popped block is the least
    /// address of the first suitable class.
    pub fn alloc_order(&mut self, k0: usize) -> (r: Option<usize>)
        requires
            old(self).wf(),
            k0 < ORDER,
        ensures
            final(self).wf(),
            final(self).fed() == old(self).fed(),
            r is Some <==> old(self).has_order_at_least(k0 as int),
            r is None ==> *final(self) == *old(self),
            r matches Some(p) ==> p as nat % pow2(k0 as nat) == 0 && p + pow2(k0 as nat)
                <= usize::MAX + 1 && range_set(p as int, p + pow2(k0 as nat)) <= old(self).free()
                && final(self).free() == old(self).free() - range_set(
                p as int,
                p + pow2(k0 as nat),
            ) && final(self).live() == old(self).live() + range_set(p as int, p + pow2(k0 as nat))
                && final(self).units() == old(self).units() - pow2(k0 as nat),
            r matches Some(p) ==> alloc_evolution(*old(self), *final(self), p, k0 as int),
    {
        let ghost orig = *old(self);
        let mut j = k0;
        while j < ORDER && self.classes[j].len() == 0
            invariant
                *self == orig,
                orig.wf(),
                k0 <= j <= ORDER,
                forall|jj: int| k0 <= jj < j ==> #[trigger] self.classes@[jj]@.len() == 0,
            decreases ORDER - j,
    {
            j = j + 1;
        }
        if j == ORDER {
            proof {
                if orig.has_order_at_least(k0 as int) {
                    let jj = choose|jj: int|
                        k0 <= jj < ORDER && #[trigger] orig.classes@[jj]@.len() > 0;
                    assert(self.classes@[jj]@.len() == 0);
                }
            }
            return None;
        }
        proof {
            assert(orig.has_order_at_least(k0 as int));
        }
        let ghost cl_orig = self.classes@;
        let block0 = pop_min(&mut self.classes[j]);
        let mut block = block0;
        let mut cur = j;
        proof {
            let cl1 = self.classes@;
            assert(cl_orig[j as int]@.contains(block));
            assert(has_block(cl_orig, block, j as int));
            lemma_pow2_pos(j as nat);
            assert(forall|jj: int| 0 <= jj < cl_orig.len() && jj != j ==> cl1[jj] == cl_orig[jj]);
            // the popped block is covered by no remaining block
            assert forall|u: int| block <= u < block + pow2(j as nat) implies !covers(cl1, u) by {
                if covers(cl1, u) {
                    let (a, kk) = choose|a: usize, kk: int|
                        #[trigger] has_block(cl1, a, kk) && a <= u < a + pow2(kk as nat);
                    if kk == j {
                        assert(cl_orig[kk]@.contains(a) && a != block);
                    }
                    assert(has_block(cl_orig, a, kk) && !(a == block && kk == j));
                    assert(a + pow2(kk as nat) <= block || block + pow2(j as nat) <= a);
                }
            }
            assert forall|u: int| #[trigger] covers(cl1, u) implies covers(cl_orig, u) && !(block
                <= u < block + pow2(j as nat)) by {
                let (a, kk) = choose|a: usize, kk: int|
                    #[trigger] has_block(cl1, a, kk) && a <= u < a + pow2(kk as nat);
                if kk == j {
                    assert(cl_orig[kk]@.contains(a));
                }
                assert(has_block(cl_orig, a, kk));
            }
            assert forall|u: int| covers(cl_orig, u) && !(block <= u < block + pow2(j as nat))
                implies #[trigger] covers(cl1, u) by {
                let (a, kk) = choose|a: usize, kk: int|
                    #[trigger] has_block(cl_orig, a, kk) && a <= u < a + pow2(kk as nat);
                if a == block && kk == j {
                } else {
                    if kk == j {
                        assert(cl1[kk]@.contains(a));
                    }
                    assert(has_block(cl1, a, kk));
                }
            }
            assert forall|u: int| block <= u < block + pow2(j as nat) implies #[trigger] covers(
                cl_orig,
                u,
            ) by {
                assert(has_block(cl_orig, block, j as int) && block <= u < block + pow2(j as nat));
            }
            lemma_units_update(cl_orig, cl1, j as int, cl_orig.len() as int);
            assert(blocks_wf(cl1, self.fed@)) by {
                assert forall|a: usize, kk: int| #[trigger] has_block(cl1, a, kk) implies a as nat
                    % pow2(kk as nat) == 0 && range_set(a as int, a + pow2(kk as nat))
                    <= self.fed@ by {
                    if kk == j {
                        assert(cl_orig[kk]@.contains(a));
                    }
                    assert(has_block(cl_orig, a, kk));
                }
            }
            assert(blocks_disjoint(cl1)) by {
                assert forall|a1: usize, k1: int, a2: usize, k2: int|
                    #[trigger] has_block(cl1, a1, k1) && #[trigger] has_block(cl1, a2, k2) && !(a1
                    == a2 && k1 == k2) implies a1 + pow2(k1 as nat) <= a2 || a2 + pow2(k2 as nat)
                    <= a1 by {
                    if k1 == j {
                        assert(cl_orig[k1]@.contains(a1));
                    }
                    if k2 == j {
                        assert(cl_orig[k2]@.contains(a2));
                    }
                    assert(has_block(cl_orig, a1, k1) && has_block(cl_orig, a2, k2));
                }
            }
            assert(range_set(block as int, block + pow2(j as nat)) <= self.fed@);
            assert(self.fed@.contains(block + pow2(j as nat) - 1));
            assert forall|a: usize, kk: int| #[trigger] has_block(cl1, a, kk) <==> (has_block(
                cl_orig,
                a,
                kk,
            ) && !(a == block && kk == j as int)) by {
                if 0 <= kk < cl_orig.len() && kk != j {
                    assert(cl1[kk] == cl_orig[kk]);
                }
            }
        }
        while cur > k0
            invariant
                k0 <= cur <= j < ORDER,
                orig.wf(),
                self.fed@ == orig.fed@,
                self.live@ == orig.live@,
                self.classes@.len() == ORDER,
                forall|k: int| 0 <= k < ORDER ==> sorted_strict(#[trigger] self.classes@[k]@),
                blocks_wf(self.classes@, self.fed@),
                blocks_disjoint(self.classes@),
                block as nat % pow2(cur as nat) == 0,
                range_set(block as int, block + pow2(cur as nat)) <= self.fed@,
                forall|u: int| block <= u < block + pow2(cur as nat) ==> !covers(self.classes@, u),
                forall|u: int| block <= u < block + pow2(cur as nat) ==> #[trigger] covers(
                    orig.classes@,
                    u,
                ),
                forall|u: int| #[trigger] covers(self.classes@, u) <==> covers(orig.classes@, u)
                    && !(block <= u < block + pow2(cur as nat)),
                forall|a: usize, kk: int|
                    #[trigger] has_block(self.classes@, a, kk) <==> (has_block(
                        orig.classes@,
                        a,
                        kk,
                    ) && !(a == block && kk == j as int)) || (cur <= kk < j && a == block + pow2(
                        kk as nat,
                    )),
                self.units() == orig.units() - pow2(cur as nat),
            decreases cur,
        {
            cur = cur - 1;
            proof {
                lemma2_to64();
                lemma_pow2_le(cur as nat, 31);
                assert(usize::MAX >= u32::MAX);
            }
            let half = pow2_exec(cur);
            proof {
                lemma_pow2_unfold((cur + 1) as nat);
                assert(self.fed@.contains(block + 2 * pow2(cur as nat) - 1)) by {
                    assert(range_set(block as int, block + pow2((cur + 1) as nat)).contains(
                        block + 2 * pow2(cur as nat) - 1,
                    ));
                }
                lemma_pow2_pos(cur as nat);
            }
            let upper = block + half;
            let ghost cl0 = self.classes@;
            proof {
                lemma_pow2_mod_down(block as nat, (cur + 1) as nat, cur as nat);
                lemma_pow2_self_aligned(cur as nat);
                lemma_aligned_add(block as nat, pow2(cur as nat), cur as nat);
                // upper half is inside the block in hand, hence not free
                if cl0[cur as int]@.contains(upper) {
                    assert(has_block(cl0, upper, cur as int));
                    assert(upper <= upper < upper + pow2(cur as nat));
                    assert(covers(cl0, upper as int));
                    assert(block <= upper < block + pow2((cur + 1) as nat));
                    assert(false);
                }
            }
            sorted_insert(&mut self.classes[cur], upper);
            proof {
                let cl1 = self.classes@;
                let ghost lo = block as int;
                let ghost mid = block + pow2(cur as nat);
                let ghost hi = block + pow2((cur + 1) as nat);
                assert(mid == upper as int);
                assert(hi == mid + pow2(cur as nat));
                assert(forall|jj: int| 0 <= jj < cl0.len() && jj != cur ==> cl1[jj] == cl0[jj]);
                assert forall|a: usize, kk: int| #[trigger] has_block(cl1, a, kk) implies has_block(
                    cl0,
                    a,
                    kk,
                ) || (a == upper && kk == cur) by {
                    if kk != cur {
                        assert(cl1[kk] == cl0[kk]);
                    }
                }
                assert forall|a: usize, kk: int| has_block(cl0, a, kk) implies #[trigger] has_block(
                    cl1,
                    a,
                    kk,
                ) by {
                    if kk != cur {
                        assert(cl1[kk] == cl0[kk]);
                    }
                }
                assert(has_block(cl1, upper, cur as int));
                // the new block's range is the upper half of the block in hand
                assert forall|a: usize, kk: int|
                    #[trigger] has_block(cl0, a, kk) && !(a == upper && kk == cur) implies a + pow2(
                    kk as nat,
                ) <= mid || hi <= a by {
                    lemma_pow2_pos(kk as nat);
                    if !(a + pow2(kk as nat) <= mid || hi <= a) {
                        let w = if a as int >= mid {
                            a as int
                        } else {
                            mid
                        };
                        assert(a <= w < a + pow2(kk as nat));
                        assert(covers(cl0, w));
                        assert(lo <= w < hi);
                    }
                }
                assert(blocks_disjoint(cl1)) by {
                    assert forall|a1: usize, k1: int, a2: usize, k2: int|
                        #[trigger] has_block(cl1, a1, k1) && #[trigger] has_block(cl1, a2, k2) && !(
                        a1 == a2 && k1 == k2) implies a1 + pow2(k1 as nat) <= a2 || a2 + pow2(
                        k2 as nat,
                    ) <= a1 by {
                        if has_block(cl0, a1, k1) && has_block(cl0, a2, k2) {
                        } else if !(a1 == upper && k1 == cur) {
                            assert(has_block(cl0, a1, k1));
                            assert(a2 == upper && k2 == cur);
                        } else if !(a2 == upper && k2 == cur) {
                            assert(has_block(cl0, a2, k2));
                        }
                    }
                }
                assert(blocks_wf(cl1, self.fed@)) by {
                    assert forall|a: usize, kk: int| #[trigger] has_block(cl1, a, kk) implies a as nat
                        % pow2(kk as nat) == 0 && range_set(a as int, a + pow2(kk as nat))
                        <= self.fed@ by {
                        if has_block(cl0, a, kk) {
                        } else {
                            assert(a == upper && kk == cur);
                            assert forall|u: int|
                                range_set(a as int, a + pow2(kk as nat)).contains(u) implies
                                self.fed@.contains(u) by {
                                assert(range_set(lo, hi).contains(u));
                            }
                        }
                    }
                }
                // coverage: the upper half returns to the free set
                assert forall|u: int| #[trigger] covers(cl1, u) implies covers(orig.classes@, u)
                    && !(lo <= u < mid) by {
                    let (a, kk) = choose|a: usize, kk: int|
                        #[trigger] has_block(cl1, a, kk) && a <= u < a + pow2(kk as nat);
                    if has_block(cl0, a, kk) {
                        assert(covers(cl0, u));
                    } else {
                        assert(a == upper && kk == cur);
                        assert(mid <= u < hi);
                    }
                }
                assert forall|u: int| covers(orig.classes@, u) && !(lo <= u < mid) implies
                    #[trigger] covers(cl1, u) by {
                    if covers(cl0, u) {
                        let (a, kk) = choose|a: usize, kk: int|
                            #[trigger] has_block(cl0, a, kk) && a <= u < a + pow2(kk as nat);
                        assert(has_block(cl1, a, kk));
                    } else {
                        assert(mid <= u < hi);
                        assert(has_block(cl1, upper, cur as int) && upper <= u < upper + pow2(
                            cur as nat,
                        ));
                    }
                }
                assert forall|u: int| lo <= u < mid implies !covers(cl1, u) by {
                    if covers(cl1, u) {
                        assert(!(lo <= u < mid));
                    }
                }
                lemma_units_update(cl0, cl1, cur as int, cl0.len() as int);
                assert((cl1[cur as int]@.len() - cl0[cur as int]@.len()) * pow2(cur as nat) == pow2(
                    cur as nat,
                )) by (nonlinear_arith)
                    requires
                        cl1[cur as int]@.len() == cl0[cur as int]@.len() + 1,
                ;
                assert(free_units(cl1) == free_units(cl0) + pow2(cur as nat));
                lemma_pow2_unfold((cur + 1) as nat);
                assert forall|a: usize, kk: int| #[trigger] has_block(cl1, a, kk) <==> (has_block(
                    orig.classes@,
                    a,
                    kk,
                ) && !(a == block && kk == j as int)) || (cur <= kk < j && a == block + pow2(
                    kk as nat,
                )) by {
                    assert(has_block(cl1, a, kk) <==> has_block(cl0, a, kk) || (a == upper && kk
                        == cur as int));
                }
            }
        }
        proof {
            lemma_pow2_pos(k0 as nat);
            assert(self.fed@.contains(block + pow2(k0 as nat) - 1));
        }
        self.live = Ghost(self.live@ + range_set(block as int, block as int + pow2(k0 as nat)));
        proof {
            let cl1 = self.classes@;
            let ghost lo = block as int;
            let ghost hi = block as int + pow2(k0 as nat);
            assert forall|u: int| #[trigger] self.fed@.contains(u) implies covers(cl1, u)
                || self.live@.contains(u) by {
                assert(covers(orig.classes@, u) || orig.live@.contains(u));
                if covers(orig.classes@, u) && !covers(cl1, u) {
                    assert(lo <= u < hi);
                }
            }
            assert forall|u: int| covers(cl1, u) || self.live@.contains(u) implies
                #[trigger] self.fed@.contains(u) by {
                if covers(cl1, u) {
                    assert(covers(orig.classes@, u));
                } else if orig.live@.contains(u) {
                } else {
                    assert(lo <= u < hi);
                    assert(covers(orig.classes@, u));
                }
            }
            assert forall|u: int| #[trigger] covers(cl1, u) implies !self.live@.contains(u) by {
                assert(covers(orig.classes@, u));
                if orig.live@.contains(u) {
                    assert(false);
                }
                assert(!(lo <= u < hi));
            }
            assert(final(self).free() =~= old(self).free() - range_set(lo, hi));
            assert(final(self).live() =~= old(self).live() + range_set(lo, hi));
            assert forall|u: int| range_set(lo, hi).contains(u) implies old(self).free().contains(
                u,
            ) by {
                assert(covers(orig.classes@, u));
            }
            // the chosen class and block satisfy the stated selection rule
            assert(alloc_choice(*old(self), *final(self), block, k0 as int, j as int));
        }
        Some(block)
    }

    /// Return the block `[ptr, ptr + pow2(k0))` to the free lists, coalescing
    /// it with its buddy, repeatedly, while the buddy is also free. The block
    /// must be exactly one previously allocated at this order.
    #[verifier::rlimit(80)]
    pub fn free_order(&mut self, ptr: usize, k0: usize)
        requires
            old(self).wf(),
            k0 < ORDER,
            ptr as nat % pow2(k0 as nat) == 0,
            range_set(ptr as int, ptr + pow2(k0 as nat)) <= old(self).live(),
        ensures
            final(self).wf(),
            final(self).fed() == old(self).fed(),
            final(self).free() == old(self).free() + range_set(ptr as int, ptr + pow2(k0 as nat)),
            final(self).live() == old(self).live() - range_set(ptr as int, ptr + pow2(k0 as nat)),
            final(self).units() == old(self).units() + pow2(k0 as nat),
            free_landing(*final(self), ptr, k0 as int),
    {
        let ghost orig = *old(self);
        let ghost flo = ptr as int;
        let ghost fhi = ptr as int + pow2(k0 as nat);
        proof {
            lemma_pow2_pos(k0 as nat);
            assert(range_set(flo, fhi).contains(flo));
            assert(orig.live@.contains(flo));
            assert(orig.fed@.contains(fhi - 1)) by {
                assert(range_set(flo, fhi).contains(fhi - 1));
                assert(orig.live@.contains(fhi - 1));
            }
        }
        self.live = Ghost(self.live@ - range_set(flo, fhi));
        let mut block = ptr;
        let mut cur = k0;
        loop
            invariant_except_break
                k0 <= cur < ORDER,
                orig.wf(),
                ptr as nat % pow2(k0 as nat) == 0,
                range_set(flo, fhi) <= orig.live@,
                flo == ptr as int,
                fhi == ptr as int + pow2(k0 as nat),
                self.fed@ == orig.fed@,
                self.live@ == orig.live@ - range_set(flo, fhi),
                self.classes@.len() == ORDER,
                forall|k: int| 0 <= k < ORDER ==> sorted_strict(#[trigger] self.classes@[k]@),
                blocks_wf(self.classes@, self.fed@),
                blocks_disjoint(self.classes@),
                block as nat % pow2(cur as nat) == 0,
                block <= ptr,
                fhi <= block + pow2(cur as nat),
                block + pow2(cur as nat) <= usize::MAX + 1,
                forall|u: int| block <= u < block + pow2(cur as nat) ==> !covers(self.classes@, u),
                forall|u: int|
                    block <= u < block + pow2(cur as nat) ==> #[trigger] covers(orig.classes@, u)
                        || (flo <= u < fhi),
                forall|u: int| #[trigger] covers(self.classes@, u) <==> covers(orig.classes@, u)
                    && !(block <= u < block + pow2(cur as nat)),
                self.units() == orig.units() - (pow2(cur as nat) - pow2(k0 as nat)),
            ensures
                self.fed@ == orig.fed@,
                self.live@ == orig.live@ - range_set(flo, fhi),
                self.classes@.len() == ORDER,
                forall|k: int| 0 <= k < ORDER ==> sorted_strict(#[trigger] self.classes@[k]@),
                blocks_wf(self.classes@, self.fed@),
                blocks_disjoint(self.classes@),
                forall|u: int| #[trigger] covers(self.classes@, u) <==> covers(orig.classes@, u)
                    || (flo <= u < fhi),
                self.units() == orig.units() + pow2(k0 as nat),
                k0 <= cur < ORDER,
                block as nat % pow2(cur as nat) == 0,
                block <= ptr,
                fhi <= block + pow2(cur as nat),
                has_block(self.classes@, block, cur as int),
                cur < ORDER - 1 ==> forall|d: usize|
                    d == buddy_of(block, cur as int) ==> !has_block(
                        self.classes@,
                        d,
                        cur as int,
                    ),
            decreases ORDER - cur,
        {
            let mut stop = cur == ORDER - 1;
            if !stop {
                proof {
                    lemma2_to64();
                    lemma_pow2_le((cur + 1) as nat, 31);
                    assert(usize::MAX >= u32::MAX);
                    lemma_pow2_unfold((cur + 1) as nat);
                }
                let size = pow2_exec(cur);
                let two_size = size * 2;
                let buddy: usize;
                let merged_lo: usize;
                if block % two_size == 0 {
                    proof {
                        lemma_buddy_high_fits(block as nat, cur as nat);
                    }
                    buddy = block + size;
                    merged_lo = block;
                    proof {
                        lemma_pow2_self_aligned(cur as nat);
                        lemma_pow2_mod_down(block as nat, (cur + 1) as nat, cur as nat);
                        lemma_aligned_add(block as nat, pow2(cur as nat), cur as nat);
                    }
                } else {
                    proof {
                        lemma_buddy_parity(block as nat, cur as nat);
                        lemma_odd_buddy(block as nat, cur as nat);
                        lemma_pow2_mod_down((block - pow2(cur as nat)) as nat, (cur + 1) as nat, cur as nat);
                    }
                    buddy = block - size;
                    merged_lo = buddy;
                }
                let ghost cl0 = self.classes@;
                if sorted_remove(&mut self.classes[cur], buddy) {
                    proof {
                        let cl1 = self.classes@;
                        let ghost blo = block as int;
                        let ghost bhi = block + pow2(cur as nat);
                        let ghost dlo = buddy as int;
                        let ghost dhi = buddy + pow2(cur as nat);
                        let ghost mlo = merged_lo as int;
                        let ghost mhi = merged_lo + pow2((cur + 1) as nat);
                        assert(cl0[cur as int]@.contains(buddy));
                        assert(has_block(cl0, buddy, cur as int));
                        lemma_pow2_pos(cur as nat);
                        lemma_pow2_unfold((cur + 1) as nat);
                        // the merged range is the union of the two halves
                        assert(mhi == mlo + 2 * pow2(cur as nat));
                        assert((blo == mlo && dlo == mlo + pow2(cur as nat)) || (dlo == mlo && blo
                            == mlo + pow2(cur as nat)));
                        // the buddy block's range, from its presence in the lists
                        assert(range_set(dlo, dhi) <= self.fed@);
                        assert(self.fed@.contains(dhi - 1)) by {
                            assert(range_set(dlo, dhi).contains(dhi - 1));
                        }
                        assert(forall|jj: int|
                            0 <= jj < cl0.len() && jj != cur ==> cl1[jj] == cl0[jj]);
                        // membership after removing the buddy
                        assert forall|a: usize, kk: int| #[trigger] has_block(cl1, a, kk) implies
                            has_block(cl0, a, kk) && !(a == buddy && kk == cur) by {
                            if kk != cur {
                                assert(cl1[kk] == cl0[kk]);
                            }
                        }
                        assert forall|a: usize, kk: int|
                            has_block(cl0, a, kk) && !(a == buddy && kk == cur) implies
                            #[trigger] has_block(cl1, a, kk) by {
                            if kk != cur {
                                assert(cl1[kk] == cl0[kk]);
                            }
                        }
                        // the buddy's units are covered by no other block
                        assert forall|u: int| dlo <= u < dhi implies !covers(cl1, u) by {
                            if covers(cl1, u) {
                                let (a, kk) = choose|a: usize, kk: int|
                                    #[trigger] has_block(cl1, a, kk) && a <= u < a + pow2(
                                    kk as nat,
                                );
                                assert(has_block(cl0, a, kk) && !(a == buddy && kk == cur));
                                assert(a + pow2(kk as nat) <= dlo || dhi <= a);
                            }
                        }
                        assert forall|u: int| #[trigger] covers(cl1, u) implies covers(
                            orig.classes@,
                            u,
                        ) && !(mlo <= u < mhi) by {
                            let (a, kk) = choose|a: usize, kk: int|
                                #[trigger] has_block(cl1, a, kk) && a <= u < a + pow2(kk as nat);
                            assert(has_block(cl0, a, kk));
                            assert(covers(cl0, u));
                            if blo <= u < bhi {
                                assert(!covers(cl0, u));
                                assert(false);
                            }
                            if dlo <= u < dhi {
                                assert(!covers(cl1, u));
                                assert(false);
                            }
                        }
                        assert forall|u: int| covers(orig.classes@, u) && !(mlo <= u < mhi) implies
                            #[trigger] covers(cl1, u) by {
                            assert(!(blo <= u < bhi));
                            assert(covers(cl0, u));
                            let (a, kk) = choose|a: usize, kk: int|
                                #[trigger] has_block(cl0, a, kk) && a <= u < a + pow2(kk as nat);
                            if a == buddy && kk == cur {
                                assert(dlo <= u < dhi);
                                assert(false);
                            }
                            assert(has_block(cl1, a, kk));
                        }
                        // no unit of the merged block is free
                        assert forall|u: int| mlo <= u < mhi implies !covers(cl1, u) by {
                            if covers(cl1, u) {
                                assert(covers(orig.classes@, u) && !(mlo <= u < mhi));
                            }
                        }
                        // every merged unit was free before or is being freed
                        assert forall|u: int| mlo <= u < mhi implies #[trigger] covers(
                            orig.classes@,
                            u,
                        ) || (flo <= u < fhi) by {
                            if blo <= u < bhi {
                            } else {
                                assert(dlo <= u < dhi);
                                assert(covers(cl0, u));
                            }
                        }
                        lemma_units_update(cl0, cl1, cur as int, cl0.len() as int);
                        assert((cl1[cur as int]@.len() - cl0[cur as int]@.len()) * pow2(cur as nat)
                            == -1 * pow2(cur as nat)) by (nonlinear_arith)
                            requires
                                cl1[cur as int]@.len() == cl0[cur as int]@.len() - 1,
                        ;
                        assert(free_units(cl1) == free_units(cl0) - pow2(cur as nat));
                        assert(blocks_wf(cl1, self.fed@)) by {
                            assert forall|a: usize, kk: int| #[trigger] has_block(cl1, a, kk)
                                implies a as nat % pow2(kk as nat) == 0 && range_set(
                                a as int,
                                a + pow2(kk as nat),
                            ) <= self.fed@ by {
                                assert(has_block(cl0, a, kk));
                            }
                        }
                        assert(blocks_disjoint(cl1)) by {
                            assert forall|a1: usize, k1: int, a2: usize, k2: int|
                                #[trigger] has_block(cl1, a1, k1) && #[trigger] has_block(
                                cl1,
                                a2,
                                k2,
                            ) && !(a1 == a2 && k1 == k2) implies a1 + pow2(k1 as nat) <= a2 || a2
                                + pow2(k2 as nat) <= a1 by {
                                assert(has_block(cl0, a1, k1) && has_block(cl0, a2, k2));
                            }
                        }
                        // range bound of the merged block
                        assert(mhi <= usize::MAX + 1) by {
                            if dlo > blo {
                                assert(mhi == dhi);
                            } else {
                                assert(mhi == bhi);
                            }
                        }
                    }
                    block = merged_lo;
                    cur = cur + 1;
                } else {
                    proof {
                        assert(buddy as int == buddy_of(block, cur as int));
                        assert(!self.classes@[cur as int]@.contains(buddy));
                        lemma_classes_views_agree(cl0, self.classes@, self.fed@);
                        assert forall|u: int| block <= u < block + pow2(cur as nat) implies !covers(
                            self.classes@,
                            u,
                        ) by {
                            if covers(self.classes@, u) {
                                assert(covers(cl0, u));
                            }
                        }
                        assert forall|u: int| #[trigger] covers(self.classes@, u) <==> covers(
                            orig.classes@,
                            u,
                        ) && !(block <= u < block + pow2(cur as nat)) by {
                            assert(covers(self.classes@, u) <==> covers(cl0, u));
                        }
                        assert forall|u: int|
                            block <= u < block + pow2(cur as nat) implies #[trigger] covers(
                            orig.classes@,
                            u,
                        ) || (flo <= u < fhi) by {}
                        assert(units_upto(self.classes@, self.classes@.len() as int) == units_upto(
                            cl0,
                            cl0.len() as int,
                        ));
                        assert forall|k: int| 0 <= k < ORDER implies sorted_strict(
                            #[trigger] self.classes@[k]@,
                        ) by {
                            assert(self.classes@[k]@ == cl0[k]@);
                        }
                    }
                    stop = true;
                }
            }
            if stop {
                let ghost cl0 = self.classes@;
                proof {
                    lemma_pow2_pos(cur as nat);
                    if cl0[cur as int]@.contains(block) {
                        assert(has_block(cl0, block, cur as int));
                        assert(covers(cl0, block as int));
                        assert(false);
                    }
                }
                sorted_insert(&mut self.classes[cur], block);
                proof {
                    let cl1 = self.classes@;
                    let ghost blo = block as int;
                    let ghost bhi = block + pow2(cur as nat);
                    assert(forall|jj: int| 0 <= jj < cl0.len() && jj != cur ==> cl1[jj] == cl0[jj]);
                    assert forall|a: usize, kk: int| #[trigger] has_block(cl1, a, kk) implies
                        has_block(cl0, a, kk) || (a == block && kk == cur) by {
                        if kk != cur {
                            assert(cl1[kk] == cl0[kk]);
                        }
                    }
                    assert forall|a: usize, kk: int| has_block(cl0, a, kk) implies
                        #[trigger] has_block(cl1, a, kk) by {
                        if kk != cur {
                            assert(cl1[kk] == cl0[kk]);
                        }
                    }
                    assert(has_block(cl1, block, cur as int));
                    // the inserted block overlaps no listed block
                    assert forall|a: usize, kk: int|
                        #[trigger] has_block(cl0, a, kk) && !(a == block && kk == cur) implies a
                        + pow2(kk as nat) <= blo || bhi <= a by {
                        lemma_pow2_pos(kk as nat);
                        if !(a + pow2(kk as nat) <= blo || bhi <= a) {
                            let w = if a as int >= blo {
                                a as int
                            } else {
                                blo
                            };
                            assert(a <= w < a + pow2(kk as nat));
                            assert(covers(cl0, w));
                            assert(blo <= w < bhi);
                        }
                    }
                    assert(blocks_disjoint(cl1)) by {
                        assert forall|a1: usize, k1: int, a2: usize, k2: int|
                            #[trigger] has_block(cl1, a1, k1) && #[trigger] has_block(cl1, a2, k2)
                            && !(a1 == a2 && k1 == k2) implies a1 + pow2(k1 as nat) <= a2 || a2
                            + pow2(k2 as nat) <= a1 by {
                            if has_block(cl0, a1, k1) && has_block(cl0, a2, k2) {
                            } else if !(a1 == block && k1 == cur) {
                                assert(has_block(cl0, a1, k1));
                                assert(a2 == block && k2 == cur);
                            } else if !(a2 == block && k2 == cur) {
                                assert(has_block(cl0, a2, k2));
                            }
                        }
                    }
                    assert(blocks_wf(cl1, self.fed@)) by {
                        assert forall|a: usize, kk: int| #[trigger] has_block(cl1, a, kk) implies a
                            as nat % pow2(kk as nat) == 0 && range_set(a as int, a + pow2(kk as nat))
                            <= self.fed@ by {
                            if has_block(cl0, a, kk) {
                            } else {
                                assert(a == block && kk == cur);
                                assert forall|u: int|
                                    range_set(a as int, a + pow2(kk as nat)).contains(u) implies
                                    self.fed@.contains(u) by {
                                    if covers(orig.classes@, u) {
                                        let (aa, kz) = choose|aa: usize, kz: int|
                                            #[trigger] has_block(orig.classes@, aa, kz) && aa <= u
                                                < aa + pow2(kz as nat);
                                        assert(range_set(aa as int, aa + pow2(kz as nat))
                                            <= orig.fed@);
                                        assert(range_set(aa as int, aa + pow2(kz as nat)).contains(
                                            u,
                                        ));
                                    } else {
                                        assert(flo <= u < fhi);
                                        assert(orig.live@.contains(u));
                                    }
                                }
                            }
                        }
                    }
                    // coverage: the whole in-hand block becomes free
                    assert forall|u: int| #[trigger] covers(cl1, u) implies covers(
                        orig.classes@,
                        u,
                    ) || (flo <= u < fhi) by {
                        let (a, kk) = choose|a: usize, kk: int|
                            #[trigger] has_block(cl1, a, kk) && a <= u < a + pow2(kk as nat);
                        if has_block(cl0, a, kk) {
                            assert(covers(cl0, u));
                        } else {
                            assert(a == block && kk == cur);
                            assert(blo <= u < bhi);
                        }
                    }
                    assert forall|u: int| covers(orig.classes@, u) || (flo <= u < fhi) implies
                        #[trigger] covers(cl1, u) by {
                        if covers(cl0, u) {
                            let (a, kk) = choose|a: usize, kk: int|
                                #[trigger] has_block(cl0, a, kk) && a <= u < a + pow2(kk as nat);
                            assert(has_block(cl1, a, kk));
                        } else {
                            if covers(orig.classes@, u) {
                                assert(blo <= u < bhi);
                            } else {
                                assert(flo <= u < fhi);
                                assert(blo <= u < bhi);
                            }
                            assert(has_block(cl1, block, cur as int) && block <= u < block + pow2(
                                cur as nat,
                            ));
                        }
                    }
                    lemma_units_update(cl0, cl1, cur as int, cl0.len() as int);
                    assert((cl1[cur as int]@.len() - cl0[cur as int]@.len()) * pow2(cur as nat)
                        == pow2(cur as nat)) by (nonlinear_arith)
                        requires
                            cl1[cur as int]@.len() == cl0[cur as int]@.len() + 1,
                    ;
                    assert(free_units(cl1) == free_units(cl0) + pow2(cur as nat));
                    // coalescing stopped: the buddy of the landed block is
                    // not free at its class
                    if cur < ORDER - 1 {
                        lemma_pow2_pos(cur as nat);
                        assert forall|d: usize| d == buddy_of(block, cur as int) implies
                            !has_block(cl1, d, cur as int) by {
                            assert(!cl0[cur as int]@.contains(d));
                            assert(d != block);
                        }
                    }
                }
                break;
            }
        }
        proof {
            let cl1 = self.classes@;
            assert forall|u: int| #[trigger] self.fed@.contains(u) implies covers(cl1, u)
                || self.live@.contains(u) by {
                assert(covers(orig.classes@, u) || orig.live@.contains(u));
            }
            assert forall|u: int| covers(cl1, u) || self.live@.contains(u) implies
                #[trigger] self.fed@.contains(u) by {
                if covers(cl1, u) {
                    if covers(orig.classes@, u) {
                    } else {
                        assert(flo <= u < fhi);
                        assert(orig.live@.contains(u));
                    }
                }
            }
            assert forall|u: int| #[trigger] covers(cl1, u) implies !self.live@.contains(u) by {
                if self.live@.contains(u) {
                    assert(orig.live@.contains(u));
                    assert(!covers(orig.classes@, u));
                    assert(flo <= u < fhi);
                    assert(!range_set(flo, fhi).contains(u));
                }
            }
            assert(final(self).free() =~= old(self).free() + range_set(flo, fhi));
            assert(final(self).live() =~= old(self).live() - range_set(flo, fhi));
            assert(free_landed_at(*final(self), ptr, k0 as int, cur as int, block));
        }
    }
}

/// Facts about the free lists depend only on the lists' contents: two
/// states whose classes hold the same sequences agree on blocks, coverage
/// and unit counts.
proof fn lemma_classes_views_agree(cl0: Seq<Vec<usize>>, cl1: Seq<Vec<usize>>, fed: Set<int>)
    requires
        cl1.len() == cl0.len(),
        forall|j: int| 0 <= j < cl0.len() ==> cl1[j]@ == cl0[j]@,
    ensures
        forall|a: usize, k: int| #[trigger] has_block(cl1, a, k) <==> #[trigger] has_block(
            cl0,
            a,
            k,
        ),
        forall|u: int| #[trigger] covers(cl1, u) <==> #[trigger] covers(cl0, u),
        forall|n: int| n <= cl0.len() ==> #[trigger] units_upto(cl1, n) == units_upto(cl0, n),
        forall|k: int| 0 <= k < cl0.len() && sorted_strict(cl0[k]@) ==> sorted_strict(
            #[trigger] cl1[k]@,
        ),
        blocks_wf(cl0, fed) ==> blocks_wf(cl1, fed),
        blocks_disjoint(cl0) ==> blocks_disjoint(cl1),
{
    assert forall|a: usize, k: int| #[trigger] has_block(cl1, a, k) <==> #[trigger] has_block(
        cl0,
        a,
        k,
    ) by {
        if 0 <= k < cl0.len() {
            assert(cl1[k]@ == cl0[k]@);
        }
    }
    assert forall|u: int| #[trigger] covers(cl1, u) <==> #[trigger] covers(cl0, u) by {
        if covers(cl1, u) {
            let (a, k) = choose|a: usize, k: int|
                #[trigger] has_block(cl1, a, k) && a <= u < a + pow2(k as nat);
            assert(has_block(cl0, a, k) && a <= u < a + pow2(k as nat));
        }
        if covers(cl0, u) {
            let (a, k) = choose|a: usize, k: int|
                #[trigger] has_block(cl0, a, k) && a <= u < a + pow2(k as nat);
            assert(has_block(cl1, a, k) && a <= u < a + pow2(k as nat));
        }
    }
    assert forall|n: int| n <= cl0.len() implies #[trigger] units_upto(cl1, n) == units_upto(
        cl0,
        n,
    ) by {
        lemma_units_views_agree(cl0, cl1, n);
    }
    if blocks_wf(cl0, fed) {
        assert forall|a: usize, k: int| #[trigger] has_block(cl1, a, k) implies a as nat % pow2(
            k as nat,
        ) == 0 && range_set(a as int, a + pow2(k as nat)) <= fed by {
            assert(has_block(cl0, a, k));
        }
    }
    if blocks_disjoint(cl0) {
        assert forall|a1: usize, k1: int, a2: usize, k2: int|
            #[trigger] has_block(cl1, a1, k1) && #[trigger] has_block(cl1, a2, k2) && !(a1 == a2
            && k1 == k2) implies a1 + pow2(k1 as nat) <= a2 || a2 + pow2(k2 as nat) <= a1 by {
            assert(has_block(cl0, a1, k1) && has_block(cl0, a2, k2));
        }
    }
}

/// Unit counts agree between states whose classes hold the same sequences.
proof fn lemma_units_views_agree(cl0: Seq<Vec<usize>>, cl1: Seq<Vec<usize>>, n: int)
    requires
        cl1.len() == cl0.len(),
        n <= cl0.len(),
        forall|j: int| 0 <= j < cl0.len() ==> cl1[j]@ == cl0[j]@,
    ensures
        units_upto(cl1, n) == units_upto(cl0, n),
    decreases n,
{
    if n > 0 {
        lemma_units_views_agree(cl0, cl1, n - 1);
        assert(cl1[n - 1]@ == cl0[n - 1]@);
    }
}

impl BuddyCore {
    /// The free unit count is never negative.
    pub proof fn lemma_units_nonneg(self)
        ensures
            self.units() >= 0,
    {
        lemma_units_nonneg(self.classes@, self.classes@.len() as int);
    }

    /// A free block at order `k0` or above accounts for at least `pow2(k0)`
    /// of the free units.
    pub proof fn lemma_order_units(self, k0: int)
        requires
            self.wf(),
            0 <= k0 < ORDER,
            self.has_order_at_least(k0),
        ensures
            self.units() >= pow2(k0 as nat),
    {
        let j = choose|j: int| k0 <= j < ORDER && #[trigger] self.classes@[j]@.len() > 0;
        lemma_units_lower_bound(self.classes@, j, self.classes@.len() as int);
        crate::power::lemma_pow2_le(k0 as nat, j as nat);
    }
}

/// Two sorted duplicate-free lists holding the same elements are equal.
pub proof fn lemma_sorted_same_elements(s1: Seq<usize>, s2: Seq<usize>)
    requires
        sorted_strict(s1),
        sorted_strict(s2),
        forall|y: usize| s1.contains(y) <==> s2.contains(y),
    ensures
        s1 == s2,
    decreases s1.len(),
{
    if s1.len() == 0 {
        if s2.len() > 0 {
            assert(s2.contains(s2[0]));
        }
        assert(s1 =~= s2);
    } else {
        assert(s1.contains(s1[0]));
        assert(s2.len() > 0);
        assert(s2.contains(s2[0]));
        let i1 = choose|i: int| 0 <= i < s1.len() && s1[i] == s2[0];
        let i2 = choose|i: int| 0 <= i < s2.len() && s2[i] == s1[0];
        assert(s1[0] <= s1[i1] && s2[0] <= s2[i2]);
        assert(s1[0] == s2[0]);
        let t1 = s1.subrange(1, s1.len() as int);
        let t2 = s2.subrange(1, s2.len() as int);
        assert forall|y: usize| t1.contains(y) <==> t2.contains(y) by {
            lemma_tail_membership(s1, y);
            lemma_tail_membership(s2, y);
        }
        lemma_sorted_same_elements(t1, t2);
        assert(s1.len() == s2.len());
        assert forall|i: int| 0 <= i < s1.len() implies s1[i] == s2[i] by {
            if i >= 1 {
                assert(t1[i - 1] == s1[i]);
                assert(t2[i - 1] == s2[i]);
            }
        }
        assert(s1 =~= s2);
    }
}

/// In a sorted duplicate-free list, the tail holds exactly the elements
/// other than the head.
proof fn lemma_tail_membership(s: Seq<usize>, y: usize)
    requires
        sorted_strict(s),
        s.len() > 0,
    ensures
        s.subrange(1, s.len() as int).contains(y) <==> s.contains(y) && y != s[0],
{
    let t = s.subrange(1, s.len() as int);
    if t.contains(y) {
        let j = choose|j: int| 0 <= j < t.len() && t[j] == y;
        assert(s[j + 1] == y);
        assert(s[0] < s[j + 1]);
    }
    if s.contains(y) && y != s[0] {
        let j = choose|j: int| 0 <= j < s.len() && s[j] == y;
        assert(j != 0);
        assert(t[j - 1] == y);
    }
}

impl BuddyCore {
    /// Free lists are pinned by their blocks: two well-formed cores that
    /// hold the same free blocks hold them in identical lists.
    pub proof fn lemma_lists_determined(self, other: BuddyCore)
        requires
            self.wf(),
            other.wf(),
            forall|a: usize, k: int| #[trigger] has_block(self.cl(), a, k) <==> #[trigger] has_block(
                other.cl(),
                a,
                k,
            ),
        ensures
            forall|k: int| 0 <= k < ORDER ==> #[trigger] self.cl()[k]@ == other.cl()[k]@,
    {
        assert forall|k: int| 0 <= k < ORDER implies #[trigger] self.cl()[k]@
            == other.cl()[k]@ by {
            assert forall|y: usize| self.cl()[k]@.contains(y) <==> other.cl()[k]@.contains(
                y,
            ) by {
                assert(has_block(self.cl(), y, k) <==> has_block(other.cl(), y, k));
            }
            lemma_sorted_same_elements(self.cl()[k]@, other.cl()[k]@);
        }
    }
}

/// Empty classes hold zero units.
proof fn lemma_units_all_empty(cl: Seq<Vec<usize>>, n: int)
    requires
        forall|j: int| 0 <= j < cl.len() ==> #[trigger] cl[j]@.len() == 0,
        n <= cl.len(),
    ensures
        units_upto(cl, n) == 0,
    decreases n,
{
    if n > 0 {
        lemma_units_all_empty(cl, n - 1);
    }
}

} // verus!
