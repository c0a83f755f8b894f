//! A buddy-system byte heap serving sized, aligned allocations.
//!
//! Requests are rounded up to the next power of two, and never below the
//! alignment or the word size. The free lists and their invariants live in
//! the shared buddy core; this type adds the `user` / `allocated` / `total`
//! counters and the layout bookkeeping that keeps them consistent.
use vstd::prelude::*;

verus! {

use vstd::arithmetic::power2::{pow2, lemma_pow2_pos, lemma2_to64};
use crate::buddy::{BuddyCore, range_set, ORDER, feed_evolution, alloc_evolution, free_landing};
use crate::power::{
    clog2,
    lemma_clog2,
    lemma_clog2_le,
    lemma_clog2_pow2,
    lemma_pow2_le,
    lemma_pow2_mod_down,
    power_of_two,
    power_of_two_exec,
    pow2_exec,
    ceil_log2,
};

/// The machine word size of the target, in bytes: blocks are never smaller.
pub const WORD_SIZE: usize = 8;

/// The order of the word size: `pow2(WORD_ORDER) == WORD_SIZE`.
pub const WORD_ORDER: usize = 3;

/// An allocation request: a size in bytes and a power-of-two alignment.
#[derive(Debug, Clone, Copy, PartialEq, Eq, Structural)]
pub struct Layout {
    /// Requested size in bytes.
    pub size: usize,
    /// Requested alignment in bytes; always a power of two.
    pub align: usize,
}

impl Layout {
    /// A valid layout: the alignment is a power of two.
    pub open spec fn wf(self) -> bool {
        power_of_two(self.align as nat)
    }

    /// Build a layout, refusing an alignment that is zero or not a power
    /// of two.
    pub fn from_size_align(size: usize, align: usize) -> (r: Option<Layout>)
        ensures
            r is Some <==> power_of_two(align as nat),
            r matches Some(l) ==> l == (Layout { size, align }) && l.wf(),
    {
        if power_of_two_exec(align) {
            Some(Layout { size, align })
        } else {
            None
        }
    }
}

/// Why an allocation failed.
#[derive(Debug, Clone, Copy, PartialEq, Eq, Structural)]
pub enum AllocError {
    /// No free block of the required order or above exists.
    OutOfMemory,
}

/// The order such that `clog2` of a size, with zero treated as one.
pub open spec fn size_order(n: usize) -> nat {
    if n == 0 {
        0
    } else {
        clog2(n as nat)
    }
}

/// The buddy order serving a layout: large enough for the rounded size, the
/// alignment and one machine word.
pub open spec fn heap_order(l: Layout) -> nat {
    let ks = size_order(l.size);
    let ka = size_order(l.align);
    let k1 = if ks >= ka {
        ks
    } else {
        ka
    };
    if k1 >= WORD_ORDER as nat {
        k1
    } else {
        WORD_ORDER as nat
    }
}

/// The bytes actually carved out for a layout.
pub open spec fn required_of(l: Layout) -> nat {
    pow2(heap_order(l))
}

/// The requested bytes of a list of outstanding allocations.
pub open spec fn sum_user(s: Seq<(usize, usize)>) -> int
    decreases s.len(),
{
    if s.len() == 0 {
        0
    } else {
        sum_user(s.drop_last()) + s.last().0
    }
}

/// The carved-out bytes of a list of outstanding allocations.
pub open spec fn sum_req(s: Seq<(usize, usize)>) -> int
    decreases s.len(),
{
    if s.len() == 0 {
        0
    } else {
        sum_req(s.drop_last()) + s.last().1
    }
}

/// Both sums are non-negative.
proof fn lemma_sums_nonneg(s: Seq<(usize, usize)>)
    ensures
        sum_user(s) >= 0,
        sum_req(s) >= 0,
    decreases s.len(),
{
    if s.len() > 0 {
        lemma_sums_nonneg(s.drop_last());
    }
}

/// When each allocation asks no more than was carved out, the totals agree.
proof fn lemma_sums_le(s: Seq<(usize, usize)>)
    requires
        forall|i: int| 0 <= i < s.len() ==> (#[trigger] s[i]).0 <= s[i].1,
    ensures
        sum_user(s) <= sum_req(s),
    decreases s.len(),
{
    if s.len() > 0 {
        assert(forall|i: int|
            0 <= i < s.len() - 1 ==> (#[trigger] s.drop_last()[i]).0 == s[i].0
                && s.drop_last()[i].1 == s[i].1);
        lemma_sums_le(s.drop_last());
        assert(s.last().0 <= s.last().1);
    }
}

/// Appending an allocation adds its two figures to the sums.
proof fn lemma_sums_push(s: Seq<(usize, usize)>, e: (usize, usize))
    ensures
        sum_user(s.push(e)) == sum_user(s) + e.0,
        sum_req(s.push(e)) == sum_req(s) + e.1,
{
    assert(s.push(e).drop_last() =~= s);
    assert(s.push(e).last() == e);
}

/// Removing an allocation subtracts its two figures from the sums.
proof fn lemma_sums_remove(s: Seq<(usize, usize)>, i: int)
    requires
        0 <= i < s.len(),
    ensures
        sum_user(s.remove(i)) == sum_user(s) - s[i].0,
        sum_req(s.remove(i)) == sum_req(s) - s[i].1,
    decreases s.len(),
{
    if i == s.len() - 1 {
        assert(s.remove(i) =~= s.drop_last());
    } else {
        let t = s.remove(i);
        assert(t.drop_last() =~= s.drop_last().remove(i));
        assert(t.last() == s.last());
        lemma_sums_remove(s.drop_last(), i);
        assert(s.drop_last()[i] == s[i]);
    }
}

/// A byte heap that uses a buddy system.
pub struct Heap {
    /// Free blocks of byte addresses, one class per order.
    pub free_list: BuddyCore,
    /// Bytes requested by the outstanding allocations.
    pub user: usize,
    /// Bytes carved out for the outstanding allocations.
    pub allocated: usize,
    /// Bytes ever fed in.
    pub total: usize,
    /// Ghost: the `(size, required)` figures of each outstanding allocation.
    pub allocs: Ghost<Seq<(usize, usize)>>,
}

impl Heap {
    /// Bytes ever fed to the heap.
    pub open spec fn fed(self) -> Set<int> {
        self.free_list.fed()
    }

    /// Bytes currently free.
    pub open spec fn free(self) -> Set<int> {
        self.free_list.free()
    }

    /// Bytes currently handed out.
    pub open spec fn live(self) -> Set<int> {
        self.free_list.live()
    }

    /// A request with this layout can be served.
    pub open spec fn can_serve(self, l: Layout) -> bool {
        self.free_list.has_order_at_least(heap_order(l) as int)
    }

    /// Structural invariants plus counter accounting: free units and
    /// carved-out bytes add up to the bytes fed, the counters match the
    /// outstanding allocations, and no allocation asks more than its block.
    pub open spec fn wf(self) -> bool {
        &&& self.free_list.wf()
        &&& self.free_list.units() + self.allocated == self.total
        &&& self.user == sum_user(self.allocs@)
        &&& self.allocated == sum_req(self.allocs@)
        &&& forall|i: int|
            0 <= i < self.allocs@.len() ==> (#[trigger] self.allocs@[i]).0 <= self.allocs@[i].1
    }

    /// The heap never carves out less than was asked: `user <= allocated`.
    pub proof fn lemma_user_le_allocated(self)
        requires
            self.wf(),
        ensures
            self.user <= self.allocated,
    {
        lemma_sums_le(self.allocs@);
    }

    /// Create an empty heap.
    pub fn new() -> (r: Heap)
        ensures
            r.wf(),
            r.fed() == Set::<int>::empty(),
            r.free() == Set::<int>::empty(),
            r.live() == Set::<int>::empty(),
            r.user == 0,
            r.allocated == 0,
            r.total == 0,
    {
        Heap {
            free_list: BuddyCore::new(),
            user: 0,
            allocated: 0,
            total: 0,
            allocs: Ghost(Seq::empty()),
        }
    }

    /// Feed the byte range `[start, end)` to the heap. The ends are aligned
    /// inward to the word size first; the range must be new.
    pub fn add_to_heap(&mut self, start: usize, end: usize)
        requires
            old(self).wf(),
            start <= end,
            start + WORD_SIZE - 1 <= usize::MAX,
            word_align_up(start as int) <= word_align_down(end as int),
            range_set(word_align_up(start as int), word_align_down(end as int)).disjoint(
                old(self).fed(),
            ),
            old(self).total + (word_align_down(end as int) - word_align_up(start as int))
                <= usize::MAX,
        ensures
            final(self).wf(),
            final(self).fed() == old(self).fed() + range_set(
                word_align_up(start as int),
                word_align_down(end as int),
            ),
            final(self).free() == old(self).free() + range_set(
                word_align_up(start as int),
                word_align_down(end as int),
            ),
            final(self).live() == old(self).live(),
            final(self).user == old(self).user,
            final(self).allocated == old(self).allocated,
            final(self).allocs@ == old(self).allocs@,
            final(self).total == old(self).total + (word_align_down(end as int) - word_align_up(
                start as int,
            )),
            feed_evolution(
                old(self).free_list,
                final(self).free_list,
                word_align_up(start as int),
                word_align_down(end as int),
            ),
    {
        let sa = (start + (WORD_SIZE - 1)) / WORD_SIZE * WORD_SIZE;
        let se = end / WORD_SIZE * WORD_SIZE;
        self.free_list.add_range(sa, se);
        self.total = self.total + (se - sa);
    }

    /// Allocate a block for `layout` and return its start address, or report
    /// that no block of the required order or above is free. A returned
    /// address is aligned to the layout's alignment.
    pub fn allocate(&mut self, layout: Layout) -> (r: Result<usize, AllocError>)
        requires
            old(self).wf(),
            layout.wf(),
        ensures
            final(self).wf(),
            final(self).fed() == old(self).fed(),
            final(self).total == old(self).total,
            r is Ok <==> old(self).can_serve(layout),
            r is Err ==> *final(self) == *old(self) && r == Err::<usize, AllocError>(
                AllocError::OutOfMemory,
            ),
            r matches Ok(p) ==> p as nat % pow2(heap_order(layout)) == 0 && p as nat
                % layout.align as nat == 0 && range_set(p as int, p + required_of(layout)) <= old(
                self,
            ).free() && final(self).free() == old(self).free() - range_set(
                p as int,
                p + required_of(layout),
            ) && final(self).live() == old(self).live() + range_set(
                p as int,
                p + required_of(layout),
            ) && final(self).user == old(self).user + layout.size && final(self).allocated == old(
                self,
            ).allocated + required_of(layout) && final(self).allocs@ == old(self).allocs@.push(
                (layout.size, required_of(layout) as usize),
            ),
            r matches Ok(p) ==> alloc_evolution(
                old(self).free_list,
                final(self).free_list,
                p,
                heap_order(layout) as int,
            ),
    {
        proof {
            lemma2_to64();
        }
        let cap = pow2_exec(31);
        if layout.size > cap || layout.align > cap {
            proof {
                // such an order exceeds every class
                if heap_order(layout) < ORDER {
                    if layout.size > cap {
                        lemma_clog2(layout.size as nat);
                        lemma_clog2_le(layout.size as nat, size_order(layout.size));
                        lemma_pow2_le(size_order(layout.size), 31);
                    } else {
                        lemma_clog2(layout.align as nat);
                        lemma_clog2_le(layout.align as nat, size_order(layout.align));
                        lemma_pow2_le(size_order(layout.align), 31);
                    }
                }
                assert(!old(self).can_serve(layout));
            }
            return Err(AllocError::OutOfMemory);
        }
        let ns = if layout.size == 0 {
            1
        } else {
            layout.size
        };
        proof {
            assert(usize::MAX == u32::MAX || usize::MAX == u64::MAX);
            let ja = choose|j: nat| j < 64 && #[trigger] pow2(j) == layout.align as nat;
            lemma_pow2_pos(ja);
            assert(layout.align >= 1);
        }
        let ks = ceil_log2(ns);
        let ka = ceil_log2(layout.align);
        let k1 = if ks >= ka {
            ks
        } else {
            ka
        };
        let k0 = if k1 >= WORD_ORDER {
            k1
        } else {
            WORD_ORDER
        };
        proof {
            assert(k0 == heap_order(layout));
            lemma_clog2_le(ns as nat, 31);
            lemma_clog2_le(layout.align as nat, 31);
            lemma_pow2_le(k0 as nat, 31);
        }
        match self.free_list.alloc_order(k0) {
            Some(p) => {
                let size = pow2_exec(k0);
                proof {
                    self.free_list.lemma_units_nonneg();
                    lemma_sums_le(self.allocs@);
                    lemma_sums_push(self.allocs@, (layout.size, size));
                    // the address is aligned to the layout's alignment
                    let ja = choose|j: nat| j < 64 && #[trigger] pow2(j) == layout.align as nat;
                    lemma_clog2_pow2(ja);
                    assert(size_order(layout.align) == ja);
                    lemma_pow2_mod_down(p as nat, k0 as nat, ja);
                }
                self.allocs = Ghost(self.allocs@.push((layout.size, size)));
                self.user = self.user + layout.size;
                self.allocated = self.allocated + size;
                Ok(p)
            },
            None => Err(AllocError::OutOfMemory),
        }
    }

    /// Free the block at `ptr` carved out for `layout`. The pair must be
    /// exactly one returned by a matching `allocate`: the same layout, still
    /// wholly live, the address aligned to the block's order. The block is
    /// merged with its buddy as long as the buddy is free, and the merged
    /// block joins the class of its final order.
    pub fn dealloc(&mut self, ptr: usize, layout: Layout)
        requires
            old(self).wf(),
            layout.wf(),
            heap_order(layout) < ORDER,
            ptr as nat % pow2(heap_order(layout)) == 0,
            range_set(ptr as int, ptr + required_of(layout)) <= old(self).live(),
            old(self).allocs@.contains((layout.size, required_of(layout) as usize)),
        ensures
            final(self).wf(),
            final(self).fed() == old(self).fed(),
            final(self).total == old(self).total,
            final(self).free() == old(self).free() + range_set(
                ptr as int,
                ptr + required_of(layout),
            ),
            final(self).live() == old(self).live() - range_set(
                ptr as int,
                ptr + required_of(layout),
            ),
            final(self).user == old(self).user - layout.size,
            final(self).allocated == old(self).allocated - required_of(layout),
            free_landing(final(self).free_list, ptr, heap_order(layout) as int),
    {
        let ns = if layout.size == 0 {
            1
        } else {
            layout.size
        };
        proof {
            lemma2_to64();
            let ja = choose|j: nat| j < 64 && #[trigger] pow2(j) == layout.align as nat;
            lemma_pow2_pos(ja);
            assert(layout.align >= 1);
            lemma_clog2(ns as nat);
            lemma_clog2(layout.align as nat);
            lemma_pow2_le(size_order(layout.size), heap_order(layout));
            lemma_pow2_le(size_order(layout.align), heap_order(layout));
            lemma_pow2_le(heap_order(layout), 31);
            assert(ns <= pow2(31));
            assert(layout.align <= pow2(31));
            assert(usize::MAX == u32::MAX || usize::MAX == u64::MAX);
        }
        let ks = ceil_log2(ns);
        let ka = ceil_log2(layout.align);
        let k1 = if ks >= ka {
            ks
        } else {
            ka
        };
        let k0 = if k1 >= WORD_ORDER {
            k1
        } else {
            WORD_ORDER
        };
        proof {
            assert(k0 == heap_order(layout));
        }
        let size = pow2_exec(k0);
        self.free_list.free_order(ptr, k0);
        proof {
            let s = self.allocs@;
            let i = choose|i: int| 0 <= i < s.len() && s[i] == (layout.size, size);
            lemma_sums_remove(s, i);
            lemma_sums_nonneg(s.remove(i));
            lemma_sums_le(s.remove(i));
            assert(forall|jj: int|
                0 <= jj < s.remove(i).len() ==> (#[trigger] s.remove(i)[jj]).0 == s.remove(
                    i,
                )[jj].0);
            self.allocs = Ghost(s.remove(i));
            assert forall|jj: int|
                0 <= jj < self.allocs@.len() implies (#[trigger] self.allocs@[jj]).0
                <= self.allocs@[jj].1 by {
                if jj < i {
                    assert(self.allocs@[jj] == s[jj]);
                } else {
                    assert(self.allocs@[jj] == s[jj + 1]);
                }
            }
        }
        self.user = self.user - layout.size;
        self.allocated = self.allocated - size;
    }

    /// The counters: bytes requested, bytes carved out, bytes ever fed.
    pub fn stats(&self) -> (r: (usize, usize, usize))
        ensures
            r.0 == self.user,
            r.1 == self.allocated,
            r.2 == self.total,
    {
        (self.user, self.allocated, self.total)
    }
}

/// `a` rounded up to the next word boundary.
pub open spec fn word_align_up(a: int) -> int {
    ((a + WORD_SIZE - 1) / WORD_SIZE as int) * WORD_SIZE as int
}

/// `a` rounded down to a word boundary.
pub open spec fn word_align_down(a: int) -> int {
    (a / WORD_SIZE as int) * WORD_SIZE as int
}

} // verus!
