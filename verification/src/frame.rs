//! A buddy-system allocator for page frames, identified by integer indices.
//!
//! Counts are rounded up to powers of two; freeing must use the same count
//! as the matching allocation. The free lists and their invariants live in
//! the shared buddy core; this type adds the `allocated` / `total` counters.
use vstd::prelude::*;

verus! {

use vstd::arithmetic::power2::{pow2, lemma2_to64};
use crate::buddy::{BuddyCore, range_set, ORDER, feed_evolution, alloc_evolution, free_landing};
use crate::power::{clog2, lemma_clog2, lemma_clog2_le, lemma_pow2_le, pow2_exec, ceil_log2};
use core::ops::Range;

/// The count actually carved out for a request: the next power of two,
/// with zero treated as one.
pub open spec fn rounded_count(count: usize) -> nat {
    pow2(frame_order(count))
}

/// The buddy order serving a request for `count` frames.
pub open spec fn frame_order(count: usize) -> nat {
    if count == 0 {
        0
    } else {
        clog2(count as nat)
    }
}

/// A frame allocator that uses a buddy system.
pub struct FrameAllocator {
    /// Free blocks of frame indices, one class per order.
    pub free_list: BuddyCore,
    /// Frames currently handed out, counted in rounded sizes.
    pub allocated: usize,
    /// Frames ever fed in.
    pub total: usize,
}

impl FrameAllocator {
    /// Frames ever fed to the allocator.
    pub open spec fn fed(self) -> Set<int> {
        self.free_list.fed()
    }

    /// Frames currently free.
    pub open spec fn free(self) -> Set<int> {
        self.free_list.free()
    }

    /// Frames currently handed out.
    pub open spec fn live(self) -> Set<int> {
        self.free_list.live()
    }

    /// A request for `count` frames can be served.
    pub open spec fn can_serve(self, count: usize) -> bool {
        self.free_list.has_order_at_least(frame_order(count) as int)
    }

    /// Structural invariants plus counter accounting: the frames held free,
    /// counted by block sizes, and the frames handed out add up to the
    /// frames ever fed.
    pub open spec fn wf(self) -> bool {
        &&& self.free_list.wf()
        &&& self.free_list.units() + self.allocated == self.total
        &&& self.allocated >= 0
    }

    /// Create an empty frame allocator.
    pub fn new() -> (r: FrameAllocator)
        ensures
            r.wf(),
            r.fed() == Set::<int>::empty(),
            r.free() == Set::<int>::empty(),
            r.live() == Set::<int>::empty(),
            r.allocated == 0,
            r.total == 0,
    {
        FrameAllocator { free_list: BuddyCore::new(), allocated: 0, total: 0 }
    }

    /// Add the range of frame numbers `[start, end)` to the allocator.
    /// The range must be new: feeding the same frame twice is refused.
    pub fn add_frame(&mut self, start: usize, end: usize)
        requires
            old(self).wf(),
            start <= end,
            range_set(start as int, end as int).disjoint(old(self).fed()),
            old(self).total + (end - start) <= usize::MAX,
        ensures
            final(self).wf(),
            final(self).fed() == old(self).fed() + range_set(start as int, end as int),
            final(self).free() == old(self).free() + range_set(start as int, end as int),
            final(self).live() == old(self).live(),
            final(self).allocated == old(self).allocated,
            final(self).total == old(self).total + (end - start),
            feed_evolution(old(self).free_list, final(self).free_list, start as int, end as int),
    {
        self.free_list.add_range(start, end);
        self.total = self.total + (end - start);
    }

    /// Add a range of frames to the allocator.
    pub fn insert(&mut self, range: Range<usize>)
        requires
            old(self).wf(),
            range.start <= range.end,
            range_set(range.start as int, range.end as int).disjoint(old(self).fed()),
            old(self).total + (range.end - range.start) <= usize::MAX,
        ensures
            final(self).wf(),
            final(self).fed() == old(self).fed() + range_set(
                range.start as int,
                range.end as int,
            ),
            final(self).free() == old(self).free() + range_set(
                range.start as int,
                range.end as int,
            ),
            final(self).live() == old(self).live(),
            final(self).allocated == old(self).allocated,
            final(self).total == old(self).total + (range.end - range.start),
            feed_evolution(
                old(self).free_list,
                final(self).free_list,
                range.start as int,
                range.end as int,
            ),
    {
        self.add_frame(range.start, range.end);
    }

    /// Allocate a block of `count` frames (rounded up to a power of two) and
    /// return its first frame, or nothing when no class of that order or
    /// above holds a free block. The block returned is the least-addressed
    /// free block of the first suitable order.
    pub fn allocate(&mut self, count: usize) -> (r: Option<usize>)
        requires
            old(self).wf(),
        ensures
            final(self).wf(),
            final(self).fed() == old(self).fed(),
            final(self).total == old(self).total,
            r is Some <==> old(self).can_serve(count),
            r is None ==> *final(self) == *old(self),
            r matches Some(p) ==> p as nat % rounded_count(count) == 0 && range_set(
                p as int,
                p + rounded_count(count),
            ) <= old(self).free() && final(self).free() == old(self).free() - range_set(
                p as int,
                p + rounded_count(count),
            ) && final(self).live() == old(self).live() + range_set(
                p as int,
                p + rounded_count(count),
            ) && final(self).allocated == old(self).allocated + rounded_count(count),
            r matches Some(p) ==> alloc_evolution(
                old(self).free_list,
                final(self).free_list,
                p,
                frame_order(count) as int,
            ),
    {
        proof {
            lemma2_to64();
        }
        let cap = pow2_exec(31);
        if count > cap {
            proof {
                // the order for such a count exceeds every class
                lemma_clog2(count as nat);
                if frame_order(count) < ORDER {
                    lemma_clog2_le(count as nat, frame_order(count));
                    lemma_pow2_le(frame_order(count), 31);
                    assert(count <= pow2(31));
                }
                assert(!old(self).can_serve(count));
            }
            return None;
        }
        let n = if count == 0 {
            1
        } else {
            count
        };
        proof {
            assert(2 * (n - 1) <= usize::MAX) by {
                lemma2_to64();
                assert(usize::MAX == u32::MAX || usize::MAX == u64::MAX);
            }
        }
        let k0 = ceil_log2(n);
        proof {
            assert(k0 == frame_order(count));
            lemma_clog2_le(n as nat, 31);
            lemma_pow2_le(k0 as nat, 31);
            lemma2_to64();
        }
        match self.free_list.alloc_order(k0) {
            Some(p) => {
                let size = pow2_exec(k0);
                proof {
                    self.free_list.lemma_units_nonneg();
                }
                self.allocated = self.allocated + size;
                Some(p)
            },
            None => None,
        }
    }

    /// Free the block of `count` frames starting at `frame`. The pair must
    /// be exactly one returned by a matching `alloc`: the same rounded
    /// count, still wholly live, and the start aligned to the rounded count.
    /// The block is merged with its buddy as long as the buddy is free, and
    /// the merged block joins the class of its final order.
    pub fn dealloc(&mut self, frame: usize, count: usize)
        requires
            old(self).wf(),
            frame as nat % rounded_count(count) == 0,
            range_set(frame as int, frame + rounded_count(count)) <= old(self).live(),
            rounded_count(count) <= old(self).allocated,
            frame_order(count) < ORDER,
        ensures
            final(self).wf(),
            final(self).fed() == old(self).fed(),
            final(self).total == old(self).total,
            final(self).free() == old(self).free() + range_set(
                frame as int,
                frame + rounded_count(count),
            ),
            final(self).live() == old(self).live() - range_set(
                frame as int,
                frame + rounded_count(count),
            ),
            final(self).allocated == old(self).allocated - rounded_count(count),
            free_landing(final(self).free_list, frame, frame_order(count) as int),
    {
        let n = if count == 0 {
            1
        } else {
            count
        };
        proof {
            lemma_clog2(n as nat);
            lemma_pow2_le(clog2(n as nat), 31);
            lemma2_to64();
            assert(n <= pow2(31));
            assert(2 * (n - 1) <= usize::MAX) by {
                lemma2_to64();
                assert(usize::MAX == u32::MAX || usize::MAX == u64::MAX);
            }
        }
        let k0 = ceil_log2(n);
        let size = pow2_exec(k0);
        self.free_list.free_order(frame, k0);
        self.allocated = self.allocated - size;
    }

    /// The counters: frames handed out and frames ever fed.
    pub fn stats(&self) -> (r: (usize, usize))
        ensures
            r.0 == self.allocated,
            r.1 == self.total,
    {
        (self.allocated, self.total)
    }
}

} // verus!
