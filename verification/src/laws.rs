//! The allocators' governing laws, stated and proved once, over the same
//! views that the operations' contracts use.
//!
//! Conservation says that the bytes or frames ever fed are exactly the free
//! and the live ones together (for the list heap, also those kept back for
//! alignment); the remaining laws relate the states before and after an
//! allocation, a matching free, or two feedings.
use vstd::prelude::*;

verus! {

use vstd::arithmetic::power2::pow2;
use crate::buddy::{BuddyCore, range_set, has_block, feed_block, feed_evolution, ORDER};
use crate::power::{lemma_clog2, lemma_pow2_le, lemma_clog2_pow2};
use crate::frame::{FrameAllocator, frame_order, rounded_count};
use crate::heap::{Heap, Layout, heap_order, required_of, size_order};
use crate::list::Allocator;

/// Conservation for the frame allocator: every frame ever fed is free or
/// live, never both.
pub proof fn frame_conservation(a: FrameAllocator)
    requires
        a.wf(),
    ensures
        a.fed() == a.free() + a.live(),
        a.free().disjoint(a.live()),
{
    assert(a.fed() =~= a.free() + a.live());
    assert(a.free().disjoint(a.live())) by {
        assert forall|u: int| a.free().contains(u) implies !a.live().contains(u) by {}
    }
}

/// Conservation for the byte heap: every byte ever fed is free or live,
/// never both.
pub proof fn heap_conservation(h: Heap)
    requires
        h.wf(),
    ensures
        h.fed() == h.free() + h.live(),
        h.free().disjoint(h.live()),
{
    assert(h.fed() =~= h.free() + h.live());
    assert(h.free().disjoint(h.live())) by {
        assert forall|u: int| h.free().contains(u) implies !h.live().contains(u) by {}
    }
}

/// Conservation for the linked-list heap: every byte ever fed is free, live
/// or kept back for alignment, and the three never overlap.
pub proof fn list_conservation(a: Allocator)
    requires
        a.wf(),
    ensures
        a.fed() == a.free() + a.live() + a.lost(),
        a.free().disjoint(a.live()),
        a.free().disjoint(a.lost()),
        a.live().disjoint(a.lost()),
{
    assert(a.fed() =~= a.free() + a.live() + a.lost());
}

/// Every free block of the buddy core is aligned to its own size.
pub proof fn free_block_aligned(c: BuddyCore, addr: usize, k: int)
    requires
        c.wf(),
        has_block(c.cl(), addr, k),
    ensures
        addr as nat % pow2(k as nat) == 0,
{
}

/// A block taken from the free frames lies inside what was fed and touches
/// no frame that is handed out.
pub proof fn frame_alloc_fresh(a: FrameAllocator, p: usize, count: usize)
    requires
        a.wf(),
        range_set(p as int, p + rounded_count(count)) <= a.free(),
    ensures
        range_set(p as int, p + rounded_count(count)) <= a.fed(),
        range_set(p as int, p + rounded_count(count)).disjoint(a.live()),
{
    assert forall|u: int| range_set(p as int, p + rounded_count(count)).contains(u) implies
        a.fed().contains(u) && !a.live().contains(u) by {
        assert(a.free().contains(u));
    }
}

/// Allocating and then freeing the same block restores the frame
/// allocator's frames and counters exactly.
pub proof fn frame_round_trip(s0: FrameAllocator, s1: FrameAllocator, s2: FrameAllocator, p: usize, count: usize)
    requires
        s0.wf(),
        // the allocation step
        range_set(p as int, p + rounded_count(count)) <= s0.free(),
        s1.free() == s0.free() - range_set(p as int, p + rounded_count(count)),
        s1.live() == s0.live() + range_set(p as int, p + rounded_count(count)),
        s1.allocated == s0.allocated + rounded_count(count),
        s1.total == s0.total,
        s1.fed() == s0.fed(),
        // the matching free
        s2.free() == s1.free() + range_set(p as int, p + rounded_count(count)),
        s2.live() == s1.live() - range_set(p as int, p + rounded_count(count)),
        s2.allocated == s1.allocated - rounded_count(count),
        s2.total == s1.total,
        s2.fed() == s1.fed(),
    ensures
        s2.free() == s0.free(),
        s2.live() == s0.live(),
        s2.allocated == s0.allocated,
        s2.total == s0.total,
        s2.fed() == s0.fed(),
{
    let r = range_set(p as int, p + rounded_count(count));
    assert(s2.free() =~= s0.free()) by {
        assert forall|u: int| s2.free().contains(u) <==> s0.free().contains(u) by {
            if r.contains(u) {
                assert(s0.free().contains(u));
            }
        }
    }
    assert(s2.live() =~= s0.live()) by {
        assert forall|u: int| s2.live().contains(u) <==> s0.live().contains(u) by {
            if r.contains(u) {
                assert(s0.free().contains(u));
                assert(!s0.live().contains(u));
            }
        }
    }
}

/// Allocating and then freeing the same block restores the byte heap's
/// bytes and counters exactly.
pub proof fn heap_round_trip(s0: Heap, s1: Heap, s2: Heap, p: usize, l: Layout)
    requires
        s0.wf(),
        // the allocation step
        range_set(p as int, p + required_of(l)) <= s0.free(),
        s1.free() == s0.free() - range_set(p as int, p + required_of(l)),
        s1.live() == s0.live() + range_set(p as int, p + required_of(l)),
        s1.user == s0.user + l.size,
        s1.allocated == s0.allocated + required_of(l),
        s1.total == s0.total,
        s1.fed() == s0.fed(),
        // the matching free
        s2.free() == s1.free() + range_set(p as int, p + required_of(l)),
        s2.live() == s1.live() - range_set(p as int, p + required_of(l)),
        s2.user == s1.user - l.size,
        s2.allocated == s1.allocated - required_of(l),
        s2.total == s1.total,
        s2.fed() == s1.fed(),
    ensures
        s2.free() == s0.free(),
        s2.live() == s0.live(),
        s2.user == s0.user,
        s2.allocated == s0.allocated,
        s2.total == s0.total,
        s2.fed() == s0.fed(),
{
    let r = range_set(p as int, p + required_of(l));
    assert(s2.free() =~= s0.free()) by {
        assert forall|u: int| s2.free().contains(u) <==> s0.free().contains(u) by {
            if r.contains(u) {
                assert(s0.free().contains(u));
            }
        }
    }
    assert(s2.live() =~= s0.live()) by {
        assert forall|u: int| s2.live().contains(u) <==> s0.live().contains(u) by {
            if r.contains(u) {
                assert(s0.free().contains(u));
                assert(!s0.live().contains(u));
            }
        }
    }
}

/// Feeding two disjoint ranges leaves the same frames free and the same
/// counters in whichever order they are fed.
pub proof fn frame_feed_commutes(
    s0: FrameAllocator,
    sa: FrameAllocator,
    sab: FrameAllocator,
    sb: FrameAllocator,
    sba: FrameAllocator,
    a1: usize,
    a2: usize,
    b1: usize,
    b2: usize,
)
    requires
        // feeding A then B
        sa.free() == s0.free() + range_set(a1 as int, a2 as int),
        sa.fed() == s0.fed() + range_set(a1 as int, a2 as int),
        sa.total == s0.total + (a2 - a1),
        sab.free() == sa.free() + range_set(b1 as int, b2 as int),
        sab.fed() == sa.fed() + range_set(b1 as int, b2 as int),
        sab.total == sa.total + (b2 - b1),
        // feeding B then A
        sb.free() == s0.free() + range_set(b1 as int, b2 as int),
        sb.fed() == s0.fed() + range_set(b1 as int, b2 as int),
        sb.total == s0.total + (b2 - b1),
        sba.free() == sb.free() + range_set(a1 as int, a2 as int),
        sba.fed() == sb.fed() + range_set(a1 as int, a2 as int),
        sba.total == sb.total + (a2 - a1),
    ensures
        sab.free() == sba.free(),
        sab.fed() == sba.fed(),
        sab.total == sba.total,
{
    assert(sab.free() =~= sba.free());
    assert(sab.fed() =~= sba.fed());
}

/// A block taken from the free bytes lies inside what was fed and touches
/// no byte that is handed out.
pub proof fn heap_alloc_fresh(h: Heap, p: usize, l: Layout)
    requires
        h.wf(),
        range_set(p as int, p + required_of(l)) <= h.free(),
    ensures
        range_set(p as int, p + required_of(l)) <= h.fed(),
        range_set(p as int, p + required_of(l)).disjoint(h.live()),
{
    assert forall|u: int| range_set(p as int, p + required_of(l)).contains(u) implies
        h.fed().contains(u) && !h.live().contains(u) by {
        assert(h.free().contains(u));
    }
}

/// Feeding two disjoint ranges leaves the same bytes free and the same
/// counters in whichever order they are fed.
pub proof fn heap_feed_commutes(
    s0: Heap,
    sa: Heap,
    sab: Heap,
    sb: Heap,
    sba: Heap,
    a1: int,
    a2: int,
    b1: int,
    b2: int,
)
    requires
        // feeding A then B
        sa.free() == s0.free() + range_set(a1, a2),
        sa.fed() == s0.fed() + range_set(a1, a2),
        sa.total == s0.total + (a2 - a1),
        sab.free() == sa.free() + range_set(b1, b2),
        sab.fed() == sa.fed() + range_set(b1, b2),
        sab.total == sa.total + (b2 - b1),
        // feeding B then A
        sb.free() == s0.free() + range_set(b1, b2),
        sb.fed() == s0.fed() + range_set(b1, b2),
        sb.total == s0.total + (b2 - b1),
        sba.free() == sb.free() + range_set(a1, a2),
        sba.fed() == sb.fed() + range_set(a1, a2),
        sba.total == sb.total + (a2 - a1),
    ensures
        sab.free() == sba.free(),
        sab.fed() == sba.fed(),
        sab.total == sba.total,
{
    assert(sab.free() =~= sba.free());
    assert(sab.fed() =~= sba.fed());
}

/// A request for more bytes than were ever fed fails.
pub proof fn heap_alloc_exceeds_total_fails(h: Heap, l: Layout)
    requires
        h.wf(),
        l.size > h.total,
    ensures
        !h.can_serve(l),
{
    if h.can_serve(l) {
        let k0 = heap_order(l) as int;
        h.free_list.lemma_order_units(k0);
        lemma_clog2(l.size as nat);
        lemma_pow2_le(size_order(l.size), heap_order(l));
        assert(l.size <= pow2(heap_order(l)));
        assert(h.free_list.units() >= pow2(k0 as nat));
        h.lemma_user_le_allocated();
        assert(h.free_list.units() <= h.total);
        assert(l.size <= h.total);
    }
}

/// The frame allocator's state is pinned by its observable views: two
/// well-formed allocators holding the same blocks and the same counters
/// have identical free lists. With the feed, allocation and free rules in
/// the operations' contracts, this makes those operations deterministic.
pub proof fn frame_state_determined(x: FrameAllocator, y: FrameAllocator)
    requires
        x.wf(),
        y.wf(),
        forall|a: usize, k: int| #[trigger] has_block(x.free_list.cl(), a, k)
            <==> #[trigger] has_block(y.free_list.cl(), a, k),
    ensures
        forall|k: int| 0 <= k < ORDER ==> #[trigger] x.free_list.cl()[k]@
            == y.free_list.cl()[k]@,
{
    x.free_list.lemma_lists_determined(y.free_list);
}

/// Feeding two disjoint ranges in either order yields identical free lists,
/// class by class: the fed blocks depend on the ranges alone.
pub proof fn frame_feed_commutes_lists(
    s0: FrameAllocator,
    sa: FrameAllocator,
    sab: FrameAllocator,
    sb: FrameAllocator,
    sba: FrameAllocator,
    a1: usize,
    a2: usize,
    b1: usize,
    b2: usize,
)
    requires
        sab.wf(),
        sba.wf(),
        // feeding A then B
        feed_evolution(s0.free_list, sa.free_list, a1 as int, a2 as int),
        feed_evolution(sa.free_list, sab.free_list, b1 as int, b2 as int),
        sab.total == sa.total + (b2 - b1),
        sa.total == s0.total + (a2 - a1),
        // feeding B then A
        feed_evolution(s0.free_list, sb.free_list, b1 as int, b2 as int),
        feed_evolution(sb.free_list, sba.free_list, a1 as int, a2 as int),
        sba.total == sb.total + (a2 - a1),
        sb.total == s0.total + (b2 - b1),
    ensures
        forall|k: int| 0 <= k < ORDER ==> #[trigger] sab.free_list.cl()[k]@
            == sba.free_list.cl()[k]@,
        sab.total == sba.total,
{
    assert forall|a: usize, k: int| #[trigger] has_block(sab.free_list.cl(), a, k)
        <==> #[trigger] has_block(sba.free_list.cl(), a, k) by {
        assert(has_block(sab.free_list.cl(), a, k) <==> has_block(s0.free_list.cl(), a, k)
            || feed_block(a1 as int, a2 as int, a, k) || feed_block(b1 as int, b2 as int, a, k));
        assert(has_block(sba.free_list.cl(), a, k) <==> has_block(s0.free_list.cl(), a, k)
            || feed_block(b1 as int, b2 as int, a, k) || feed_block(a1 as int, a2 as int, a, k));
    }
    sab.free_list.lemma_lists_determined(sba.free_list);
}

/// An allocator holding no free frame serves no request.
pub proof fn frame_alloc_empty_fails(a: FrameAllocator, count: usize)
    requires
        a.wf(),
        a.free().is_empty(),
    ensures
        !a.can_serve(count),
{
    if a.can_serve(count) {
        let j = choose|j: int|
            frame_order(count) <= j < ORDER && #[trigger] a.free_list.cl()[j]@.len() > 0;
        let b = a.free_list.cl()[j]@[0];
        assert(a.free_list.cl()[j]@.contains(b));
        assert(has_block(a.free_list.cl(), b, j));
        vstd::arithmetic::power2::lemma_pow2_pos(j as nat);
        assert(crate::buddy::covers(a.free_list.cl(), b as int));
        assert(a.free().contains(b as int));
    }
}

/// A heap holding no free byte serves no request.
pub proof fn heap_alloc_empty_fails(h: Heap, l: Layout)
    requires
        h.wf(),
        h.free().is_empty(),
    ensures
        !h.can_serve(l),
{
    if h.can_serve(l) {
        let j = choose|j: int|
            heap_order(l) <= j < ORDER && #[trigger] h.free_list.cl()[j]@.len() > 0;
        let b = h.free_list.cl()[j]@[0];
        assert(h.free_list.cl()[j]@.contains(b));
        assert(has_block(h.free_list.cl(), b, j));
        vstd::arithmetic::power2::lemma_pow2_pos(j as nat);
        assert(crate::buddy::covers(h.free_list.cl(), b as int));
        assert(h.free().contains(b as int));
    }
}

/// A request for more frames than were ever fed fails.
pub proof fn frame_alloc_exceeds_total_fails(a: FrameAllocator, count: usize)
    requires
        a.wf(),
        count > a.total,
    ensures
        !a.can_serve(count),
{
    if a.can_serve(count) {
        let k0 = frame_order(count) as int;
        a.free_list.lemma_order_units(k0);
        lemma_clog2(count as nat);
        assert(count <= pow2(frame_order(count)));
        assert(a.free_list.units() >= pow2(k0 as nat));
        assert(a.free_list.units() <= a.total);
        assert(count <= a.total);
    }
}

/// A request of the highest order succeeds exactly when a block of that
/// order is free: no splitting can help and none is needed.
pub proof fn frame_alloc_max_order(a: FrameAllocator, count: usize)
    requires
        a.wf(),
        frame_order(count) == ORDER - 1,
    ensures
        a.can_serve(count) <==> a.free_list.cl()[ORDER - 1]@.len() > 0,
{
    if a.can_serve(count) {
        let j = choose|j: int|
            frame_order(count) <= j < ORDER && #[trigger] a.free_list.cl()[j]@.len() > 0;
        assert(j == ORDER - 1);
    }
    if a.free_list.cl()[ORDER - 1]@.len() > 0 {
        assert(frame_order(count) <= ORDER - 1 < ORDER && a.free_list.cl()[ORDER - 1]@.len() > 0);
    }
}

/// An alignment above the size governs the block: the bytes carved out are
/// at least the alignment, so the request is honored by promotion.
pub proof fn heap_alignment_promotes(l: Layout)
    requires
        l.wf(),
    ensures
        required_of(l) >= l.align,
        required_of(l) >= l.size,
{
    let j = choose|j: nat| j < 64 && #[trigger] pow2(j) == l.align as nat;
    lemma_clog2_pow2(j);
    assert(size_order(l.align) == j);
    lemma_pow2_le(size_order(l.align), heap_order(l));
    if l.size > 0 {
        lemma_clog2(l.size as nat);
        lemma_pow2_le(size_order(l.size), heap_order(l));
    }
}

} // verus!

