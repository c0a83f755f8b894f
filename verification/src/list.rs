//! A first-fit linked-list byte heap: one chain of variable-size free
//! regions, each at least a header's size, freed regions pushed at the head.
//!
//! In memory the chain is stored inside the free regions themselves, each
//! header holding a size and a link word; here the chain is a sequence of
//! `(address, size)` regions with that header geometry as its invariant.
//! No coalescing is performed: freed regions accumulate on the chain.
//! Bytes skipped in front of an aligned allocation are never returned to
//! the chain; the ghost `lost` set records them, so that fed bytes are
//! always exactly the free, live and lost bytes together.
use vstd::prelude::*;

verus! {

use vstd::arithmetic::div_mod::{lemma_fundamental_div_mod, lemma_mod_multiples_basic};
use vstd::arithmetic::power2::{pow2, lemma2_to64};
use crate::buddy::range_set;
use crate::heap::Layout;

/// Size in bytes of a region header: a size word and a link word.
pub const NODE_SIZE: usize = 16;

/// Alignment in bytes of a region header: one machine word.
pub const NODE_ALIGN: usize = 8;

/// A free region: its start address and its size in bytes, header included.
#[derive(Debug, Clone, Copy, PartialEq, Eq, Structural)]
pub struct Node {
    /// Size of the region in bytes.
    pub size: usize,
    /// Start address of the region.
    pub addr: usize,
}

impl Node {
    /// A region that can hold its own header and fits in the address space.
    pub open spec fn wf(self) -> bool {
        &&& self.addr as int % NODE_ALIGN as int == 0
        &&& self.size >= NODE_SIZE
        &&& self.addr + self.size <= usize::MAX
    }

    /// Build a region descriptor.
    pub fn new(addr: usize, size: usize) -> (r: Node)
        ensures
            r.addr == addr,
            r.size == size,
    {
        Node { size, addr }
    }

    /// The first byte of the region.
    pub fn start_address(&self) -> (r: usize)
        ensures
            r == self.addr,
    {
        self.addr
    }

    /// One past the last byte of the region.
    pub fn end_address(&self) -> (r: usize)
        requires
            self.addr + self.size <= usize::MAX,
        ensures
            r == self.addr + self.size,
    {
        self.addr + self.size
    }
}

/// `a` rounded up to the next multiple of `align`.
pub open spec fn spec_align_up(a: int, align: int) -> int {
    ((a + align - 1) / align) * align
}

/// The rounded address is aligned and lies within one alignment above `a`.
pub proof fn lemma_align_up(a: int, align: int)
    requires
        a >= 0,
        align >= 1,
    ensures
        spec_align_up(a, align) % align == 0,
        a <= spec_align_up(a, align) < a + align,
        a % align == 0 ==> spec_align_up(a, align) == a,
        a % align != 0 ==> spec_align_up(a, align) == a + align - a % align,
{
    let d = a + align - 1;
    lemma_fundamental_div_mod(d, align);
    let q = d / align;
    let r = d % align;
    let s = spec_align_up(a, align);
    assert(s == q * align);
    lemma_mod_multiples_basic(q, align);
    assert(q * align == align * q) by (nonlinear_arith);
    assert(s == d - r);
    lemma_fundamental_div_mod(a, align);
    let ra = a % align;
    if ra == 0 {
        // d = a + align - 1 has remainder align - 1
        let qa = a / align;
        assert(a == align * qa);
        assert(d == align * qa + (align - 1));
        assert(d % align == align - 1) by {
            lemma_mod_multiples_vanish_local(qa, align - 1, align);
        }
    } else {
        let qa = a / align;
        assert(a == align * qa + ra);
        assert(d == align * qa + (ra - 1) + align);
        assert(d == align * (qa + 1) + (ra - 1)) by (nonlinear_arith)
            requires
                d == align * qa + (ra - 1) + align,
        ;
        assert(d % align == ra - 1) by {
            lemma_mod_multiples_vanish_local(qa + 1, ra - 1, align);
        }
    }
}

/// `(m * a + b) % m == b` for `0 <= b < m`.
proof fn lemma_mod_multiples_vanish_local(a: int, b: int, m: int)
    requires
        0 < m,
        0 <= b < m,
    ensures
        (m * a + b) % m == b,
{
    vstd::arithmetic::div_mod::lemma_mod_multiples_vanish(a, b, m);
    vstd::arithmetic::div_mod::lemma_small_mod(b as nat, m as nat);
}

/// A region serves a request when the aligned start and the size fit inside
/// it, and any trailing excess can hold a header of its own.
pub open spec fn region_fits(n: Node, size: int, align: int) -> bool {
    let s = spec_align_up(n.addr as int, align);
    let e = n.addr + n.size;
    &&& s + size <= e
    &&& (e - (s + size) == 0 || e - (s + size) >= NODE_SIZE)
}

/// Byte `u` lies in some chained region.
pub open spec fn chain_covers(rs: Seq<Node>, u: int) -> bool {
    exists|i: int| 0 <= i < rs.len() && (#[trigger] rs[i]).addr <= u < rs[i].addr + rs[i].size
}

/// All bytes held by the chain.
pub open spec fn chain_set(rs: Seq<Node>) -> Set<int> {
    Set::new(|u: int| chain_covers(rs, u))
}

/// A first-fit linked-list byte heap.
pub struct Allocator {
    /// The chain of free regions, most recently freed first.
    pub head: Vec<Node>,
    /// Ghost: the bytes ever fed in.
    pub fed: Ghost<Set<int>>,
    /// Ghost: the bytes currently handed out.
    pub live: Ghost<Set<int>>,
    /// Ghost: the bytes sacrificed in front of aligned allocations.
    pub lost: Ghost<Set<int>>,
}

impl Allocator {
    /// Bytes ever fed to the allocator.
    pub open spec fn fed(self) -> Set<int> {
        self.fed@
    }

    /// Bytes currently free on the chain.
    pub open spec fn free(self) -> Set<int> {
        chain_set(self.head@)
    }

    /// Bytes currently handed out.
    pub open spec fn live(self) -> Set<int> {
        self.live@
    }

    /// Bytes skipped for alignment and kept back.
    pub open spec fn lost(self) -> Set<int> {
        self.lost@
    }

    /// Structural invariants of the chain.
    pub open spec fn wf_regions(self) -> bool {
        &&& forall|i: int| 0 <= i < self.head@.len() ==> (#[trigger] self.head@[i]).wf()
        &&& forall|i: int, j: int|
            0 <= i < self.head@.len() && 0 <= j < self.head@.len() && i != j ==> (
            #[trigger] self.head@[i]).addr + self.head@[i].size <= (#[trigger] self.head@[j]).addr
                || self.head@[j].addr + self.head@[j].size <= self.head@[i].addr
    }

    /// The whole invariant: the chain is well-formed, and the free, live
    /// and lost bytes partition exactly the bytes ever fed.
    pub open spec fn wf(self) -> bool {
        &&& self.wf_regions()
        &&& forall|u: int| #[trigger] self.fed@.contains(u) ==> 0 <= u <= usize::MAX
        &&& forall|u: int|
            #[trigger] self.fed@.contains(u) <==> chain_covers(self.head@, u)
                || self.live@.contains(u) || self.lost@.contains(u)
        &&& forall|u: int| #[trigger] chain_covers(self.head@, u) ==> !self.live@.contains(u)
            && !self.lost@.contains(u)
        &&& forall|u: int| #[trigger] self.live@.contains(u) ==> !self.lost@.contains(u)
    }

    /// Create an empty allocator: no chain, nothing fed.
    pub fn new() -> (r: Allocator)
        ensures
            r.wf(),
            r.head@ == Seq::<Node>::empty(),
            r.fed() == Set::<int>::empty(),
            r.live() == Set::<int>::empty(),
            r.lost() == Set::<int>::empty(),
    {
        let r = Allocator {
            head: Vec::new(),
            fed: Ghost(Set::empty()),
            live: Ghost(Set::empty()),
            lost: Ghost(Set::empty()),
        };
        r
    }

    /// Chain a region whose bytes are known to be in `fed` and neither
    /// free, live nor lost. This is the raw list operation; feeding and
    /// freeing wrap it.
    fn add_free_region(&mut self, addr: usize, size: usize)
        requires
            old(self).wf_regions(),
            addr as int % NODE_ALIGN as int == 0,
            size >= NODE_SIZE,
            addr + size <= usize::MAX,
            forall|u: int| addr <= u < addr + size ==> !#[trigger] chain_covers(
                old(self).head@,
                u,
            ),
        ensures
            final(self).wf_regions(),
            final(self).head@ == old(self).head@.insert(0, Node { size, addr }),
            final(self).fed@ == old(self).fed@,
            final(self).live@ == old(self).live@,
            final(self).lost@ == old(self).lost@,
            forall|u: int| #[trigger] chain_covers(final(self).head@, u) <==> chain_covers(
                old(self).head@,
                u,
            ) || (addr <= u < addr + size),
    {
        let ghost rs0 = self.head@;
        let node = Node { size, addr };
        self.head.insert(0, node);
        proof {
            let rs1 = self.head@;
            assert(rs1 == rs0.insert(0, node));
            assert(rs1[0] == node);
            assert(forall|i: int| 1 <= i < rs1.len() ==> rs1[i] == rs0[i - 1]);
            assert forall|u: int| #[trigger] chain_covers(rs1, u) implies chain_covers(rs0, u) || (
            addr <= u < addr + size) by {
                let i = choose|i: int|
                    0 <= i < rs1.len() && (#[trigger] rs1[i]).addr <= u < rs1[i].addr
                        + rs1[i].size;
                if i >= 1 {
                    assert(rs0[i - 1].addr <= u < rs0[i - 1].addr + rs0[i - 1].size);
                }
            }
            assert forall|u: int| chain_covers(rs0, u) || (addr <= u < addr + size) implies
                #[trigger] chain_covers(rs1, u) by {
                if chain_covers(rs0, u) {
                    let i = choose|i: int|
                        0 <= i < rs0.len() && (#[trigger] rs0[i]).addr <= u < rs0[i].addr
                            + rs0[i].size;
                    assert((rs1[i + 1]).addr <= u < rs1[i + 1].addr + rs1[i + 1].size);
                } else {
                    assert((rs1[0]).addr <= u < rs1[0].addr + rs1[0].size);
                }
            }
            // the new region overlaps no old region
            assert forall|i: int, j: int|
                0 <= i < rs1.len() && 0 <= j < rs1.len() && i != j implies (
            #[trigger] rs1[i]).addr + rs1[i].size <= (#[trigger] rs1[j]).addr || rs1[j].addr
                + rs1[j].size <= rs1[i].addr by {
                if i >= 1 && j >= 1 {
                    assert(rs1[i] == rs0[i - 1] && rs1[j] == rs0[j - 1]);
                } else {
                    let oi = if i == 0 {
                        j
                    } else {
                        i
                    };
                    let o = rs1[oi];
                    assert(o == rs0[oi - 1]);
                    assert(o.wf());
                    if !(node.addr + node.size <= o.addr || o.addr + o.size <= node.addr) {
                        let w = if o.addr >= node.addr {
                            o.addr as int
                        } else {
                            node.addr as int
                        };
                        assert(o.addr <= w < o.addr + o.size);
                        assert(chain_covers(rs0, w));
                        assert(addr <= w < addr + size);
                    }
                }
            }
        }
    }

    /// Feed the byte range `[heap_start, heap_start + heap_size)` to the
    /// allocator as one free region. The range must be new, word-aligned,
    /// and large enough to hold a region header.
    pub fn init(&mut self, heap_start: usize, heap_size: usize)
        requires
            old(self).wf(),
            heap_start as int % NODE_ALIGN as int == 0,
            heap_size >= NODE_SIZE,
            heap_start + heap_size <= usize::MAX,
            range_set(heap_start as int, heap_start + heap_size).disjoint(old(self).fed()),
        ensures
            final(self).wf(),
            final(self).head@ == old(self).head@.insert(
                0,
                Node { size: heap_size, addr: heap_start },
            ),
            final(self).fed() == old(self).fed() + range_set(
                heap_start as int,
                heap_start + heap_size,
            ),
            final(self).live() == old(self).live(),
            final(self).lost() == old(self).lost(),
            forall|u: int| #[trigger] chain_covers(final(self).head@, u) <==> chain_covers(
                old(self).head@,
                u,
            ) || (heap_start <= u < heap_start + heap_size),
    {
        proof {
            assert forall|u: int| heap_start <= u < heap_start + heap_size implies !old(
                self,
            ).fed@.contains(u) by {
                if old(self).fed@.contains(u) {
                    assert(range_set(heap_start as int, heap_start + heap_size).contains(u));
                }
            }
        }
        self.fed = Ghost(self.fed@ + range_set(heap_start as int, heap_start as int + heap_size));
        proof {
            assert forall|u: int|
                heap_start <= u < heap_start + heap_size implies !#[trigger] chain_covers(
                self.head@,
                u,
            ) && !self.live@.contains(u) && !self.lost@.contains(u) by {
                if chain_covers(self.head@, u) || self.live@.contains(u) || self.lost@.contains(
                    u,
                ) {
                    assert(old(self).fed@.contains(u));
                }
            }
        }
        let ghost rs0 = self.head@;
        self.add_free_region(heap_start, heap_size);
        proof {
            let ghost lo = heap_start as int;
            let ghost hi = heap_start as int + heap_size;
            assert forall|u: int| #[trigger] self.fed@.contains(u) implies chain_covers(
                self.head@,
                u,
            ) || self.live@.contains(u) || self.lost@.contains(u) by {
                if old(self).fed@.contains(u) {
                    if chain_covers(rs0, u) {
                        assert(chain_covers(self.head@, u));
                    }
                } else {
                    assert(range_set(lo, hi).contains(u));
                    assert(chain_covers(self.head@, u));
                }
            }
            assert forall|u: int|
                chain_covers(self.head@, u) || self.live@.contains(u) || self.lost@.contains(
                    u,
                ) implies #[trigger] self.fed@.contains(u) by {
                if chain_covers(self.head@, u) {
                    if chain_covers(rs0, u) {
                        assert(old(self).fed@.contains(u));
                    } else {
                        assert(lo <= u < hi);
                        assert(range_set(lo, hi).contains(u));
                    }
                }
            }
            assert forall|u: int| #[trigger] chain_covers(self.head@, u) implies !self.live@.contains(
                u,
            ) && !self.lost@.contains(u) by {
                if chain_covers(rs0, u) {
                } else {
                    assert(lo <= u < hi);
                }
            }
            assert(final(self).fed() =~= old(self).fed() + range_set(lo, hi));
        }
    }

    /// The adjusted request for a layout: the alignment raised to at least
    /// a header's alignment, the size rounded up to that alignment and to
    /// at least a header's size.
    pub fn size_align(layout: Layout) -> (r: (usize, usize))
        requires
            layout.wf(),
            layout.size + list_align(layout) <= usize::MAX,
        ensures
            r.0 == list_size(layout),
            r.1 == list_align(layout),
    {
        let a = if layout.align > NODE_ALIGN {
            layout.align
        } else {
            NODE_ALIGN
        };
        let rem = layout.size % a;
        let rounded = if rem == 0 {
            layout.size
        } else {
            layout.size + (a - rem)
        };
        proof {
            lemma_align_up(layout.size as int, a as int);
        }
        let size = if rounded > NODE_SIZE {
            rounded
        } else {
            NODE_SIZE
        };
        (size, a)
    }

    /// Whether and where a request fits in one region: the aligned start,
    /// or a refusal when the region is too small or would leave a trailing
    /// sliver that cannot hold a header.
    pub fn alloc_from_region(region: &Node, size: usize, align: usize) -> (r: Result<usize, ()>)
        requires
            region.wf(),
            align >= 1,
        ensures
            r is Ok <==> region_fits(*region, size as int, align as int),
            r matches Ok(s) ==> s == spec_align_up(region.addr as int, align as int),
    {
        proof {
            lemma_align_up(region.addr as int, align as int);
        }
        let rem = region.addr % align;
        let start: usize;
        if rem == 0 {
            start = region.addr;
        } else {
            if region.addr > usize::MAX - (align - rem) {
                // the aligned start itself lies past the address space
                return Err(());
            }
            start = region.addr + (align - rem);
        }
        let end = region.addr + region.size;
        if start > end {
            return Err(());
        }
        if size > end - start {
            return Err(());
        }
        let excess = (end - start) - size;
        if excess > 0 && excess < NODE_SIZE {
            return Err(());
        }
        Ok(start)
    }

    /// Walk the chain and unlink the first region that fits the request,
    /// returning it with the aligned start address.
    pub fn find_region(&mut self, size: usize, align: usize) -> (r: Option<(Node, usize)>)
        requires
            old(self).wf_regions(),
            align >= 1,
        ensures
            final(self).wf_regions(),
            final(self).fed@ == old(self).fed@,
            final(self).live@ == old(self).live@,
            final(self).lost@ == old(self).lost@,
            r is None ==> *final(self) == *old(self) && forall|i: int|
                0 <= i < old(self).head@.len() ==> !region_fits(
                    #[trigger] old(self).head@[i],
                    size as int,
                    align as int,
                ),
            r matches Some((node, start)) ==> exists|i: int|
                {
                    &&& 0 <= i < old(self).head@.len()
                    &&& #[trigger] old(self).head@[i] == node
                    &&& region_fits(node, size as int, align as int)
                    &&& forall|j: int| 0 <= j < i ==> !region_fits(
                        #[trigger] old(self).head@[j],
                        size as int,
                        align as int,
                    )
                    &&& final(self).head@ == old(self).head@.remove(i)
                    &&& start == spec_align_up(node.addr as int, align as int)
                } && node.wf() && (forall|u: int| #[trigger] chain_covers(final(self).head@, u)
                <==> chain_covers(old(self).head@, u) && !(node.addr <= u < node.addr
                + node.size)),
    {
        let ghost rs0 = self.head@;
        let n = self.head.len();
        let mut i: usize = 0;
        while i < n
            invariant
                *self == *old(self),
                self.wf_regions(),
                rs0 == self.head@,
                n == rs0.len(),
                i <= n,
                align >= 1,
                forall|j: int| 0 <= j < i ==> !region_fits(#[trigger] rs0[j], size as int, align as int),
            decreases n - i,
        {
            let node = self.head[i];
            match Self::alloc_from_region(&node, size, align) {
                Ok(start) => {
                    let taken = self.head.remove(i);
                    proof {
                        let rs1 = self.head@;
                        assert(taken == node);
                        assert(rs1 == rs0.remove(i as int));
                        assert(forall|j: int| 0 <= j < i ==> rs1[j] == rs0[j]);
                        assert(forall|j: int|
                            i <= j < rs1.len() ==> rs1[j] == rs0[j + 1]);
                        assert forall|a2: int, b2: int|
                            0 <= a2 < rs1.len() && 0 <= b2 < rs1.len() && a2 != b2 implies (
                        #[trigger] rs1[a2]).addr + rs1[a2].size <= (#[trigger] rs1[b2]).addr
                            || rs1[b2].addr + rs1[b2].size <= rs1[a2].addr by {
                            let oa = if a2 < i {
                                a2
                            } else {
                                a2 + 1
                            };
                            let ob = if b2 < i {
                                b2
                            } else {
                                b2 + 1
                            };
                            assert(rs1[a2] == rs0[oa] && rs1[b2] == rs0[ob]);
                        }
                        assert forall|u: int| #[trigger] chain_covers(rs1, u) implies chain_covers(
                            rs0,
                            u,
                        ) && !(node.addr <= u < node.addr + node.size) by {
                            let j = choose|j: int|
                                0 <= j < rs1.len() && (#[trigger] rs1[j]).addr <= u < rs1[j].addr
                                    + rs1[j].size;
                            let oj = if j < i {
                                j
                            } else {
                                j + 1
                            };
                            assert(rs1[j] == rs0[oj]);
                            assert(rs0[oj].addr <= u < rs0[oj].addr + rs0[oj].size);
                            if node.addr <= u < node.addr + node.size {
                                assert(oj != i);
                                assert(rs0[oj].addr + rs0[oj].size <= rs0[i as int].addr
                                    || rs0[i as int].addr + rs0[i as int].size <= rs0[oj].addr);
                            }
                        }
                        assert forall|u: int|
                            chain_covers(rs0, u) && !(node.addr <= u < node.addr + node.size)
                            implies #[trigger] chain_covers(rs1, u) by {
                            let j = choose|j: int|
                                0 <= j < rs0.len() && (#[trigger] rs0[j]).addr <= u < rs0[j].addr
                                    + rs0[j].size;
                            assert(j != i);
                            if j < i {
                                assert(rs1[j] == rs0[j]);
                                assert(rs1[j].addr <= u < rs1[j].addr + rs1[j].size);
                            } else {
                                assert(rs1[j - 1] == rs0[j]);
                                assert(rs1[j - 1].addr <= u < rs1[j - 1].addr + rs1[j - 1].size);
                            }
                        }
                    }
                    return Some((taken, start));
                },
                Err(_) => {
                    i = i + 1;
                },
            }
        }
        None
    }

    /// Serve a request: adjust the layout, take the first region of the
    /// chain that fits, keep back the bytes skipped for alignment, and
    /// return any trailing excess to the chain. Returns the aligned start
    /// address, or nothing when no region fits.
    pub fn allocate(&mut self, layout: Layout) -> (r: Option<usize>)
        requires
            old(self).wf(),
            layout.wf(),
            layout.size + list_align(layout) <= usize::MAX,
        ensures
            final(self).wf(),
            final(self).fed() == old(self).fed(),
            r is None ==> *final(self) == *old(self) && forall|i: int|
                0 <= i < old(self).head@.len() ==> !region_fits(
                    #[trigger] old(self).head@[i],
                    list_size(layout),
                    list_align(layout) as int,
                ),
            r matches Some(p) ==> p as nat % list_align(layout) as nat == 0 && exists|i: int|
                {
                    &&& 0 <= i < old(self).head@.len()
                    &&& region_fits(#[trigger] old(self).head@[i], list_size(layout), list_align(layout) as int)
                    &&& forall|j: int| 0 <= j < i ==> !region_fits(
                        #[trigger] old(self).head@[j],
                        list_size(layout),
                        list_align(layout) as int,
                    )
                    &&& p == spec_align_up(old(self).head@[i].addr as int, list_align(layout) as int)
                    &&& final(self).free() == old(self).free() - range_set(
                        old(self).head@[i].addr as int,
                        p + list_size(layout),
                    )
                    &&& final(self).live() == old(self).live() + range_set(
                        p as int,
                        p + list_size(layout),
                    )
                    &&& final(self).lost() == old(self).lost() + range_set(
                        old(self).head@[i].addr as int,
                        p as int,
                    )
                    &&& {
                        let alloc_end = p + list_size(layout);
                        let rest = old(self).head@[i].addr + old(self).head@[i].size - alloc_end;
                        if rest == 0 {
                            final(self).head@ == old(self).head@.remove(i)
                        } else {
                            &&& final(self).head@.len() == old(self).head@.len()
                            &&& final(self).head@[0].addr == alloc_end
                            &&& final(self).head@[0].size == rest
                            &&& forall|q: int|
                                1 <= q < final(self).head@.len() ==> final(self).head@[q] == old(
                                    self,
                                ).head@.remove(i)[q - 1]
                        }
                    }
                },
    {
        let (lsize, lalign) = Self::size_align(layout);
        let ghost rs0 = self.head@;
        match self.find_region(lsize, lalign) {
            None => None,
            Some((node, start)) => {
                proof {
                    lemma_align_up(node.addr as int, lalign as int);
                }
                let alloc_end = start + lsize;
                let end = node.addr + node.size;
                let excess = end - alloc_end;
                let ghost i = choose|i: int|
                    {
                        &&& 0 <= i < rs0.len()
                        &&& #[trigger] rs0[i] == node
                        &&& region_fits(node, lsize as int, lalign as int)
                        &&& forall|j: int| 0 <= j < i ==> !region_fits(
                            #[trigger] rs0[j],
                            lsize as int,
                            lalign as int,
                        )
                        &&& self.head@ == rs0.remove(i)
                        &&& start == spec_align_up(node.addr as int, lalign as int)
                    };
                self.live = Ghost(self.live@ + range_set(start as int, alloc_end as int));
                self.lost = Ghost(self.lost@ + range_set(node.addr as int, start as int));
                let ghost rs1 = self.head@;
                proof {
                    // region bytes were fed and neither live nor lost
                    assert forall|u: int| node.addr <= u < end implies #[trigger] old(
                        self,
                    ).fed@.contains(u) && !old(self).live@.contains(u) && !old(
                        self,
                    ).lost@.contains(u) by {
                        assert(chain_covers(rs0, u)) by {
                            assert((rs0[i]).addr <= u < rs0[i].addr + rs0[i].size);
                        }
                    }
                }
                if excess > 0 {
                    proof {
                        // the trailing excess is word-aligned and header-sized
                        lemma_list_size_aligned(layout);
                        lemma_word_divides_align(layout);
                        lemma_align_to_word(start as int, lalign as int);
                        lemma_word_aligned_add(start as int, lsize as int);
                        assert forall|u: int|
                            alloc_end <= u < alloc_end + excess implies !#[trigger] chain_covers(
                            self.head@,
                            u,
                        ) by {
                            if chain_covers(rs1, u) {
                                assert(node.addr <= u < node.addr + node.size);
                            }
                        }
                        assert(range_set(alloc_end as int, alloc_end as int + excess)
                            <= self.fed@) by {
                            assert forall|u: int|
                                range_set(alloc_end as int, alloc_end as int + excess).contains(
                                    u,
                                ) implies self.fed@.contains(u) by {
                                assert(node.addr <= u < end);
                            }
                        }
                    }
                    self.add_free_region(alloc_end, excess);
                }
                proof {
                    let rs2 = self.head@;
                    // coverage after the split: the region is gone, the tail is back
                    assert forall|u: int| #[trigger] chain_covers(rs2, u) <==> (chain_covers(
                        rs0,
                        u,
                    ) && !(node.addr <= u < end)) || (alloc_end <= u < end) by {
                        if excess > 0 {
                        } else {
                            assert(rs2 == rs1);
                        }
                    }
                    // conservation
                    assert forall|u: int| #[trigger] self.fed@.contains(u) implies chain_covers(
                        rs2,
                        u,
                    ) || self.live@.contains(u) || self.lost@.contains(u) by {
                        if chain_covers(rs0, u) {
                            if node.addr <= u < end {
                                if u < start {
                                    assert(range_set(node.addr as int, start as int).contains(u));
                                } else if u < alloc_end {
                                    assert(range_set(start as int, alloc_end as int).contains(u));
                                } else {
                                    assert(alloc_end <= u < end);
                                }
                            }
                        }
                    }
                    assert forall|u: int|
                        chain_covers(rs2, u) || self.live@.contains(u) || self.lost@.contains(
                            u,
                        ) implies #[trigger] self.fed@.contains(u) by {
                        if chain_covers(rs2, u) {
                            if alloc_end <= u < end {
                                assert(node.addr <= u < end);
                                assert(chain_covers(rs0, u)) by {
                                    assert((rs0[i]).addr <= u < rs0[i].addr + rs0[i].size);
                                }
                            }
                        } else if self.live@.contains(u) {
                            if !old(self).live@.contains(u) {
                                assert(range_set(start as int, alloc_end as int).contains(u));
                                assert(node.addr <= u < end);
                                assert(chain_covers(rs0, u)) by {
                                    assert((rs0[i]).addr <= u < rs0[i].addr + rs0[i].size);
                                }
                            }
                        } else {
                            if !old(self).lost@.contains(u) {
                                assert(range_set(node.addr as int, start as int).contains(u));
                                assert(node.addr <= u < end);
                                assert(chain_covers(rs0, u)) by {
                                    assert((rs0[i]).addr <= u < rs0[i].addr + rs0[i].size);
                                }
                            }
                        }
                    }
                    assert forall|u: int| #[trigger] chain_covers(rs2, u) implies !self.live@.contains(
                        u,
                    ) && !self.lost@.contains(u) by {
                        if chain_covers(rs0, u) && !(node.addr <= u < end) {
                            if self.live@.contains(u) && !old(self).live@.contains(u) {
                                assert(range_set(start as int, alloc_end as int).contains(u));
                            }
                            if self.lost@.contains(u) && !old(self).lost@.contains(u) {
                                assert(range_set(node.addr as int, start as int).contains(u));
                            }
                        } else {
                            assert(alloc_end <= u < end);
                            if self.live@.contains(u) {
                                if old(self).live@.contains(u) {
                                    assert(chain_covers(rs0, u)) by {
                                        assert((rs0[i]).addr <= u < rs0[i].addr + rs0[i].size);
                                    }
                                } else {
                                    assert(range_set(start as int, alloc_end as int).contains(u));
                                }
                            }
                            if self.lost@.contains(u) {
                                if old(self).lost@.contains(u) {
                                    assert(chain_covers(rs0, u)) by {
                                        assert((rs0[i]).addr <= u < rs0[i].addr + rs0[i].size);
                                    }
                                } else {
                                    assert(range_set(node.addr as int, start as int).contains(u));
                                }
                            }
                        }
                    }
                    assert forall|u: int| #[trigger] self.live@.contains(u) implies !self.lost@.contains(
                        u,
                    ) by {
                        if old(self).live@.contains(u) {
                            if !old(self).lost@.contains(u) && self.lost@.contains(u) {
                                assert(range_set(node.addr as int, start as int).contains(u));
                                assert(chain_covers(rs0, u)) by {
                                    assert((rs0[i]).addr <= u < rs0[i].addr + rs0[i].size);
                                }
                            }
                        } else {
                            assert(range_set(start as int, alloc_end as int).contains(u));
                            if old(self).lost@.contains(u) {
                                assert(chain_covers(rs0, u)) by {
                                    assert((rs0[i]).addr <= u < rs0[i].addr + rs0[i].size);
                                }
                                assert(false);
                            }
                            if self.lost@.contains(u) && !old(self).lost@.contains(u) {
                                assert(range_set(node.addr as int, start as int).contains(u));
                            }
                        }
                    }
                    // the returned start is aligned
                    assert(start as nat % list_align(layout) as nat == 0) by {
                        lemma_align_up(node.addr as int, lalign as int);
                    }
                    // set-level evolution
                    assert(final(self).free() =~= old(self).free() - range_set(
                        node.addr as int,
                        alloc_end as int,
                    )) by {
                        assert forall|u: int|
                            final(self).free().contains(u) <==> old(self).free().contains(u) && !(
                            node.addr <= u < alloc_end) by {
                            if chain_covers(rs0, u) && (alloc_end <= u < end) {
                            }
                        }
                    }
                    assert(final(self).live() =~= old(self).live() + range_set(
                        start as int,
                        alloc_end as int,
                    ));
                    assert(final(self).lost() =~= old(self).lost() + range_set(
                        node.addr as int,
                        start as int,
                    ));
                }
                Some(start)
            },
        }
    }

    /// Return the block at `ptr` carved out for `layout` to the chain. The
    /// pair must be exactly one returned by a matching `allocate`.
    pub fn dealloc(&mut self, ptr: usize, layout: Layout)
        requires
            old(self).wf(),
            layout.wf(),
            layout.size + list_align(layout) <= usize::MAX,
            ptr as int % NODE_ALIGN as int == 0,
            ptr + list_size(layout) <= usize::MAX,
            range_set(ptr as int, ptr + list_size(layout)) <= old(self).live(),
        ensures
            final(self).wf(),
            final(self).fed() == old(self).fed(),
            final(self).head@.len() == old(self).head@.len() + 1,
            final(self).head@[0].addr == ptr,
            final(self).head@[0].size == list_size(layout),
            forall|i: int| 1 <= i < final(self).head@.len() ==> final(self).head@[i] == old(
                self,
            ).head@[i - 1],
            final(self).free() == old(self).free() + range_set(
                ptr as int,
                ptr + list_size(layout),
            ),
            final(self).live() == old(self).live() - range_set(
                ptr as int,
                ptr + list_size(layout),
            ),
            final(self).lost() == old(self).lost(),
    {
        let (lsize, _) = Self::size_align(layout);
        let ghost lo = ptr as int;
        let ghost hi = ptr as int + lsize;
        proof {
            assert(range_set(lo, hi).contains(hi - 1));
            assert(old(self).live@.contains(hi - 1));
            assert(old(self).fed@.contains(hi - 1));
            assert forall|u: int| lo <= u < hi implies !#[trigger] chain_covers(
                self.head@,
                u,
            ) by {
                assert(range_set(lo, hi).contains(u));
                assert(self.live@.contains(u));
                if chain_covers(self.head@, u) {
                }
            }
        }
        self.live = Ghost(self.live@ - range_set(lo, hi));
        let ghost rs0 = self.head@;
        self.add_free_region(ptr, lsize);
        proof {
            assert forall|u: int| #[trigger] self.fed@.contains(u) implies chain_covers(
                self.head@,
                u,
            ) || self.live@.contains(u) || self.lost@.contains(u) by {
                if old(self).live@.contains(u) && !self.live@.contains(u) {
                    assert(range_set(lo, hi).contains(u));
                    assert(chain_covers(self.head@, u));
                }
            }
            assert forall|u: int| #[trigger] chain_covers(self.head@, u) implies !self.live@.contains(
                u,
            ) && !self.lost@.contains(u) by {
                if chain_covers(rs0, u) {
                    assert(!old(self).live@.contains(u) && !old(self).lost@.contains(u));
                } else {
                    assert(lo <= u < hi);
                    assert(old(self).live@.contains(u));
                    assert(!old(self).lost@.contains(u));
                    assert(!self.live@.contains(u));
                }
            }
            assert(final(self).free() =~= old(self).free() + range_set(lo, hi));
            assert(final(self).live() =~= old(self).live() - range_set(lo, hi));
        }
    }
}

/// The alignment actually used for a layout: at least a header's alignment.
pub open spec fn list_align(l: Layout) -> usize {
    if l.align > NODE_ALIGN {
        l.align
    } else {
        NODE_ALIGN
    }
}

/// The size actually carved out for a layout: rounded to the alignment and
/// to at least a header.
pub open spec fn list_size(l: Layout) -> int {
    let r = spec_align_up(l.size as int, list_align(l) as int);
    if r > NODE_SIZE {
        r
    } else {
        NODE_SIZE as int
    }
}

/// The adjusted size is a multiple of the word size.
proof fn lemma_list_size_aligned(l: Layout)
    requires
        l.wf(),
    ensures
        list_size(l) % NODE_ALIGN as int == 0,
{
    let la = list_align(l) as int;
    lemma_align_up(l.size as int, la);
    let r = spec_align_up(l.size as int, la);
    if r > NODE_SIZE {
        lemma_word_divides_align(l);
        let q = r / la;
        lemma_fundamental_div_mod(r, la);
        assert(r == la * q);
        let w = NODE_ALIGN as int;
        let c = la / w;
        lemma_fundamental_div_mod(la, w);
        assert(la == w * c);
        assert(r == w * (c * q)) by (nonlinear_arith)
            requires
                r == la * q,
                la == w * c,
        ;
        lemma_mod_multiples_basic(c * q, w);
        assert((w * (c * q)) % w == ((c * q) * w) % w) by (nonlinear_arith);
    }
}

/// The word size divides the adjusted alignment.
proof fn lemma_word_divides_align(l: Layout)
    requires
        l.wf(),
    ensures
        list_align(l) as int % NODE_ALIGN as int == 0,
{
    if l.align > NODE_ALIGN {
        let j = choose|j: nat| j < 64 && #[trigger] pow2(j) == l.align as nat;
        lemma2_to64();
        if j < 3 {
            crate::power::lemma_pow2_le(j, 2);
            assert(false);
        }
        crate::power::lemma_pow2_mod_down(l.align as nat, j, 3);
    } else {
        lemma_mod_multiples_basic(1, NODE_ALIGN as int);
    }
}

/// An aligned start stays word-aligned: the alignment is a multiple of the
/// word size.
proof fn lemma_align_to_word(start: int, la: int)
    requires
        la >= NODE_ALIGN,
        la % NODE_ALIGN as int == 0,
        start >= 0,
        start % la == 0,
    ensures
        start % NODE_ALIGN as int == 0,
{
    let w = NODE_ALIGN as int;
    lemma_fundamental_div_mod(start, la);
    lemma_fundamental_div_mod(la, w);
    let q = start / la;
    let c = la / w;
    assert(start == (c * q) * w) by (nonlinear_arith)
        requires
            start == la * q,
            la == w * c,
    ;
    lemma_mod_multiples_basic(c * q, w);
}

/// Word alignment is preserved by addition.
proof fn lemma_word_aligned_add(a: int, b: int)
    requires
        a >= 0,
        b >= 0,
        a % NODE_ALIGN as int == 0,
        b % NODE_ALIGN as int == 0,
    ensures
        (a + b) % NODE_ALIGN as int == 0,
{
    let w = NODE_ALIGN as int;
    lemma_fundamental_div_mod(a, w);
    lemma_fundamental_div_mod(b, w);
    let qa = a / w;
    let qb = b / w;
    assert(a + b == (qa + qb) * w) by (nonlinear_arith)
        requires
            a == w * qa,
            b == w * qb,
    ;
    lemma_mod_multiples_basic(qa + qb, w);
}

} // verus!
