//! Powers of two: order (log2) computations shared by the buddy allocators.
//!
//! A buddy allocator works with block sizes `1 << k`; the functions here
//! compute the order `k` for a requested size or address and prove the
//! arithmetic facts (divisibility, parity of buddies) that the allocator
//! invariants rest on.
use vstd::prelude::*;

verus! {

use vstd::arithmetic::power2::{
    pow2,
    lemma_pow2_adds,
    lemma_pow2_strictly_increases,
    lemma_pow2_unfold,
    lemma_pow2_pos,
    lemma2_to64,
    lemma2_to64_rest,
};
use vstd::arithmetic::div_mod::{
    lemma_fundamental_div_mod,
    lemma_mod_multiples_basic,
    lemma_mod_multiples_vanish,
    lemma_small_mod,
};

/// The least `k` with `n <= pow2(k)`, for `n >= 1`; `clog2(0) == 0`.
pub open spec fn clog2(n: nat) -> nat
    decreases n,
{
    if n <= 1 {
        0
    } else {
        1 + clog2((n + 1) / 2)
    }
}

/// `pow2` is monotone.
pub proof fn lemma_pow2_le(e1: nat, e2: nat)
    requires
        e1 <= e2,
    ensures
        pow2(e1) <= pow2(e2),
{
    if e1 < e2 {
        lemma_pow2_strictly_increases(e1, e2);
    }
}

/// `clog2(n)` rounds up: `pow2` of it reaches `n`, and no smaller order does.
pub proof fn lemma_clog2(n: nat)
    requires
        1 <= n,
    ensures
        n <= pow2(clog2(n)),
        n >= 2 ==> clog2(n) >= 1 && pow2((clog2(n) - 1) as nat) < n,
    decreases n,
{
    lemma2_to64();
    if n >= 2 {
        let m = (n + 1) / 2;
        lemma_clog2(m);
        lemma_pow2_unfold(clog2(n));
        if m >= 2 {
            lemma_pow2_unfold(clog2(m));
        }
    }
}

/// Minimality of `clog2`: any order whose power reaches `n` is at least `clog2(n)`.
pub proof fn lemma_clog2_le(n: nat, k: nat)
    requires
        1 <= n,
        n <= pow2(k),
    ensures
        clog2(n) <= k,
    decreases n,
{
    lemma2_to64();
    if n >= 2 {
        // pow2(0) == 1 < n, so k >= 1 here.
        let m = (n + 1) / 2;
        lemma_pow2_unfold(k);
        lemma_clog2_le(m, (k - 1) as nat);
    }
}

/// A multiple of a larger power of two is a multiple of a smaller one.
pub proof fn lemma_pow2_mod_down(a: nat, k1: nat, k2: nat)
    requires
        k2 <= k1,
        a % pow2(k1) == 0,
    ensures
        a % pow2(k2) == 0,
{
    lemma_pow2_pos(k1);
    lemma_pow2_pos(k2);
    lemma_pow2_adds(k2, (k1 - k2) as nat);
    lemma_fundamental_div_mod(a as int, pow2(k1) as int);
    let q = a as int / pow2(k1) as int;
    assert(a as int == (q * pow2((k1 - k2) as nat)) * pow2(k2)) by (nonlinear_arith)
        requires
            a as int == pow2(k1) as int * q,
            pow2(k1) == pow2(k2) * pow2((k1 - k2) as nat),
    ;
    lemma_mod_multiples_basic(q * pow2((k1 - k2) as nat) as int, pow2(k2) as int);
}

/// A block aligned to order `k` sits at an even or an odd position among
/// order-`k` blocks: modulo the next order it is at offset `0` or `pow2(k)`.
pub proof fn lemma_buddy_parity(a: nat, k: nat)
    requires
        a % pow2(k) == 0,
    ensures
        a % pow2(k + 1) == 0 || a % pow2(k + 1) == pow2(k),
{
    let m = pow2(k) as int;
    lemma_pow2_pos(k);
    lemma_pow2_unfold(k + 1);
    lemma_fundamental_div_mod(a as int, m);
    let q = a as int / m;
    if q % 2 == 0 {
        lemma_fundamental_div_mod(q, 2);
        let r = q / 2;
        assert(a as int == (2 * m) * r) by (nonlinear_arith)
            requires
                a as int == m * q,
                q == 2 * r,
        ;
        lemma_mod_multiples_basic(r, 2 * m);
        assert(a % pow2(k + 1) == 0);
    } else {
        lemma_fundamental_div_mod(q, 2);
        let r = q / 2;
        assert(a as int == (2 * m) * r + m) by (nonlinear_arith)
            requires
                a as int == m * q,
                q == 2 * r + 1,
        ;
        lemma_mod_multiples_vanish(r, m, 2 * m);
        lemma_small_mod(pow2(k), pow2(k + 1));
        assert(a % pow2(k + 1) == pow2(k));
    }
}

/// A block at odd position among order-`k` blocks sits `pow2(k)` above an
/// even boundary.
pub proof fn lemma_odd_buddy(a: nat, k: nat)
    requires
        a % pow2(k + 1) == pow2(k),
    ensures
        a >= pow2(k),
        ((a - pow2(k)) as nat) % pow2(k + 1) == 0,
{
    let m = pow2(k) as int;
    let m2 = pow2(k + 1) as int;
    lemma_pow2_pos(k);
    lemma_pow2_unfold(k + 1);
    lemma_fundamental_div_mod(a as int, m2);
    let q = a as int / m2;
    assert(q >= 0) by (nonlinear_arith)
        requires
            a as int == m2 * q + m,
            a >= 0,
            0 < m < m2,
    ;
    assert(a as int - m == m2 * q);
    assert(a as int - m >= 0) by (nonlinear_arith)
        requires
            a as int - m == m2 * q,
            q >= 0,
            m2 > 0,
    ;
    assert(m2 * q == q * m2) by (nonlinear_arith);
    assert((q * m2) % m2 == 0) by {
        lemma_mod_multiples_basic(q, m2);
    }
}

/// The upper buddy of an aligned block that itself fits in the address space
/// has a start address that fits in a machine word.
pub proof fn lemma_buddy_high_fits(a: nat, k: nat)
    requires
        a % pow2(k + 1) == 0,
        a + pow2(k) <= usize::MAX + 1,
        k + 1 <= 32,
    ensures
        a + pow2(k) <= usize::MAX,
{
    let m = pow2(k) as int;
    let m2 = pow2(k + 1) as int;
    lemma_pow2_pos(k);
    lemma_pow2_unfold(k + 1);
    if a + pow2(k) == usize::MAX + 1 {
        assert(usize::MAX == u32::MAX || usize::MAX == u64::MAX);
        lemma2_to64();
        lemma2_to64_rest();
        let b: nat = if usize::MAX == u32::MAX {
            32
        } else {
            64
        };
        assert(usize::MAX + 1 == pow2(b));
        // pow2(b) is a multiple of pow2(k + 1) ...
        lemma_pow2_adds(k + 1, (b - k - 1) as nat);
        assert(pow2(b) == pow2(k + 1) * pow2((b - k - 1) as nat));
        assert(pow2(b) as int == pow2((b - k - 1) as nat) as int * m2) by (nonlinear_arith)
            requires
                pow2(b) == pow2(k + 1) * pow2((b - k - 1) as nat),
                m2 == pow2(k + 1),
        ;
        lemma_mod_multiples_basic(pow2((b - k - 1) as nat) as int, m2);
        assert(pow2(b) % pow2(k + 1) == 0);
        // ... yet a + pow2(k) is pow2(k) past a multiple of pow2(k + 1)
        lemma_fundamental_div_mod(a as int, m2);
        let q = a as int / m2;
        assert(a as int + m == m2 * q + m);
        lemma_mod_multiples_vanish(q, m, m2);
        lemma_small_mod(pow2(k), pow2(k + 1));
        assert((a + pow2(k)) % pow2(k + 1) == pow2(k));
        assert(false);
    }
}

/// Adding a multiple of `pow2(k)` keeps alignment to `pow2(k)`.
pub proof fn lemma_aligned_add(a: nat, b: nat, k: nat)
    requires
        a % pow2(k) == 0,
        b % pow2(k) == 0,
    ensures
        (a + b) % pow2(k) == 0,
{
    let m = pow2(k) as int;
    lemma_pow2_pos(k);
    lemma_fundamental_div_mod(a as int, m);
    lemma_fundamental_div_mod(b as int, m);
    let qa = a as int / m;
    let qb = b as int / m;
    assert((a + b) as int == (qa + qb) * m) by (nonlinear_arith)
        requires
            a as int == m * qa,
            b as int == m * qb,
    ;
    lemma_mod_multiples_basic(qa + qb, m);
}

/// `pow2(k)` itself is aligned to order `k`.
pub proof fn lemma_pow2_self_aligned(k: nat)
    ensures
        pow2(k) % pow2(k) == 0,
{
    lemma_pow2_pos(k);
    lemma_mod_multiples_basic(1, pow2(k) as int);
}

/// The greatest order `k <= cap` to which `a` is aligned (`cap` for zero).
pub open spec fn align_order_spec(a: nat, cap: nat) -> nat
    decreases cap,
{
    if cap == 0 {
        0
    } else if a % pow2(cap) == 0 {
        cap
    } else {
        align_order_spec(a, (cap - 1) as nat)
    }
}

/// Any order that divides `a` while the next does not is the greatest one.
pub proof fn lemma_align_order_spec_char(a: nat, cap: nat, k: nat)
    requires
        k <= cap,
        a % pow2(k) == 0,
        k < cap ==> a % pow2(k + 1) != 0,
    ensures
        align_order_spec(a, cap) == k,
    decreases cap,
{
    if cap > 0 {
        if a % pow2(cap) == 0 {
            if k < cap {
                lemma_pow2_mod_down(a, cap, k + 1);
                assert(false);
            }
        } else {
            assert(k != cap);
            lemma_align_order_spec_char(a, (cap - 1) as nat, k);
        }
    }
}

/// The greatest order whose block size fits in `n` (`0` for `n < 2`).
pub open spec fn flog2_spec(n: nat) -> nat
    decreases n,
{
    if n < 2 {
        0
    } else {
        1 + flog2_spec(n / 2)
    }
}

/// `flog2_spec` rounds down: its power fits, the next does not.
pub proof fn lemma_flog2_bounds(n: nat)
    requires
        n >= 1,
    ensures
        pow2(flog2_spec(n)) <= n,
        n < pow2(flog2_spec(n) + 1),
    decreases n,
{
    lemma2_to64();
    if n >= 2 {
        lemma_flog2_bounds(n / 2);
        lemma_pow2_unfold(flog2_spec(n));
        lemma_pow2_unfold(flog2_spec(n) + 1);
    }
}

/// Any order whose power fits in `n` while the next does not is that order.
pub proof fn lemma_flog2_spec_char(n: nat, k: nat)
    requires
        pow2(k) <= n,
        n < pow2(k + 1),
    ensures
        flog2_spec(n) == k,
    decreases n,
{
    lemma2_to64();
    if n < 2 {
        if k > 0 {
            lemma_pow2_le(1, k);
            assert(false);
        }
    } else {
        if k == 0 {
            assert(n < pow2(1));
            assert(false);
        }
        lemma_pow2_unfold(k);
        lemma_pow2_unfold(k + 1);
        lemma_flog2_spec_char(n / 2, (k - 1) as nat);
    }
}

/// `n` is an exact power of two.
pub open spec fn power_of_two(n: nat) -> bool {
    exists|k: nat| k < 64 && #[trigger] pow2(k) == n
}

/// `clog2` inverts `pow2` exactly.
pub proof fn lemma_clog2_pow2(k: nat)
    requires
        k < 64,
    ensures
        clog2(pow2(k)) == k,
{
    lemma_pow2_pos(k);
    lemma_clog2(pow2(k));
    lemma_clog2_le(pow2(k), k);
    if clog2(pow2(k)) < k {
        // then pow2(k) <= pow2(clog2(pow2(k))) < pow2(k)
        lemma_pow2_strictly_increases(clog2(pow2(k)), k);
        lemma2_to64();
        if k >= 1 {
            lemma_pow2_le(clog2(pow2(k)), (k - 1) as nat);
        }
        assert(false);
    }
}

/// Decide whether a word is an exact power of two.
pub fn power_of_two_exec(n: usize) -> (r: bool)
    ensures
        r <==> power_of_two(n as nat),
{
    if n == 0 {
        proof {
            if power_of_two(0) {
                let k = choose|k: nat| k < 64 && #[trigger] pow2(k) == 0;
                lemma_pow2_pos(k);
            }
        }
        return false;
    }
    let mut p: usize = 1;
    let mut k: usize = 0;
    proof {
        lemma2_to64();
    }
    while p < n && p <= n / 2
        invariant
            1 <= n,
            p == pow2(k as nat),
            p <= n,
            k <= 64,
        decreases n - p,
    {
        proof {
            lemma_pow2_unfold((k + 1) as nat);
            lemma_pow2_pos(k as nat);
            if k >= 64 {
                lemma2_to64();
                lemma_pow2_le(64, k as nat);
                assert(false);
            }
        }
        p = p * 2;
        k = k + 1;
    }
    proof {
        if p == n {
            if k < 64 {
            } else {
                lemma2_to64();
                lemma_pow2_le(64, k as nat);
                assert(usize::MAX == u32::MAX || usize::MAX == u64::MAX);
                assert(false);
            }
            assert(k < 64 && pow2(k as nat) == n as nat);
        } else {
            // p < n yet doubling p would pass n: no power of two hits n
            assert(p < n && p > n / 2);
            if power_of_two(n as nat) {
                let j = choose|j: nat| j < 64 && #[trigger] pow2(j) == n as nat;
                if j <= k {
                    lemma_pow2_le(j, k as nat);
                    assert(false);
                } else {
                    lemma_pow2_le((k + 1) as nat, j);
                    lemma_pow2_unfold((k + 1) as nat);
                    assert(pow2(j) >= 2 * p);
                    assert(2 * p >= n + 1);
                    assert(false);
                }
            }
        }
    }
    p == n
}

/// Exact power of two for an order, as a machine word.
pub fn pow2_exec(k: usize) -> (r: usize)
    requires
        pow2(k as nat) <= usize::MAX,
    ensures
        r == pow2(k as nat),
{
    let mut r: usize = 1;
    let mut i: usize = 0;
    proof {
        lemma2_to64();
    }
    while i < k
        invariant
            i <= k,
            r == pow2(i as nat),
            pow2(k as nat) <= usize::MAX,
        decreases k - i,
    {
        proof {
            lemma_pow2_unfold((i + 1) as nat);
            lemma_pow2_le((i + 1) as nat, k as nat);
        }
        r = r * 2;
        i = i + 1;
    }
    r
}

/// The least order whose block size reaches `n`: returns `clog2(n)`.
pub fn ceil_log2(n: usize) -> (k: usize)
    requires
        1 <= n,
        2 * (n - 1) <= usize::MAX,
    ensures
        k == clog2(n as nat),
        n <= pow2(k as nat),
{
    let mut p: usize = 1;
    let mut k: usize = 0;
    proof {
        lemma2_to64();
    }
    while p < n
        invariant
            1 <= n,
            2 * (n - 1) <= usize::MAX,
            p == pow2(k as nat),
            k >= 1 ==> pow2((k - 1) as nat) < n,
            k <= 64,
        decreases 2 * n - p,
    {
        proof {
            lemma_pow2_unfold((k + 1) as nat);
            lemma_pow2_pos(k as nat);
            if k >= 64 {
                lemma2_to64();
                lemma_pow2_le(64, k as nat);
                assert(false);
            }
        }
        p = p * 2;
        k = k + 1;
    }
    proof {
        // p == pow2(k) >= n together with minimality pins k == clog2(n).
        lemma_clog2(n as nat);
        lemma_clog2_le(n as nat, k as nat);
        if clog2(n as nat) < k {
            // then pow2(k - 1) < n contradicts n <= pow2(clog2) <= pow2(k - 1)
            lemma_pow2_le(clog2(n as nat), (k - 1) as nat);
            assert(false);
        }
    }
    k
}

/// The greatest order whose block size fits in `n`: `pow2(k) <= n < pow2(k + 1)`.
pub fn floor_log2(n: usize) -> (k: usize)
    requires
        1 <= n,
    ensures
        pow2(k as nat) <= n,
        n < pow2((k + 1) as nat),
{
    let mut p: usize = 1;
    let mut k: usize = 0;
    proof {
        lemma2_to64();
    }
    while n / 2 >= p
        invariant
            1 <= n,
            p == pow2(k as nat),
            p <= n,
            k <= 64,
        decreases n - p,
    {
        proof {
            lemma_pow2_unfold((k + 1) as nat);
            lemma_pow2_pos(k as nat);
            if k >= 64 {
                lemma2_to64();
                lemma_pow2_le(64, k as nat);
                assert(false);
            }
        }
        p = p * 2;
        k = k + 1;
    }
    proof {
        lemma_pow2_unfold((k + 1) as nat);
    }
    k
}

/// The greatest order `k <= cap` to which `a` is aligned (`cap` for `a == 0`).
pub fn align_order(a: usize, cap: usize) -> (k: usize)
    requires
        pow2(cap as nat) <= usize::MAX,
    ensures
        k <= cap,
        a as nat % pow2(k as nat) == 0,
        k < cap ==> a as nat % pow2((k + 1) as nat) != 0,
{
    let mut k: usize = 0;
    let mut p: usize = 1;
    proof {
        lemma2_to64();
        assert(a as nat % pow2(0) == 0) by {
            lemma_mod_multiples_basic(a as int, 1);
        }
        if 0 < cap {
            lemma_pow2_unfold(1);
            lemma_pow2_le(1, cap as nat);
        }
    }
    while k < cap && a % (2 * p) == 0
        invariant
            pow2(cap as nat) <= usize::MAX,
            k <= cap,
            p >= 1,
            p == pow2(k as nat),
            a as nat % pow2(k as nat) == 0,
            k < cap ==> 2 * p == pow2((k + 1) as nat) && 2 * p <= usize::MAX,
        decreases cap - k,
    {
        proof {
            lemma_pow2_pos(k as nat);
        }
        p = p * 2;
        k = k + 1;
        proof {
            if k < cap {
                lemma_pow2_unfold((k + 1) as nat);
                lemma_pow2_le((k + 1) as nat, cap as nat);
            }
        }
    }
    k
}

} // verus!

