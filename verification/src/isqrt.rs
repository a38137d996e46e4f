//! Integer square roots: the spec-level floor of a square root, and a
//! verified binary-search implementation used by the Euclidean tour cost.

use vstd::prelude::*;

verus! {

/// The floor of the square root of `n`, defined by stepping `n` up from 0
/// and bumping the root whenever the next perfect square is reached.
pub open spec fn sqrt_floor(n: nat) -> nat
    decreases n,
{
    if n == 0 {
        0
    } else {
        let r = sqrt_floor((n - 1) as nat);
        if (r + 1) * (r + 1) <= n {
            r + 1
        } else {
            r
        }
    }
}

/// `sqrt_floor(n)` is bracketed by the two perfect squares around `n`.
pub proof fn lemma_sqrt_floor(n: nat)
    ensures
        sqrt_floor(n) * sqrt_floor(n) <= n,
        n < (sqrt_floor(n) + 1) * (sqrt_floor(n) + 1),
    decreases n,
{
    if n > 0 {
        let m = (n - 1) as nat;
        lemma_sqrt_floor(m);
        let r = sqrt_floor(m);
        assert(r * r <= m && m < (r + 1) * (r + 1));
        if (r + 1) * (r + 1) <= n {
            assert(sqrt_floor(n) == r + 1);
            assert(n <= (r + 1) * (r + 1));
            assert(n == (r + 1) * (r + 1));
            assert(((r + 1) + 1) * ((r + 1) + 1) > (r + 1) * (r + 1)) by (nonlinear_arith);
            assert(n < (sqrt_floor(n) + 1) * (sqrt_floor(n) + 1));
        } else {
            assert(sqrt_floor(n) == r);
            assert(r * r <= n);
            assert(n < (r + 1) * (r + 1));
            assert(n < (sqrt_floor(n) + 1) * (sqrt_floor(n) + 1));
        }
    } else {
        assert(sqrt_floor(n) == 0);
        assert(n < (sqrt_floor(n) + 1) * (sqrt_floor(n) + 1)) by (nonlinear_arith)
            requires
                n == 0,
                sqrt_floor(n) == 0,
        ;
    }
}

/// Any `r` bracketed by the squares around `n` is `sqrt_floor(n)`.
pub proof fn lemma_sqrt_floor_unique(n: nat, r: nat)
    requires
        r * r <= n,
        n < (r + 1) * (r + 1),
    ensures
        r == sqrt_floor(n),
{
    let s = sqrt_floor(n);
    lemma_sqrt_floor(n);
    if r < s {
        assert((r + 1) * (r + 1) <= s * s) by (nonlinear_arith)
            requires
                r + 1 <= s,
        ;
    }
    if s < r {
        assert((s + 1) * (s + 1) <= r * r) by (nonlinear_arith)
            requires
                s + 1 <= r,
        ;
    }
}

/// The square root stays below any bound whose square exceeds `n`.
pub proof fn lemma_sqrt_floor_bound(n: nat, b: nat)
    requires
        n < b * b,
    ensures
        sqrt_floor(n) < b,
{
    lemma_sqrt_floor(n);
    if sqrt_floor(n) >= b {
        assert(b * b <= sqrt_floor(n) * sqrt_floor(n)) by (nonlinear_arith)
            requires
                b <= sqrt_floor(n),
        ;
    }
}

/// Floor of the square root of `n`, by binary search over the root.
pub fn isqrt(n: u128) -> (r: u64)
    requires
        n < 0x100000000000000000000,
    ensures
        r as nat == sqrt_floor(n as nat),
        r < 0x10000000000,
{
    let mut lo: u64 = 0;
    let mut hi: u64 = 0xFFFFFFFFFF;
    proof {
        assert((lo as int) * (lo as int) <= n as int);
        assert(((hi as int) + 1) * ((hi as int) + 1) == 0x100000000000000000000)
            by (nonlinear_arith)
            requires
                hi == 0xFFFFFFFFFFu64,
        ;
    }
    while lo < hi
        invariant
            lo <= hi,
            hi <= 0xFFFFFFFFFF,
            (lo as int) * (lo as int) <= n as int,
            (n as int) < ((hi as int) + 1) * ((hi as int) + 1),
        decreases hi - lo,
    {
        let mid = lo + (hi - lo + 1) / 2;
        proof {
            assert((mid as int) * (mid as int) < 0x100000000000000000000)
                by (nonlinear_arith)
                requires
                    mid <= 0xFFFFFFFFFFu64,
            ;
        }
        if (mid as u128) * (mid as u128) <= n {
            lo = mid;
        } else {
            hi = mid - 1;
        }
    }
    proof {
        assert((lo as nat) * (lo as nat) <= n as nat);
        assert((n as nat) < ((lo as nat) + 1) * ((lo as nat) + 1));
        lemma_sqrt_floor_unique(n as nat, lo as nat);
    }
    lo
}

} // verus!
