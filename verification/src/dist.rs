//! Fixed-point Euclidean distance and the sensing/discount curves derived
//! from it. The square root is computed exactly (floor) on integers.

use vstd::prelude::*;

use crate::prob::SCALE;

verus! {

/// Largest grid side length the fixed-point distance supports
/// (`dsq * SCALE * SCALE` must fit in a `u64`).
pub const MAX_DIM: usize = 3_000;

/// Floor of the square root of `n`.
pub open spec fn spec_isqrt(n: nat) -> nat
    decreases n,
{
    if n == 0 {
        0
    } else {
        let p = spec_isqrt((n - 1) as nat);
        if (p + 1) * (p + 1) <= n {
            p + 1
        } else {
            p
        }
    }
}

pub proof fn lemma_spec_isqrt(n: nat)
    ensures
        spec_isqrt(n) * spec_isqrt(n) <= n < (spec_isqrt(n) + 1) * (spec_isqrt(n) + 1),
    decreases n,
{
    if n == 0 {
        assert(spec_isqrt(0) == 0);
        assert(spec_isqrt(n) * spec_isqrt(n) <= n);
        assert(n < (spec_isqrt(n) + 1) * (spec_isqrt(n) + 1)) by (nonlinear_arith)
            requires n == 0, spec_isqrt(n) == 0;
    } else {
        lemma_spec_isqrt((n - 1) as nat);
        let p = spec_isqrt((n - 1) as nat);
        if (p + 1) * (p + 1) <= n {
            assert(spec_isqrt(n) == p + 1);
            assert(n < (p + 2) * (p + 2)) by (nonlinear_arith)
                requires (n - 1) < (p + 1) * (p + 1), (p + 1) * (p + 1) <= n;
            assert((spec_isqrt(n) + 1) * (spec_isqrt(n) + 1) == (p + 2) * (p + 2));
        } else {
            assert(spec_isqrt(n) == p);
            assert(p * p <= n - 1);
        }
        assert(spec_isqrt(n) * spec_isqrt(n) <= n);
        assert(n < (spec_isqrt(n) + 1) * (spec_isqrt(n) + 1));
    }
}

/// The floor square root is the only `r` with `r*r <= n < (r+1)*(r+1)`.
pub proof fn lemma_isqrt_unique(n: nat, r: nat)
    requires
        r * r <= n < (r + 1) * (r + 1),
    ensures
        r == spec_isqrt(n),
{
    lemma_spec_isqrt(n);
    let s = spec_isqrt(n);
    if r < s {
        assert((r + 1) * (r + 1) <= s * s) by (nonlinear_arith)
            requires r + 1 <= s;
    } else if s < r {
        assert((s + 1) * (s + 1) <= r * r) by (nonlinear_arith)
            requires s + 1 <= r;
    }
}

/// Floor square root, by binary search on the root.
pub fn isqrt(n: u64) -> (r: u64)
    ensures
        r == spec_isqrt(n as nat),
        r * r <= n < (r + 1) * (r + 1),
{
    let mut lo: u64 = 0;
    let mut hi: u64 = if n >= 0xFFFF_FFFF {
        0x1_0000_0000
    } else {
        n + 1
    };
    proof {
        if n >= 0xFFFF_FFFF {
            assert(hi * hi > n) by (nonlinear_arith)
                requires hi == 0x1_0000_0000u64, n <= u64::MAX;
        } else {
            assert(hi * hi > n) by (nonlinear_arith)
                requires hi == n + 1;
        }
    }
    while lo + 1 < hi
        invariant
            lo < hi,
            hi <= 0x1_0000_0000,
            lo * lo <= n,
            hi * hi > n,
        decreases hi - lo,
    {
        let mid = lo + (hi - lo) / 2;
        proof {
            assert(mid * mid <= u64::MAX) by (nonlinear_arith)
                requires mid < 0x1_0000_0000u64;
        }
        if mid * mid <= n {
            lo = mid;
        } else {
            hi = mid;
        }
    }
    proof {
        lemma_isqrt_unique(n as nat, lo as nat);
    }
    lo
}

/// Fixed-point Euclidean length for squared offset `dsq`:
/// `floor(SCALE * sqrt(dsq))`.
pub open spec fn spec_dist_fp(dsq: int) -> int {
    spec_isqrt((dsq * (SCALE as int) * (SCALE as int)) as nat) as int
}

pub proof fn lemma_dist_fp_bound(dsq: int)
    requires
        0 <= dsq <= (MAX_DIM * MAX_DIM * 2) as int,
    ensures
        0 <= spec_dist_fp(dsq) <= 5_000_000_000,
{
    let v = dsq * (SCALE as int) * (SCALE as int);
    assert(MAX_DIM * MAX_DIM * 2 == 18_000_000) by (nonlinear_arith);
    assert(0 <= v <= 18_000_000_000_000_000_000) by (nonlinear_arith)
        requires
            v == dsq * (SCALE as int) * (SCALE as int),
            0 <= dsq <= 18_000_000,
            SCALE == 1_000_000u64,
    ;
    let m = v as nat;
    lemma_spec_isqrt(m);
    let r = spec_isqrt(m);
    assert(r <= 5_000_000_000) by (nonlinear_arith)
        requires r * r <= m, m <= 18_000_000_000_000_000_000;
}

/// Fixed-point distance, executable.
pub fn dist_fp(dsq: u64) -> (r: u64)
    requires
        dsq <= MAX_DIM * MAX_DIM * 2,
    ensures
        r == spec_dist_fp(dsq as int),
{
    proof {
        assert(MAX_DIM * MAX_DIM * 2 == 18_000_000) by (nonlinear_arith);
        assert(dsq * SCALE * SCALE <= u64::MAX) by (nonlinear_arith)
            requires dsq <= 18_000_000, SCALE == 1_000_000u64;
    }
    isqrt(dsq * SCALE * SCALE)
}

/// Sensing certainty at squared distance `dsq` with sense range `range`:
/// `max(0, range - distance) / range` in fixed point.
pub open spec fn spec_certainty(dsq: int, range: u64) -> int {
    if spec_dist_fp(dsq) >= range * SCALE {
        0
    } else {
        (range * SCALE - spec_dist_fp(dsq)) / (range as int)
    }
}

pub proof fn lemma_certainty_bounds(dsq: int, range: u64)
    requires
        0 <= dsq,
        1 <= range,
        range * SCALE <= u64::MAX,
    ensures
        0 <= spec_certainty(dsq, range) <= SCALE,
{
    let d = spec_dist_fp(dsq);
    assert(d >= 0);
    if d < range * SCALE {
        assert(0 <= (range * SCALE - d) / (range as int) <= SCALE) by (nonlinear_arith)
            requires 0 <= d < range * SCALE, 1 <= range, SCALE >= 1;
    }
}

/// Sensing certainty, executable.
pub fn certainty(dsq: u64, range: u64) -> (r: u64)
    requires
        dsq <= MAX_DIM * MAX_DIM * 2,
        1 <= range,
        range * SCALE <= u64::MAX,
    ensures
        r == spec_certainty(dsq as int, range),
        r <= SCALE,
{
    proof {
        lemma_certainty_bounds(dsq as int, range);
    }
    let d = dist_fp(dsq);
    let bound = range * SCALE;
    if d >= bound {
        0
    } else {
        (bound - d) / range
    }
}

/// Distance discount on favorability: `0.9 / (distance + 1) + 0.1` in fixed
/// point, a hyperbolic falloff with a ten percent floor.
pub open spec fn spec_discount(dsq: int) -> int {
    900_000 * (SCALE as int) / (spec_dist_fp(dsq) + SCALE) + 100_000
}

pub proof fn lemma_discount_bounds(dsq: int)
    requires
        0 <= dsq,
    ensures
        100_000 <= spec_discount(dsq) <= SCALE,
{
    let d = spec_dist_fp(dsq);
    assert(d >= 0);
    assert(0 <= 900_000 * (SCALE as int) / (d + SCALE) <= 900_000) by (nonlinear_arith)
        requires d >= 0, SCALE == 1_000_000u64;
}

/// Distance discount, executable.
pub fn discount(dsq: u64) -> (r: u64)
    requires
        dsq <= MAX_DIM * MAX_DIM * 2,
    ensures
        r == spec_discount(dsq as int),
        100_000 <= r <= SCALE,
{
    proof {
        lemma_discount_bounds(dsq as int);
        lemma_dist_fp_bound(dsq as int);
    }
    let d = dist_fp(dsq);
    900_000 * SCALE / (d + SCALE) + 100_000
}

} // verus!
