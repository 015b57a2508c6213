//! Integer helpers for the fixed-point arithmetic of the simulation:
//! square root, division rounded toward zero, rounding of milli-units,
//! and clamping, each with the lemmas the physics proofs need.

use vstd::prelude::*;

verus! {

/// Absolute value of an integer.
pub open spec fn iabs(v: int) -> int {
    if v >= 0 {
        v
    } else {
        -v
    }
}

/// Integer square root, rounded down: the largest r with r * r <= n.
pub open spec fn sqrt_floor(n: int) -> int
    decreases n,
{
    if n < 1 {
        0
    } else {
        let r = sqrt_floor(n - 1);
        if (r + 1) * (r + 1) <= n {
            r + 1
        } else {
            r
        }
    }
}

/// Division rounded toward zero (the behaviour of `/` on machine integers),
/// defined for positive divisors.
pub open spec fn tdiv(a: int, b: int) -> int {
    if a >= 0 {
        a / b
    } else {
        -((-a) / b)
    }
}

/// A count of milli-units rounded to whole units, halves away from zero.
pub open spec fn round_milli(t: int) -> int {
    if t >= 0 {
        (t + 500) / 1000
    } else {
        -((-t + 500) / 1000)
    }
}

/// v forced into [lo, hi].
pub open spec fn clamp(v: int, lo: int, hi: int) -> int {
    if v < lo {
        lo
    } else if v > hi {
        hi
    } else {
        v
    }
}

pub proof fn lemma_sqrt_floor_bounds(n: int)
    requires
        n >= 0,
    ensures
        0 <= sqrt_floor(n),
        sqrt_floor(n) * sqrt_floor(n) <= n,
        n < (sqrt_floor(n) + 1) * (sqrt_floor(n) + 1),
    decreases n,
{
    if n >= 1 {
        lemma_sqrt_floor_bounds(n - 1);
        let r = sqrt_floor(n - 1);
        if (r + 1) * (r + 1) <= n {
            assert((r + 2) * (r + 2) > (r + 1) * (r + 1)) by (nonlinear_arith)
                requires r >= 0;
            assert(n - 1 < (r + 1) * (r + 1));
        }
    }
}

pub proof fn lemma_sqrt_floor_unique(n: int, r: int)
    requires
        n >= 0,
        r >= 0,
        r * r <= n,
        n < (r + 1) * (r + 1),
    ensures
        r == sqrt_floor(n),
{
    lemma_sqrt_floor_bounds(n);
    let s = sqrt_floor(n);
    if r < s {
        assert((r + 1) * (r + 1) <= s * s) by (nonlinear_arith)
            requires 0 <= r + 1 <= s;
    } else if s < r {
        assert((s + 1) * (s + 1) <= r * r) by (nonlinear_arith)
            requires 0 <= s + 1 <= r;
    }
}

pub proof fn lemma_sqrt_floor_monotone(m: int, n: int)
    requires
        0 <= m <= n,
    ensures
        sqrt_floor(m) <= sqrt_floor(n),
{
    lemma_sqrt_floor_bounds(m);
    lemma_sqrt_floor_bounds(n);
    let a = sqrt_floor(m);
    let b = sqrt_floor(n);
    if b < a {
        assert((b + 1) * (b + 1) <= a * a) by (nonlinear_arith)
            requires 0 <= b + 1 <= a;
    }
}

/// The square root of a perfect square k * k is k itself.
pub proof fn lemma_sqrt_floor_square(k: int)
    requires
        k >= 0,
    ensures
        sqrt_floor(k * k) == k,
{
    assert(k * k < (k + 1) * (k + 1)) by (nonlinear_arith)
        requires k >= 0;
    assert(k * k >= 0) by (nonlinear_arith);
    lemma_sqrt_floor_unique(k * k, k);
}

/// An upper bound on a square yields an upper bound on the root:
/// n < (r + 1)^2 implies sqrt_floor(n) <= r.
pub proof fn lemma_sqrt_floor_upper(n: int, r: int)
    requires
        n >= 0,
        r >= 0,
        n < (r + 1) * (r + 1),
    ensures
        sqrt_floor(n) <= r,
{
    lemma_sqrt_floor_bounds(n);
    let s = sqrt_floor(n);
    if r < s {
        assert((r + 1) * (r + 1) <= s * s) by (nonlinear_arith)
            requires 0 <= r + 1 <= s;
    }
}

/// Integer square root of n, for n below 10^12.
pub fn isqrt(n: u64) -> (r: u64)
    requires
        n < 1_000_000_000_000,
    ensures
        r == sqrt_floor(n as int),
        r <= 1_000_000,
{
    let mut lo: u64 = 0;
    let mut hi: u64 = 1_000_000;
    proof {
        assert(1_000_000int * 1_000_000int == 1_000_000_000_000int) by (nonlinear_arith);
    }
    while lo + 1 < hi
        invariant
            lo < hi <= 1_000_000,
            lo * lo <= n,
            n < hi * hi,
        decreases hi - lo,
    {
        let mid = lo + (hi - lo) / 2;
        assert(lo < mid < hi);
        assert(mid * mid <= 1_000_000_000_000) by (nonlinear_arith)
            requires 0 <= mid <= 1_000_000;
        if mid * mid <= n {
            lo = mid;
        } else {
            hi = mid;
        }
    }
    proof {
        assert(hi == lo + 1);
        lemma_sqrt_floor_unique(n as int, lo as int);
    }
    lo
}

/// The truncated quotient of nonnegative operands is the Euclidean one.
pub proof fn lemma_tdiv_nonneg(a: int, b: int)
    requires
        a >= 0,
        b >= 1,
    ensures
        tdiv(a, b) == a / b,
        tdiv(a, b) >= 0,
{
    assert(a / b >= 0) by (nonlinear_arith)
        requires a >= 0 && b >= 1;
}

/// Clamp for i64 values, returning an i16 whenever the bounds fit in i16.
pub fn clamp_i64(v: i64, lo: i16, hi: i16) -> (r: i16)
    requires
        lo <= hi,
    ensures
        r == clamp(v as int, lo as int, hi as int),
{
    if v < lo as i64 {
        lo
    } else if v > hi as i64 {
        hi
    } else {
        v as i16
    }
}

/// Whole units survive the milli-rounding untouched.
pub proof fn lemma_round_milli_exact(x: int)
    ensures
        round_milli(x * 1000) == x,
{
    if x >= 0 {
        vstd::arithmetic::div_mod::lemma_div_multiples_vanish_fancy(x, 500, 1000);
        assert(1000 * x + 500 == x * 1000 + 500);
    } else {
        vstd::arithmetic::div_mod::lemma_div_multiples_vanish_fancy(-x, 500, 1000);
        assert(1000 * -x + 500 == -(x * 1000) + 500);
    }
}

} // verus!
