//! Exact fixed-point arithmetic helpers: floor and ceiling division on `i64`
//! and an integer ceiling square root, each with a closed-form contract.

use vstd::prelude::*;
use vstd::arithmetic::div_mod::lemma_fundamental_div_mod;

verus! {

/// Floor (euclidean) division bounds: for a positive divisor the quotient
/// lies between the dividend and zero.
pub proof fn lemma_fdiv_bounds(a: int, b: int)
    requires
        b >= 1,
    ensures
        a >= 0 ==> 0 <= a / b <= a,
        a < 0 ==> a <= a / b <= 0,
{
    lemma_fundamental_div_mod(a, b);
    let q = a / b;
    let r = a % b;
    assert(a == b * q + r);
    assert(0 <= r < b);
    assert(a >= 0 ==> 0 <= q <= a) by (nonlinear_arith)
        requires
            b >= 1,
            a == b * q + r,
            0 <= r < b,
    ;
    assert(a < 0 ==> a <= q <= 0) by (nonlinear_arith)
        requires
            b >= 1,
            a == b * q + r,
            0 <= r < b,
    ;
}

/// Floor division of `a` by a positive `b`; `/` on `int` is euclidean, which
/// is floor division for a positive divisor.
pub fn fdiv(a: i64, b: i64) -> (q: i64)
    requires
        1 <= b,
    ensures
        q as int == a as int / b as int,
{
    proof {
        lemma_fdiv_bounds(a as int, b as int);
    }
    match a.checked_div_euclid(b) {
        Some(q) => q,
        None => {
            proof {
                assert(false);
            }
            0
        },
    }
}

/// Ceiling division of `a` by a positive `b`, via the identity
/// `ceil(a / b) == floor((a + b - 1) / b)`.
pub fn cdiv(a: i64, b: i64) -> (q: i64)
    requires
        1 <= b,
        a + b - 1 <= i64::MAX,
    ensures
        q as int == (a as int + b as int - 1) / b as int,
{
    fdiv(a + (b - 1), b)
}

/// Clamp `v` into `[lo, hi]` (spec form).
pub open spec fn clamp_s(v: int, lo: int, hi: int) -> int {
    if v < lo {
        lo
    } else if v > hi {
        hi
    } else {
        v
    }
}

/// Clamp `v` into `[lo, hi]`.
pub fn clamp64(v: i64, lo: i64, hi: i64) -> (r: i64)
    requires
        lo <= hi,
    ensures
        r as int == clamp_s(v as int, lo as int, hi as int),
{
    if v < lo {
        lo
    } else if v > hi {
        hi
    } else {
        v
    }
}

/// `r` is the least nonnegative integer whose square reaches `v`.
pub open spec fn is_sqrt_ceil(v: int, r: int) -> bool {
    0 <= r && v <= r * r && (r == 0 || (r - 1) * (r - 1) < v)
}

/// The ceiling square root, as a function: the unique `r` with
/// `is_sqrt_ceil(v, r)`.
pub open spec fn sqrt_ceil(v: int) -> int {
    choose|r: int| is_sqrt_ceil(v, r)
}

/// The ceiling square root is unique.
pub proof fn lemma_sqrt_ceil_unique(v: int, r1: int, r2: int)
    requires
        is_sqrt_ceil(v, r1),
        is_sqrt_ceil(v, r2),
    ensures
        r1 == r2,
{
    if r1 < r2 {
        assert(r1 * r1 <= (r2 - 1) * (r2 - 1)) by (nonlinear_arith)
            requires
                0 <= r1,
                r1 < r2,
        ;
    }
    if r2 < r1 {
        assert(r2 * r2 <= (r1 - 1) * (r1 - 1)) by (nonlinear_arith)
            requires
                0 <= r2,
                r2 < r1,
        ;
    }
}

/// The ceiling square root exists for every nonnegative argument, so the
/// chosen value satisfies its defining property.
pub proof fn lemma_sqrt_ceil_exists(v: int)
    requires
        0 <= v,
    ensures
        is_sqrt_ceil(v, sqrt_ceil(v)),
        0 <= sqrt_ceil(v),
    decreases v,
{
    if v == 0 {
        assert(is_sqrt_ceil(0, 0));
    } else {
        lemma_sqrt_ceil_exists(v - 1);
        let r = sqrt_ceil(v - 1);
        if v <= r * r {
            assert(is_sqrt_ceil(v, r));
        } else {
            assert(v <= (r + 1) * (r + 1)) by (nonlinear_arith)
                requires
                    r * r >= v - 1,
                    0 <= r,
            ;
            assert(is_sqrt_ceil(v, r + 1));
        }
    }
}

/// Integer ceiling square root by binary search: the least `r` with
/// `r * r >= v`.
pub fn isqrt_ceil(v: i64) -> (r: i64)
    requires
        0 <= v <= 0x100_0000_0000_0000,
    ensures
        0 <= r <= 0x1000_0000,
        r as int == sqrt_ceil(v as int),
        is_sqrt_ceil(v as int, r as int),
{
    let mut lo: i64 = 0;
    let mut hi: i64 = 0x1000_0000;
    proof {
        assert(v as int <= hi as int * hi as int) by (nonlinear_arith)
            requires
                v as int <= 0x100_0000_0000_0000,
                hi as int == 0x1000_0000,
        ;
    }
    while lo < hi
        invariant
            0 <= lo <= hi <= 0x1000_0000,
            v as int <= hi as int * hi as int,
            lo == 0 || ((lo - 1) as int) * ((lo - 1) as int) < (v as int),
        decreases hi - lo,
    {
        let mid = lo + fdiv(hi - lo, 2);
        assert(lo <= mid < hi);
        assert(mid as int * mid as int <= 0x100_0000_0000_0000) by (nonlinear_arith)
            requires
                0 <= mid as int <= 0x1000_0000,
        ;
        let sq = mid * mid;
        if sq >= v {
            hi = mid;
        } else {
            lo = mid + 1;
        }
    }
    proof {
        assert(is_sqrt_ceil(v as int, lo as int));
        let c = sqrt_ceil(v as int);
        assert(is_sqrt_ceil(v as int, c));
        lemma_sqrt_ceil_unique(v as int, lo as int, c);
    }
    lo
}

} // verus!
