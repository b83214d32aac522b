//! Fixed-point arithmetic: the scale, the coordinate limits, rounded division
//! and the rounded square root.

use vstd::prelude::*;

verus! {

/// Number of fixed-point steps in one world unit.
pub const UNIT: i64 = 1_000_000;

/// Largest magnitude of a coordinate of a mesh vertex or a query point:
/// a million world units.
pub const COORD_MAX: i64 = 1_000_000_000_000;

/// Largest magnitude of a coordinate of a derived point, such as a mirror
/// image or a nudged query point.
pub const REACH: i64 = 5_000_000_000_000;

/// Magnitude of an integer.
pub open spec fn magnitude(n: int) -> int {
    if n < 0 {
        -n
    } else {
        n
    }
}

/// The integer nearest to `n / d`, halves rounded away from zero.
/// Meaningful for `d != 0`.
pub open spec fn round_div(n: int, d: int) -> int {
    let q = (2 * magnitude(n) + magnitude(d)) / (2 * magnitude(d));
    if (n < 0) != (d < 0) {
        -q
    } else {
        q
    }
}

/// `r` is the integer part of the square root of `n`.
pub open spec fn is_sqrt_floor(n: int, r: int) -> bool {
    0 <= r && r * r <= n < (r + 1) * (r + 1)
}

/// Integer part of the square root of `n`, for `n >= 0`.
pub open spec fn sqrt_floor(n: int) -> int {
    choose|r: int| is_sqrt_floor(n, r)
}

/// The integer nearest to the square root of `n`, for `n >= 0`.
pub open spec fn sqrt_round(n: int) -> int {
    let s = sqrt_floor(n);
    if n - s * s > s {
        s + 1
    } else {
        s
    }
}

/// A product is bounded by the product of the bounds of its factors.
pub proof fn lemma_product_bound(a: int, b: int, ma: int, mb: int)
    by (nonlinear_arith)
    requires
        -ma <= a <= ma,
        -mb <= b <= mb,
    ensures
        -(ma * mb) <= a * b <= ma * mb,
{
}

/// A square is not negative and is bounded by the square of the bound.
pub proof fn lemma_square_bound(a: int, ma: int)
    by (nonlinear_arith)
    requires
        -ma <= a <= ma,
    ensures
        0 <= a * a <= ma * ma,
{
}

/// Squaring is strictly monotone on the non-negative integers.
pub proof fn lemma_square_strict(a: int, b: int)
    by (nonlinear_arith)
    requires
        0 <= a < b,
    ensures
        a * a < b * b,
        (a + 1) * (a + 1) <= b * b,
{
}

/// Every non-negative integer has an integer square root.
pub proof fn lemma_sqrt_floor_exists(n: int)
    requires
        0 <= n,
    ensures
        is_sqrt_floor(n, sqrt_floor(n)),
    decreases n,
{
    if n == 0 {
        assert(is_sqrt_floor(0, 0));
    } else {
        lemma_sqrt_floor_exists(n - 1);
        let r = sqrt_floor(n - 1);
        if (r + 1) * (r + 1) <= n {
            assert(is_sqrt_floor(n, r + 1)) by (nonlinear_arith)
                requires
                    0 <= r,
                    r * r <= n - 1 < (r + 1) * (r + 1),
                    (r + 1) * (r + 1) <= n,
            ;
        } else {
            assert(is_sqrt_floor(n, r));
        }
    }
}

/// The integer part of a square root is unique.
pub proof fn lemma_sqrt_floor_unique(n: int, r: int)
    requires
        is_sqrt_floor(n, r),
    ensures
        sqrt_floor(n) == r,
{
    let s = sqrt_floor(n);
    assert(is_sqrt_floor(n, s));
    if s < r {
        lemma_square_strict(s, r);
    }
    if r < s {
        lemma_square_strict(r, s);
    }
}

/// A rounded quotient is no larger than any whole bound on the true quotient.
pub proof fn lemma_round_div_bound(n: int, d: int, m: int)
    requires
        d != 0,
        0 <= m,
        magnitude(n) <= m * magnitude(d),
    ensures
        -m <= round_div(n, d) <= m,
{
    let an = magnitude(n);
    let ad = magnitude(d);
    let q = (2 * an + ad) / (2 * ad);
    assert(0 <= q <= m) by (nonlinear_arith)
        requires
            0 <= an <= m * ad,
            0 < ad,
            0 <= m,
            q == (2 * an + ad) / (2 * ad),
    {
        assert(2 * an + ad < (m + 1) * (2 * ad));
        assert((2 * an + ad) / (2 * ad) < m + 1) by {
            if (2 * an + ad) / (2 * ad) >= m + 1 {
                assert(((2 * an + ad) / (2 * ad)) * (2 * ad) >= (m + 1) * (2 * ad));
                assert(((2 * an + ad) / (2 * ad)) * (2 * ad) <= 2 * an + ad);
            }
        }
    }
}

/// A rounded quotient has the sign of the true quotient, or is zero.
pub proof fn lemma_round_div_sign(n: int, d: int)
    requires
        d != 0,
    ensures
        (n < 0) == (d < 0) ==> round_div(n, d) >= 0,
        (n < 0) != (d < 0) ==> round_div(n, d) <= 0,
        n == 0 ==> round_div(n, d) == 0,
{
    let an = magnitude(n);
    let ad = magnitude(d);
    assert((2 * an + ad) / (2 * ad) >= 0) by (nonlinear_arith)
        requires
            0 <= an,
            0 < ad,
    ;
    if n == 0 {
        assert(ad / (2 * ad) == 0) by (nonlinear_arith)
            requires
                0 < ad,
        ;
    }
}

/// Largest magnitude of an argument of [`rounded_quotient`]: `2^125`.
pub const QUOTIENT_MAX: i128 = 0x2000_0000_0000_0000_0000_0000_0000_0000;

/// The product of two bounded integers, with its bound.
pub(crate) fn times(a: i128, b: i128, Ghost(ma): Ghost<int>, Ghost(mb): Ghost<int>) -> (p: i128)
    requires
        -ma <= a <= ma,
        -mb <= b <= mb,
        ma * mb <= i128::MAX,
    ensures
        p == a * b,
        -(ma * mb) <= p <= ma * mb,
{
    proof {
        lemma_product_bound(a as int, b as int, ma, mb);
    }
    a * b
}

/// Divides `n` by `d` and rounds to the nearest integer.
pub fn rounded_quotient(n: i128, d: i128) -> (q: i128)
    requires
        d != 0,
        -QUOTIENT_MAX <= n <= QUOTIENT_MAX,
        -QUOTIENT_MAX <= d <= QUOTIENT_MAX,
    ensures
        q == round_div(n as int, d as int),
{
    let an: i128 = if n < 0 {
        -n
    } else {
        n
    };
    let ad: i128 = if d < 0 {
        -d
    } else {
        d
    };
    let q: i128 = (2 * an + ad) / (2 * ad);
    proof {
        assert(0 <= (2 * an + ad) / (2 * ad) <= 2 * an + ad) by (nonlinear_arith)
            requires
                0 <= an,
                0 < ad,
        ;
    }
    if (n < 0) != (d < 0) {
        -q
    } else {
        q
    }
}

/// Largest argument of [`rounded_sqrt`]: below `2^124`.
pub const SQRT_MAX: u128 = 0x0fff_ffff_ffff_ffff_ffff_ffff_ffff_ffff;

/// The integer nearest to the square root of `n`.
pub fn rounded_sqrt(n: u128) -> (r: i64)
    requires
        n <= SQRT_MAX,
    ensures
        r == sqrt_round(n as int),
        0 <= r,
{
    let mut lo: u128 = 0;
    let mut hi: u128 = 0x4000_0000_0000_0000;
    assert(hi * hi > n) by (nonlinear_arith)
        requires
            hi == 0x4000_0000_0000_0000u128,
            n <= 0x0fff_ffff_ffff_ffff_ffff_ffff_ffff_ffffu128,
    ;
    while hi - lo > 1
        invariant
            lo < hi <= 0x4000_0000_0000_0000,
            lo * lo <= n < hi * hi,
        decreases hi - lo,
    {
        let mid: u128 = lo + (hi - lo) / 2;
        proof {
            lemma_square_bound(mid as int, 0x4000_0000_0000_0000);
        }
        if mid * mid <= n {
            lo = mid;
        } else {
            hi = mid;
        }
    }
    proof {
        assert(hi == lo + 1);
        lemma_sqrt_floor_unique(n as int, lo as int);
        lemma_square_bound(lo as int, 0x4000_0000_0000_0000);
    }
    if n - lo * lo > lo {
        (lo + 1) as i64
    } else {
        lo as i64
    }
}

} // verus!
