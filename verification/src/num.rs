//! Fixed-point arithmetic helpers shared by both engines.
//!
//! Values are scaled integers in micro-units (`SCALE` units to 1.0).
//! Division rounds toward zero; square roots round down.

use vstd::prelude::*;

verus! {

/// Number of fixed-point units in 1.0: all real-valued quantities are
/// carried as integer counts of millionths.
pub const SCALE: i128 = 1_000_000;

/// Truncating division (round toward zero), the rounding rule used for
/// every quotient in this crate. For a non-negative dividend it agrees
/// with Euclidean division.
pub open spec fn div_trunc(a: int, b: int) -> int
    recommends
        b > 0,
{
    if a >= 0 {
        a / b
    } else {
        -((-a) / b)
    }
}

/// Sum of a sequence of integers.
pub open spec fn sum_int(s: Seq<int>) -> int
    decreases s.len(),
{
    if s.len() == 0 {
        0
    } else {
        sum_int(s.drop_last()) + s.last()
    }
}

/// `r` is the floor of the square root of `x`.
pub open spec fn is_sqrt_floor(x: int, r: int) -> bool {
    0 <= r && r * r <= x && x < (r + 1) * (r + 1)
}

/// Floor of the square root of a non-negative integer.
pub open spec fn sqrt_floor(x: int) -> int {
    choose|r: int| is_sqrt_floor(x, r)
}

/// A non-negative integer always has a floor square root.
pub proof fn lemma_sqrt_exists(x: int)
    requires
        0 <= x,
    ensures
        exists|r: int| #[trigger] is_sqrt_floor(x, r),
    decreases x,
{
    if x == 0 {
        assert(is_sqrt_floor(x, 0));
    } else {
        lemma_sqrt_exists(x - 1);
        let r = choose|r: int| #[trigger] is_sqrt_floor(x - 1, r);
        if (r + 1) * (r + 1) <= x {
            assert(x < (r + 2) * (r + 2)) by (nonlinear_arith)
                requires
                    x - 1 < (r + 1) * (r + 1),
                    (r + 1) * (r + 1) <= x,
                    0 <= r,
            ;
            assert(is_sqrt_floor(x, r + 1));
        } else {
            assert(is_sqrt_floor(x, r));
        }
    }
}

/// The floor square root is unique.
pub proof fn lemma_sqrt_unique(x: int, r1: int, r2: int)
    requires
        0 <= r1,
        r1 * r1 <= x,
        x < (r1 + 1) * (r1 + 1),
        0 <= r2,
        r2 * r2 <= x,
        x < (r2 + 1) * (r2 + 1),
    ensures
        r1 == r2,
{
    if r1 < r2 {
        assert(r2 * r2 >= (r1 + 1) * (r1 + 1)) by (nonlinear_arith)
            requires
                0 <= r1,
                r1 + 1 <= r2,
        ;
    }
    if r2 < r1 {
        assert(r1 * r1 >= (r2 + 1) * (r2 + 1)) by (nonlinear_arith)
            requires
                0 <= r2,
                r2 + 1 <= r1,
        ;
    }
}

/// Any witness of the floor-square-root property equals `sqrt_floor`.
pub proof fn lemma_sqrt_floor_is(x: int, r: int)
    requires
        0 <= r,
        r * r <= x,
        x < (r + 1) * (r + 1),
    ensures
        sqrt_floor(x) == r,
{
    lemma_sqrt_exists(x);
    assert(is_sqrt_floor(x, sqrt_floor(x)));
    let w = sqrt_floor(x);
    lemma_sqrt_unique(x, w, r);
}

/// Truncating division on machine integers.
pub fn div_trunc_i128(a: i128, b: i128) -> (q: i128)
    requires
        b > 0,
        a > i128::MIN,
    ensures
        q == div_trunc(a as int, b as int),
{
    if a >= 0 {
        a / b
    } else {
        -((-a) / b)
    }
}

/// Floor square root by binary search.
pub fn isqrt(x: i128) -> (r: i128)
    requires
        0 <= x <= 1_000_000_000_000_000_000_000_000_000_000_000_000,
    ensures
        r == sqrt_floor(x as int),
        0 <= r,
        r * r <= x,
        x < (r + 1) * (r + 1),
{
    let mut lo: i128 = 0;
    let mut hi: i128 = 1_000_000_000_000_000_000;
    proof {
        assert((hi + 1) * (hi + 1) > x) by (nonlinear_arith)
            requires
                hi == 1_000_000_000_000_000_000i128,
                x <= 1_000_000_000_000_000_000_000_000_000_000_000_000,
        ;
    }
    while lo < hi
        invariant
            0 <= lo <= hi <= 1_000_000_000_000_000_000,
            lo * lo <= x,
            x < (hi + 1) * (hi + 1),
        decreases hi - lo,
    {
        let mid: i128 = lo + (hi - lo + 1) / 2;
        proof {
            assert(mid * mid < 0x40000000000000000000000000000000) by (nonlinear_arith)
                requires
                    0 <= mid <= 1_000_000_000_000_000_000,
            ;
        }
        if mid * mid <= x {
            lo = mid;
        } else {
            hi = mid - 1;
        }
    }
    proof {
        lemma_sqrt_floor_is(x as int, lo as int);
    }
    lo
}

} // verus!
