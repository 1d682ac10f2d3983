//! Quarterly trend: fixed-point quarterly return and ordinary-least-squares
//! slope from a series of closing prices.

use vstd::prelude::*;

use crate::num::{div_trunc, div_trunc_i128, sum_int, SCALE};

verus! {

/// Trend over the lookback window: percentage return, raw fractional
/// return, OLS slope in price micro-units per day index, and the last
/// closing price used. All fixed-point micro-units.
#[derive(Clone, Debug, PartialEq)]
pub struct QuarterlyTrend {
    pub quarter_pct: i128,
    pub q_return: i128,
    pub slope: i128,
    pub last: i64,
}

/// The positive closing prices of `s`, in order: zero or negative prices
/// are invalid or missing data points and are dropped up front.
pub open spec fn positive_closes(s: Seq<i64>) -> Seq<i64>
    decreases s.len(),
{
    if s.len() == 0 {
        Seq::empty()
    } else {
        let p = positive_closes(s.drop_last());
        if s.last() > 0 {
            p.push(s.last())
        } else {
            p
        }
    }
}

/// Every retained closing price is positive.
pub proof fn lemma_positive_closes_pos(s: Seq<i64>)
    ensures
        forall|i: int| 0 <= i < positive_closes(s).len() ==> #[trigger] positive_closes(s)[i] > 0,
    decreases s.len(),
{
    if s.len() > 0 {
        lemma_positive_closes_pos(s.drop_last());
        let p = positive_closes(s.drop_last());
        assert forall|i: int| 0 <= i < positive_closes(s).len() implies #[trigger] positive_closes(
            s,
        )[i] > 0 by {
            if i < p.len() {
                assert(positive_closes(s)[i] == p[i]);
            } else {
                assert(positive_closes(s)[i] == s.last());
            }
        }
    }
}

/// Lookback window length for `len` valid prices: `min(63, len / 2)`,
/// floored at 1. The constant 63 approximates one trading quarter; the
/// half-length cap keeps the regression window from ever exceeding half
/// the data.
pub open spec fn lookback_of(len: int) -> int {
    let lb: int = if len / 2 < 63 {
        len / 2
    } else {
        63
    };
    if lb < 1 {
        1
    } else {
        lb
    }
}

/// Numerator of the OLS slope of `y` against indices `0..n-1`, scaled by
/// `2 * n`: the sum of `(2*i - (n-1)) * (n*y[i] - sy)` where `sy` is the
/// sum of `y`. Doubling the index deviations and multiplying the value
/// deviations by `n` clears the two fractional means.
pub open spec fn slope_num2(y: Seq<int>, n: int, sy: int) -> int
    decreases y.len(),
{
    if y.len() == 0 {
        0
    } else {
        slope_num2(y.drop_last(), n, sy) + (2 * (y.len() - 1) - (n - 1)) * (n * y.last() - sy)
    }
}

/// Denominator of the OLS slope for `len` indices out of `0..n-1`, scaled
/// by 4: the sum of `(2*i - (n-1))^2`.
pub open spec fn slope_den2(len: int, n: int) -> int
    decreases len,
{
    if len <= 0 {
        0
    } else {
        slope_den2(len - 1, n) + (2 * (len - 1) - (n - 1)) * (2 * (len - 1) - (n - 1))
    }
}

/// For a window of at least two points the scaled denominator is positive:
/// its first summand is `(n-1)^2`.
pub proof fn lemma_slope_den2_pos(len: int, n: int)
    requires
        1 <= len,
        2 <= n,
    ensures
        slope_den2(len, n) >= (n - 1) * (n - 1) > 0,
    decreases len,
{
    if len == 1 {
        assert(slope_den2(0, n) == 0);
        assert((2 * 0 - (n - 1)) * (2 * 0 - (n - 1)) == (n - 1) * (n - 1)) by (nonlinear_arith);
    } else {
        lemma_slope_den2_pos(len - 1, n);
        let t = 2 * (len - 1) - (n - 1);
        assert(t * t >= 0) by (nonlinear_arith);
    }
    assert((n - 1) * (n - 1) > 0) by (nonlinear_arith)
        requires
            2 <= n,
    ;
}

/// OLS slope of `y` against its 0-based index, rounded toward zero.
/// Equal to `slope_num2 / (2n)` over `slope_den2 / 4`, i.e.
/// `2 * slope_num2 / (n * slope_den2)`; zero for fewer than two points.
pub open spec fn slope_of(y: Seq<int>) -> int {
    let n = y.len() as int;
    if n < 2 {
        0
    } else {
        div_trunc(2 * slope_num2(y, n, sum_int(y)), n * slope_den2(n, n))
    }
}

/// The trend of a series of closing prices, oldest first: `None` when
/// fewer than 30 positive prices remain after filtering, else the
/// quarterly return over the lookback window and the OLS slope of the
/// window against its day index.
///
/// The return is the fixed-point price ratio minus one. The ratio of two
/// positive prices is positive, so a ratio that truncates to zero is
/// raised to one micro-unit -- the same epsilon discipline as the
/// z-score's zero-deviation guard -- and the reported return stays
/// strictly above -100%.
pub open spec fn trend_model(closes: Seq<i64>) -> Option<QuarterlyTrend> {
    let f = positive_closes(closes);
    if f.len() < 30 {
        None
    } else {
        let n = f.len() as int;
        let lb = lookback_of(n);
        let last = f.last() as int;
        let prev = f[n - lb] as int;
        let ratio = div_trunc(last * (SCALE as int), prev);
        let ratio_pos: int = if ratio <= 0 {
            1
        } else {
            ratio
        };
        let qr = ratio_pos - SCALE as int;
        let slope = slope_of(f.map_values(|v: i64| v as int).subrange(n - lb, n));
        Some(
            QuarterlyTrend {
                quarter_pct: (qr * 100) as i128,
                q_return: qr as i128,
                slope: slope as i128,
                last: f.last(),
            },
        )
    }
}

/// OLS slope of the window `y` (fixed-point prices against day index).
fn linear_slope(y: &Vec<i64>) -> (s: i128)
    requires
        y@.len() <= 63,
    ensures
        s as int == slope_of(y@.map_values(|v: i64| v as int)),
{
    // The overflow bounds below are multiples of 2^63, the magnitude of
    // an i64: with n <= 63, |sy| <= 63 * 2^63, |xd| <= 126, so
    // |yd| <= 126 * 2^63 and |xd * yd| <= 24192 * 2^63, all far inside
    // i128.
    let ghost yi: Seq<int> = y@.map_values(|v: i64| v as int);
    let n = y.len();
    if n < 2 {
        return 0;
    }
    let ghost ni: int = n as int;
    let mut sy: i128 = 0;
    let mut i: usize = 0;
    while i < n
        invariant
            i <= n,
            n == y@.len() <= 63,
            yi == y@.map_values(|v: i64| v as int),
            sy == sum_int(yi.take(i as int)),
            -9223372036854775808 * (i as int) <= sy <= 9223372036854775808 * (i as int),
        decreases n - i,
    {
        proof {
            assert(yi.take(i + 1).drop_last() =~= yi.take(i as int));
        }
        sy = sy + (y[i] as i128);
        i = i + 1;
    }
    proof {
        assert(yi.take(ni) =~= yi);
    }
    let mut num2: i128 = 0;
    let mut den2: i128 = 0;
    let mut j: usize = 0;
    while j < n
        invariant
            j <= n,
            2 <= n == y@.len() <= 63,
            ni == n as int,
            yi == y@.map_values(|v: i64| v as int),
            sy == sum_int(yi),
            -581072438321850875904 <= sy <= 581072438321850875904,
            num2 == slope_num2(yi.take(j as int), ni, sy as int),
            den2 == slope_den2(j as int, ni),
            -223131816315590736347136 * (j as int) <= num2 <= 223131816315590736347136 * (
            j as int),
            0 <= den2 <= 15876 * (j as int),
        decreases n - j,
    {
        let xd: i128 = 2 * (j as i128) - (n as i128 - 1);
        proof {
            assert(-126 <= xd <= 126);
            assert(-581072438321850875904 <= (n as int) * (y[j as int] as int)
                <= 581072438321850875904) by (nonlinear_arith)
                requires
                    2 <= n <= 63,
                    -0x8000000000000000 <= y[j as int] <= 0x8000000000000000,
            ;
        }
        let yd: i128 = (n as i128) * (y[j] as i128) - sy;
        proof {
            assert(-223131816315590736347136 <= (xd as int) * (yd as int)
                <= 223131816315590736347136) by (nonlinear_arith)
                requires
                    -126 <= xd <= 126,
                    -1162144876643701751808 <= yd <= 1162144876643701751808,
            ;
            assert(0 <= (xd as int) * (xd as int) <= 15876) by (nonlinear_arith)
                requires
                    -126 <= xd <= 126,
            ;
            assert(yi.take(j + 1).drop_last() =~= yi.take(j as int));
            assert(yi.take(j + 1).last() == yi[j as int]);
            assert(yi[j as int] == y@[j as int] as int);
            assert(slope_num2(yi.take(j + 1), ni, sy as int) == slope_num2(
                yi.take(j as int),
                ni,
                sy as int,
            ) + (2 * (j as int) - (ni - 1)) * (ni * yi[j as int] - sy as int));
            assert(xd as int == 2 * (j as int) - (ni - 1));
            assert(yd as int == ni * yi[j as int] - sy as int);
            assert(slope_den2(j + 1 as int, ni) == slope_den2(j as int, ni) + (2 * (j as int) - (ni
                - 1)) * (2 * (j as int) - (ni - 1)));
            assert(-1162144876643701751808 <= yd as int <= 1162144876643701751808);
            assert(num2 as int + (xd as int) * (yd as int) <= 223131816315590736347136 * (
            j as int + 1));
            assert(num2 as int + (xd as int) * (yd as int) >= -223131816315590736347136 * (
            j as int + 1));
        }
        num2 = num2 + xd * yd;
        den2 = den2 + xd * xd;
        j = j + 1;
    }
    proof {
        assert(yi.take(ni) =~= yi);
        lemma_slope_den2_pos(ni, ni);
    }
    proof {
        assert(0 < (n as int) * (den2 as int) <= 63 * 1000188) by (nonlinear_arith)
            requires
                2 <= n <= 63,
                0 < den2 <= 15876 * 63,
        ;
    }
    let prod: i128 = (n as i128) * den2;
    div_trunc_i128(2 * num2, prod)
}

/// Quarterly trend of a close-price series, oldest first.
///
/// Drops non-positive prices, requires at least 30 remaining, takes a
/// lookback of `min(63, len/2)` (at least 1), and reports the return over
/// the window and the OLS slope of the window. Absence means insufficient
/// history, not an error. The reported return is always strictly above
/// -100%, since both the last price and the lookback anchor are positive.
pub fn quarterly_trend(closes: &Vec<i64>) -> (r: Option<QuarterlyTrend>)
    ensures
        r == trend_model(closes@),
        r is None <==> positive_closes(closes@).len() < 30,
        r matches Some(t) ==> t.q_return > -SCALE,
{
    let mut f: Vec<i64> = Vec::new();
    let mut i: usize = 0;
    while i < closes.len()
        invariant
            i <= closes@.len(),
            f@ == positive_closes(closes@.take(i as int)),
        decreases closes@.len() - i,
    {
        proof {
            assert(closes@.take(i + 1).drop_last() =~= closes@.take(i as int));
        }
        let c: i64 = closes[i];
        if c > 0 {
            f.push(c);
        }
        i = i + 1;
    }
    proof {
        assert(closes@.take(closes@.len() as int) =~= closes@);
    }
    if f.len() < 30 {
        return None;
    }
    let len = f.len();
    let last: i64 = f[len - 1];
    let mut lookback: usize = len / 2;
    if lookback > 63 {
        lookback = 63;
    }
    if lookback < 1 {
        lookback = 1;
    }
    let prev: i64 = f[len - lookback];
    proof {
        lemma_positive_closes_pos(closes@);
    }
    proof {
        assert(positive_closes(closes@)[(len - lookback) as int] > 0);
    }
    if prev <= 0 {
        // Unreachable: the filter above retains positive prices only. Kept
        // as a guard on the index arithmetic, mirroring the stated design.
        return None;
    }
    let mut ratio: i128 = (last as i128) * SCALE / (prev as i128);
    if ratio <= 0 {
        // A positive ratio below one micro-unit truncates to zero; raise
        // it to the smallest representable value so the return stays
        // strictly above -100%.
        ratio = 1;
    }
    let qr: i128 = ratio - SCALE;
    let quarter_pct: i128 = qr * 100;
    let mut window: Vec<i64> = Vec::new();
    let mut k: usize = len - lookback;
    while k < len
        invariant
            len - lookback <= k <= len,
            len == f@.len(),
            lookback <= len,
            window@ == f@.subrange((len - lookback) as int, k as int),
        decreases len - k,
    {
        proof {
            assert(f@.subrange((len - lookback) as int, k + 1) =~= f@.subrange(
                (len - lookback) as int,
                k as int,
            ).push(f@[k as int]));
        }
        window.push(f[k]);
        k = k + 1;
    }
    let slope: i128 = linear_slope(&window);
    proof {
        assert(window@.map_values(|v: i64| v as int) =~= f@.map_values(
            |v: i64| v as int,
        ).subrange((len - lookback) as int, len as int));
    }
    Some(
        QuarterlyTrend {
            quarter_pct,
            q_return: qr,
            slope,
            last,
        },
    )
}

} // verus!
