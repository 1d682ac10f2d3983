//! Z-score anomaly engine: per-ticker daily aggregation, baseline versus
//! current window statistics, and anomaly classification.

use vstd::prelude::*;

use crate::models::{bytes_eq, clone_bytes, upper_ascii, upper_bytes, InsiderSellRecord};
use crate::num::{div_trunc, div_trunc_i128, isqrt, sqrt_floor, sum_int, SCALE};

verus! {

/// Capacity of one invocation: at most this many input records, so that
/// every intermediate fits the fixed-point arithmetic.
pub const MAX_RECORDS: usize = 10_000;

/// Largest admissible per-record share count (micro-units): one million
/// shares. Together with `MAX_RECORDS` this keeps every square and sum
/// inside `i128`.
pub const MAX_SHARES: i64 = 1_000_000_000_000;

/// Output record for one ticker. All quantities fixed-point micro-units.
#[derive(Clone, Debug, PartialEq)]
pub struct AnomalySignal {
    pub ticker: Vec<u8>,
    pub current_shares_sold: i128,
    pub baseline_mean: i128,
    pub baseline_std: i128,
    pub z_score: i128,
    pub is_anomaly: bool,
}

/// Mathematical view of one per-record daily volume: upper-cased ticker,
/// transaction day and shares sold.
pub ghost struct DailyVolumeModel {
    pub ticker: Seq<u8>,
    pub date: i64,
    pub shares: int,
}

/// Mathematical view of an `AnomalySignal`.
pub ghost struct SignalModel {
    pub ticker: Seq<u8>,
    pub current_shares_sold: int,
    pub baseline_mean: int,
    pub baseline_std: int,
    pub z_score: int,
    pub is_anomaly: bool,
}

/// One record, reduced to what the aggregation reads.
pub open spec fn volume_model(r: InsiderSellRecord) -> DailyVolumeModel {
    DailyVolumeModel {
        ticker: upper_bytes(r.ticker@),
        date: r.transaction_date,
        shares: r.shares_sold as int,
    }
}

/// The daily volumes of a record sequence, in input order.
pub open spec fn volumes_of(rs: Seq<InsiderSellRecord>) -> Seq<DailyVolumeModel> {
    rs.map_values(|r: InsiderSellRecord| volume_model(r))
}

/// View of an output signal.
pub open spec fn signal_view(s: AnomalySignal) -> SignalModel {
    SignalModel {
        ticker: s.ticker@,
        current_shares_sold: s.current_shares_sold as int,
        baseline_mean: s.baseline_mean as int,
        baseline_std: s.baseline_std as int,
        z_score: s.z_score as int,
        is_anomaly: s.is_anomaly,
    }
}

/// `d` lies in the baseline window `[as_of - current_days - baseline_days,
/// as_of - current_days)`: inclusive start, exclusive end.
pub open spec fn in_baseline(d: int, as_of: int, baseline_days: int, current_days: int) -> bool {
    as_of - current_days - baseline_days <= d < as_of - current_days
}

/// `d` lies in the current window `[as_of - current_days, as_of]`,
/// inclusive on both ends.
pub open spec fn in_current(d: int, as_of: int, current_days: int) -> bool {
    as_of - current_days <= d <= as_of
}

/// No calendar date is counted in both windows: the boundary date belongs
/// to the current window only, since the baseline window excludes its end.
pub proof fn lemma_window_disjoint(d: int, as_of: int, baseline_days: int, current_days: int)
    ensures
        !(in_baseline(d, as_of, baseline_days, current_days) && in_current(d, as_of, current_days)),
{
}

/// The distinct upper-cased tickers of `vs`, in order of first appearance.
pub open spec fn tickers_of(vs: Seq<DailyVolumeModel>) -> Seq<Seq<u8>>
    decreases vs.len(),
{
    if vs.len() == 0 {
        Seq::empty()
    } else {
        let p = tickers_of(vs.drop_last());
        if p.contains(vs.last().ticker) {
            p
        } else {
            p.push(vs.last().ticker)
        }
    }
}

/// The distinct transaction days of ticker `t` in `vs`, in order of first
/// appearance.
pub open spec fn dates_of(vs: Seq<DailyVolumeModel>, t: Seq<u8>) -> Seq<i64>
    decreases vs.len(),
{
    if vs.len() == 0 {
        Seq::empty()
    } else {
        let p = dates_of(vs.drop_last(), t);
        if vs.last().ticker == t && !p.contains(vs.last().date) {
            p.push(vs.last().date)
        } else {
            p
        }
    }
}

/// A ticker has at most one distinct day per record.
pub proof fn lemma_dates_of_len(vs: Seq<DailyVolumeModel>, t: Seq<u8>)
    ensures
        dates_of(vs, t).len() <= vs.len(),
    decreases vs.len(),
{
    if vs.len() > 0 {
        lemma_dates_of_len(vs.drop_last(), t);
    }
}

/// Total shares sold of ticker `t` on day `d`: the sum of the shares of
/// every contributing record, multiple same-day transactions additive.
pub open spec fn total_of(vs: Seq<DailyVolumeModel>, t: Seq<u8>, d: i64) -> int
    decreases vs.len(),
{
    if vs.len() == 0 {
        0
    } else {
        total_of(vs.drop_last(), t, d) + if vs.last().ticker == t && vs.last().date == d {
            vs.last().shares
        } else {
            0
        }
    }
}

/// Removing one record from `vs` removes exactly its contribution to a
/// daily total.
proof fn lemma_total_of_remove(vs: Seq<DailyVolumeModel>, t: Seq<u8>, d: i64, i: int)
    requires
        0 <= i < vs.len(),
    ensures
        total_of(vs, t, d) == total_of(vs.remove(i), t, d) + if vs[i].ticker == t && vs[i].date
            == d {
            vs[i].shares
        } else {
            0
        },
    decreases vs.len(),
{
    if i == vs.len() - 1 {
        assert(vs.remove(i) =~= vs.drop_last());
    } else {
        lemma_total_of_remove(vs.drop_last(), t, d, i);
        assert(vs.remove(i).drop_last() =~= vs.drop_last().remove(i));
        assert(vs.remove(i).last() == vs.last());
    }
}

/// Aggregation additivity is order independent: two inputs holding the
/// same records, in any order, give every (ticker, day) pair the same
/// aggregated daily total, the exact sum of the contributing shares.
pub proof fn lemma_total_of_permutation(
    vs1: Seq<DailyVolumeModel>,
    vs2: Seq<DailyVolumeModel>,
    t: Seq<u8>,
    d: i64,
)
    requires
        vs1.to_multiset() == vs2.to_multiset(),
    ensures
        total_of(vs1, t, d) == total_of(vs2, t, d),
    decreases vs2.len(),
{
    broadcast use vstd::seq_lib::group_to_multiset_ensures;

    if vs2.len() == 0 {
        assert(vs1.to_multiset().len() == 0);
        assert(vs1.len() == 0);
    } else {
        let x = vs2.last();
        assert(vs2.drop_last().push(x) =~= vs2);
        assert(vs2.to_multiset() =~= vs2.drop_last().to_multiset().insert(x));
        assert(vs1.to_multiset().count(x) > 0);
        assert(vs1.contains(x));
        let i = choose|i: int| 0 <= i < vs1.len() && vs1[i] == x;
        lemma_total_of_remove(vs1, t, d, i);
        assert(vs1.remove(i).to_multiset() =~= vs1.to_multiset().remove(x));
        assert(vs2.drop_last().to_multiset() =~= vs2.to_multiset().remove(x));
        lemma_total_of_permutation(vs1.remove(i), vs2.drop_last(), t, d);
    }
}

/// The per-day totals of `t` that fall in the baseline window, one entry
/// per distinct day of `dates`, in order.
pub open spec fn baseline_totals(
    vs: Seq<DailyVolumeModel>,
    t: Seq<u8>,
    dates: Seq<i64>,
    as_of: int,
    baseline_days: int,
    current_days: int,
) -> Seq<int>
    decreases dates.len(),
{
    if dates.len() == 0 {
        Seq::empty()
    } else {
        let p = baseline_totals(vs, t, dates.drop_last(), as_of, baseline_days, current_days);
        if in_baseline(dates.last() as int, as_of, baseline_days, current_days) {
            p.push(total_of(vs, t, dates.last()))
        } else {
            p
        }
    }
}

/// The days of ticker `t` never repeat.
pub proof fn lemma_dates_of_distinct(vs: Seq<DailyVolumeModel>, t: Seq<u8>)
    ensures
        forall|i: int, j: int|
            0 <= i < j < dates_of(vs, t).len() ==> dates_of(vs, t)[i] != dates_of(vs, t)[j],
    decreases vs.len(),
{
    if vs.len() > 0 {
        lemma_dates_of_distinct(vs.drop_last(), t);
        let p = dates_of(vs.drop_last(), t);
        let w = dates_of(vs, t);
        assert forall|i: int, j: int| 0 <= i < j < w.len() implies w[i] != w[j] by {
            if j == p.len() && w.len() == p.len() + 1 {
                assert(p.contains(p[i]));
            }
        }
    }
}

/// A day that ticker `t` never traded on has a zero daily total.
pub proof fn lemma_total_zero_without_date(vs: Seq<DailyVolumeModel>, t: Seq<u8>, d: i64)
    requires
        !dates_of(vs, t).contains(d),
    ensures
        total_of(vs, t, d) == 0,
    decreases vs.len(),
{
    if vs.len() > 0 {
        let p = dates_of(vs.drop_last(), t);
        assert forall|dd: i64| p.contains(dd) implies dates_of(vs, t).contains(dd) by {
            let w = choose|w: int| 0 <= w < p.len() && p[w] == dd;
            assert(dates_of(vs, t)[w] == dd);
        }
        lemma_total_zero_without_date(vs.drop_last(), t, d);
        if vs.last().ticker == t && vs.last().date == d {
            if p.contains(d) {
            } else {
                assert(dates_of(vs, t).last() == d);
            }
        }
    }
}

/// Sum of the per-day totals of `t` over the days of `dates` that fall in
/// the current window.
pub open spec fn current_total(
    vs: Seq<DailyVolumeModel>,
    t: Seq<u8>,
    dates: Seq<i64>,
    as_of: int,
    current_days: int,
) -> int
    decreases dates.len(),
{
    if dates.len() == 0 {
        0
    } else {
        current_total(vs, t, dates.drop_last(), as_of, current_days) + if in_current(
            dates.last() as int,
            as_of,
            current_days,
        ) {
            total_of(vs, t, dates.last())
        } else {
            0
        }
    }
}

/// Direct per-record sum: the shares of every record of ticker `t` whose
/// transaction day falls in the current window.
pub open spec fn window_shares(
    vs: Seq<DailyVolumeModel>,
    t: Seq<u8>,
    as_of: int,
    current_days: int,
) -> int
    decreases vs.len(),
{
    if vs.len() == 0 {
        0
    } else {
        window_shares(vs.drop_last(), t, as_of, current_days) + if vs.last().ticker == t
            && in_current(vs.last().date as int, as_of, current_days) {
            vs.last().shares
        } else {
            0
        }
    }
}

/// If every daily total of `vs` equals the one of `ws` except on day
/// `d0`, where it is larger by `delta`, then the current-window sum over
/// a duplicate-free day list shifts by `delta` exactly when the list
/// holds `d0` inside the window.
proof fn lemma_current_total_shift(
    vs: Seq<DailyVolumeModel>,
    ws: Seq<DailyVolumeModel>,
    t: Seq<u8>,
    d0: i64,
    delta: int,
    dates: Seq<i64>,
    as_of: int,
    current_days: int,
)
    requires
        forall|d: i64| #[trigger] total_of(vs, t, d) == total_of(ws, t, d) + if d == d0 {
            delta
        } else {
            0
        },
        forall|i: int, j: int| 0 <= i < j < dates.len() ==> dates[i] != dates[j],
    ensures
        current_total(vs, t, dates, as_of, current_days) == current_total(
            ws,
            t,
            dates,
            as_of,
            current_days,
        ) + if dates.contains(d0) && in_current(d0 as int, as_of, current_days) {
            delta
        } else {
            0
        },
    decreases dates.len(),
{
    if dates.len() == 0 {
        assert(!dates.contains(d0));
    } else {
        let p = dates.drop_last();
        let e = dates.last();
        lemma_current_total_shift(vs, ws, t, d0, delta, p, as_of, current_days);
        if e == d0 {
            assert(!p.contains(d0)) by {
                if p.contains(d0) {
                    let w = choose|w: int| 0 <= w < p.len() && #[trigger] p[w] == d0;
                    assert(dates[w] == dates[dates.len() - 1]);
                }
            }
            assert(dates.contains(d0)) by {
                assert(dates[dates.len() - 1] == d0);
            }
        } else {
            assert(dates.contains(d0) == p.contains(d0)) by {
                if dates.contains(d0) {
                    let w = choose|w: int| 0 <= w < dates.len() && #[trigger] dates[w] == d0;
                    assert(p[w] == d0);
                }
                if p.contains(d0) {
                    let w = choose|w: int| 0 <= w < p.len() && #[trigger] p[w] == d0;
                    assert(dates[w] == d0);
                }
            }
        }
    }
}

/// The current-window total of a ticker is the direct per-record sum:
/// summing its daily totals over its distinct trading days inside the
/// window counts exactly the shares of every record of the ticker whose
/// day lies in the window.
pub proof fn lemma_current_total_is_window_sum(
    vs: Seq<DailyVolumeModel>,
    t: Seq<u8>,
    as_of: int,
    current_days: int,
)
    ensures
        current_total(vs, t, dates_of(vs, t), as_of, current_days) == window_shares(
            vs,
            t,
            as_of,
            current_days,
        ),
    decreases vs.len(),
{
    if vs.len() > 0 {
        let p = vs.drop_last();
        let x = vs.last();
        let d0 = x.date;
        let delta: int = if x.ticker == t {
            x.shares
        } else {
            0
        };
        lemma_current_total_is_window_sum(p, t, as_of, current_days);
        lemma_dates_of_distinct(p, t);
        lemma_dates_of_distinct(vs, t);
        assert forall|d: i64| #[trigger] total_of(vs, t, d) == total_of(p, t, d) + if d == d0 {
            delta
        } else {
            0
        } by {
            assert(total_of(vs, t, d) == total_of(p, t, d) + if x.ticker == t && x.date == d {
                x.shares
            } else {
                0
            });
        }
        let pdates = dates_of(p, t);
        if x.ticker == t && !pdates.contains(d0) {
            assert(dates_of(vs, t) == pdates.push(d0));
            assert(dates_of(vs, t).drop_last() =~= pdates);
            lemma_current_total_shift(vs, p, t, d0, delta, pdates, as_of, current_days);
            lemma_total_zero_without_date(p, t, d0);
        } else {
            assert(dates_of(vs, t) == pdates);
            lemma_current_total_shift(vs, p, t, d0, delta, pdates, as_of, current_days);
            if x.ticker == t {
                assert(pdates.contains(d0));
            } else {
                assert(current_total(vs, t, pdates, as_of, current_days) == current_total(
                    p,
                    t,
                    pdates,
                    as_of,
                    current_days,
                ));
            }
        }
    }
}

/// Removing one record removes exactly its contribution to the
/// current-window sum.
proof fn lemma_window_shares_remove(
    vs: Seq<DailyVolumeModel>,
    t: Seq<u8>,
    as_of: int,
    current_days: int,
    i: int,
)
    requires
        0 <= i < vs.len(),
    ensures
        window_shares(vs, t, as_of, current_days) == window_shares(
            vs.remove(i),
            t,
            as_of,
            current_days,
        ) + if vs[i].ticker == t && in_current(vs[i].date as int, as_of, current_days) {
            vs[i].shares
        } else {
            0
        },
    decreases vs.len(),
{
    if i == vs.len() - 1 {
        assert(vs.remove(i) =~= vs.drop_last());
    } else {
        lemma_window_shares_remove(vs.drop_last(), t, as_of, current_days, i);
        assert(vs.remove(i).drop_last() =~= vs.drop_last().remove(i));
        assert(vs.remove(i).last() == vs.last());
    }
}

/// The current-window per-record sum is order independent: two inputs
/// holding the same records, in any order, give it the same value.
pub proof fn lemma_window_shares_permutation(
    vs1: Seq<DailyVolumeModel>,
    vs2: Seq<DailyVolumeModel>,
    t: Seq<u8>,
    as_of: int,
    current_days: int,
)
    requires
        vs1.to_multiset() == vs2.to_multiset(),
    ensures
        window_shares(vs1, t, as_of, current_days) == window_shares(vs2, t, as_of, current_days),
    decreases vs2.len(),
{
    broadcast use vstd::seq_lib::group_to_multiset_ensures;

    if vs2.len() == 0 {
        assert(vs1.to_multiset().len() == 0);
        assert(vs1.len() == 0);
    } else {
        let x = vs2.last();
        assert(vs2.drop_last().push(x) =~= vs2);
        assert(vs2.to_multiset() =~= vs2.drop_last().to_multiset().insert(x));
        assert(vs1.to_multiset().count(x) > 0);
        assert(vs1.contains(x));
        let i = choose|i: int| 0 <= i < vs1.len() && vs1[i] == x;
        lemma_window_shares_remove(vs1, t, as_of, current_days, i);
        assert(vs1.remove(i).to_multiset() =~= vs1.to_multiset().remove(x));
        assert(vs2.drop_last().to_multiset() =~= vs2.to_multiset().remove(x));
        lemma_window_shares_permutation(vs1.remove(i), vs2.drop_last(), t, as_of, current_days);
    }
}

/// Arithmetic mean of a list of daily totals, rounded toward zero;
/// zero for an empty list.
pub open spec fn mean_of(b: Seq<int>) -> int {
    if b.len() == 0 {
        0
    } else {
        sum_int(b) / b.len() as int
    }
}

/// Sum of squared deviations from `m`.
pub open spec fn sq_dev_sum(b: Seq<int>, m: int) -> int
    decreases b.len(),
{
    if b.len() == 0 {
        0
    } else {
        sq_dev_sum(b.drop_last(), m) + (b.last() - m) * (b.last() - m)
    }
}

/// Population variance (divisor is the count, not count minus one),
/// rounded toward zero; zero for an empty list.
pub open spec fn var_of(b: Seq<int>) -> int {
    if b.len() == 0 {
        0
    } else {
        sq_dev_sum(b, mean_of(b)) / b.len() as int
    }
}

/// Population standard deviation: floor square root of the variance.
pub open spec fn std_of(b: Seq<int>) -> int {
    sqrt_floor(var_of(b))
}

/// The signal computed for ticker `t` of `vs`.
///
/// With fewer baseline days with data than `min_baseline_points`, the
/// statistics are reported as zero and the signal is never an anomaly:
/// insufficient evidence, not an error. Otherwise the z-score compares the
/// average daily current-window volume against the baseline mean, in units
/// of the baseline standard deviation; an exactly zero deviation is
/// replaced by the smallest positive fixed-point value to avoid dividing
/// by zero.
pub open spec fn signal_model(
    vs: Seq<DailyVolumeModel>,
    t: Seq<u8>,
    as_of: int,
    baseline_days: int,
    current_days: int,
    std_threshold: int,
    min_baseline_points: int,
) -> SignalModel {
    let dates = dates_of(vs, t);
    let b = baseline_totals(vs, t, dates, as_of, baseline_days, current_days);
    let cur = current_total(vs, t, dates, as_of, current_days);
    if b.len() < min_baseline_points {
        SignalModel {
            ticker: t,
            current_shares_sold: cur,
            baseline_mean: 0,
            baseline_std: 0,
            z_score: 0,
            is_anomaly: false,
        }
    } else {
        let mean = mean_of(b);
        let std = std_of(b);
        let std_safe = if std <= 0 {
            1
        } else {
            std
        };
        let num_days = if current_days < 1 {
            1
        } else {
            current_days
        };
        let avg = div_trunc(cur, num_days);
        let z = div_trunc((avg - mean) * (SCALE as int), std_safe);
        SignalModel {
            ticker: t,
            current_shares_sold: cur,
            baseline_mean: mean,
            baseline_std: std,
            z_score: z,
            is_anomaly: z >= std_threshold && cur > 0,
        }
    }
}

/// One signal per distinct ticker, in order of first appearance.
pub open spec fn unsorted_signals(
    vs: Seq<DailyVolumeModel>,
    as_of: int,
    baseline_days: int,
    current_days: int,
    std_threshold: int,
    min_baseline_points: int,
) -> Seq<SignalModel> {
    tickers_of(vs).map_values(
        |t: Seq<u8>|
            signal_model(
                vs,
                t,
                as_of,
                baseline_days,
                current_days,
                std_threshold,
                min_baseline_points,
            ),
    )
}

/// Too few baseline days with data floor the statistics: the z-score is
/// exactly zero and the signal is not an anomaly, whatever the
/// current-window activity, which is still reported truthfully.
pub proof fn lemma_insufficient_baseline(
    vs: Seq<DailyVolumeModel>,
    t: Seq<u8>,
    as_of: int,
    baseline_days: int,
    current_days: int,
    std_threshold: int,
    min_baseline_points: int,
)
    requires
        baseline_totals(
            vs,
            t,
            dates_of(vs, t),
            as_of,
            baseline_days,
            current_days,
        ).len() < min_baseline_points,
    ensures
        signal_model(
            vs,
            t,
            as_of,
            baseline_days,
            current_days,
            std_threshold,
            min_baseline_points,
        ) == (SignalModel {
            ticker: t,
            current_shares_sold: current_total(vs, t, dates_of(vs, t), as_of, current_days),
            baseline_mean: 0,
            baseline_std: 0,
            z_score: 0,
            is_anomaly: false,
        }),
{
}

/// A ticker with no current-window volume is never flagged, whatever the
/// z-score arithmetic would say.
pub proof fn lemma_anomaly_guard(
    vs: Seq<DailyVolumeModel>,
    t: Seq<u8>,
    as_of: int,
    baseline_days: int,
    current_days: int,
    std_threshold: int,
    min_baseline_points: int,
)
    ensures
        signal_model(
            vs,
            t,
            as_of,
            baseline_days,
            current_days,
            std_threshold,
            min_baseline_points,
        ).is_anomaly ==> signal_model(
            vs,
            t,
            as_of,
            baseline_days,
            current_days,
            std_threshold,
            min_baseline_points,
        ).current_shares_sold > 0,
{
}

/// `s` is non-increasing in z-score.
pub open spec fn sorted_desc(s: Seq<SignalModel>) -> bool {
    forall|i: int, j: int| 0 <= i <= j < s.len() ==> s[i].z_score >= s[j].z_score
}

/// Stable insertion of `x` into a list sorted by z-score descending:
/// `x` goes in front of the first element with a strictly smaller
/// z-score, so equal scores keep their existing order.
pub open spec fn insert_desc(s: Seq<SignalModel>, x: SignalModel) -> Seq<SignalModel>
    decreases s.len(),
{
    if s.len() == 0 {
        seq![x]
    } else if s.last().z_score >= x.z_score {
        s.push(x)
    } else {
        insert_desc(s.drop_last(), x).push(s.last())
    }
}

/// Stable sort by z-score descending, by repeated insertion.
pub open spec fn sort_desc(s: Seq<SignalModel>) -> Seq<SignalModel>
    decreases s.len(),
{
    if s.len() == 0 {
        Seq::empty()
    } else {
        insert_desc(sort_desc(s.drop_last()), s.last())
    }
}

/// Inserting into a sorted list at the index of the first strictly
/// smaller z-score is what `insert_desc` does.
pub proof fn lemma_insert_desc_at(s: Seq<SignalModel>, x: SignalModel, idx: int)
    requires
        sorted_desc(s),
        0 <= idx <= s.len(),
        forall|i: int| 0 <= i < idx ==> s[i].z_score >= x.z_score,
        idx < s.len() ==> s[idx].z_score < x.z_score,
    ensures
        insert_desc(s, x) == s.insert(idx, x),
        sorted_desc(s.insert(idx, x)),
    decreases s.len(),
{
    if s.len() == 0 {
        assert(insert_desc(s, x) =~= s.insert(idx, x));
    } else if s.last().z_score >= x.z_score {
        assert(idx == s.len());
        assert(insert_desc(s, x) =~= s.insert(idx, x));
    } else {
        assert(idx < s.len());
        let p = s.drop_last();
        assert(sorted_desc(p));
        assert(forall|i: int| 0 <= i < idx ==> p[i].z_score >= x.z_score);
        assert(idx < p.len() ==> p[idx].z_score < x.z_score);
        lemma_insert_desc_at(p, x, idx);
        assert(insert_desc(s, x) == insert_desc(p, x).push(s.last()));
        assert(insert_desc(p, x) == p.insert(idx, x));
        assert(p.insert(idx, x).push(s.last()) =~= s.insert(idx, x));
    }
    let t = s.insert(idx, x);
    assert forall|i: int, j: int| 0 <= i <= j < t.len() implies t[i].z_score >= t[j].z_score by {
        if i < idx {
            assert(t[i] == s[i]);
        } else if i > idx {
            assert(t[i] == s[i - 1]);
        }
        if j < idx {
            assert(t[j] == s[j]);
        } else if j > idx {
            assert(t[j] == s[j - 1]);
        }
    }
}

/// One per-record daily volume, the aggregation's intermediate step.
pub struct DailyVolume {
    pub ticker: Vec<u8>,
    pub date: i64,
    pub shares: i64,
}

/// View of a `DailyVolume`.
pub open spec fn volume_view(d: DailyVolume) -> DailyVolumeModel {
    DailyVolumeModel { ticker: d.ticker@, date: d.date, shares: d.shares as int }
}

/// Reduce each record to its daily volume, with the ticker normalized to
/// upper case so that case variants of one security are never split.
fn daily_volume_by_ticker(records: &Vec<InsiderSellRecord>) -> (r: Vec<DailyVolume>)
    ensures
        r@.map_values(|d: DailyVolume| volume_view(d)) == volumes_of(records@),
{
    let mut r: Vec<DailyVolume> = Vec::new();
    let mut i: usize = 0;
    while i < records.len()
        invariant
            i <= records@.len(),
            r@.map_values(|d: DailyVolume| volume_view(d)) == volumes_of(records@.take(i as int)),
        decreases records.len() - i,
    {
        let rec = &records[i];
        let d = DailyVolume {
            ticker: upper_ascii(&rec.ticker),
            date: rec.transaction_date,
            shares: rec.shares_sold,
        };
        proof {
            assert(volume_view(d) == volume_model(records@[i as int]));
            assert(volumes_of(records@.take(i + 1)) =~= volumes_of(records@.take(i as int)).push(
                volume_model(records@[i as int]),
            ));
        }
        r.push(d);
        proof {
            assert(r@.map_values(|dd: DailyVolume| volume_view(dd)) =~= volumes_of(
                records@.take(i + 1),
            ));
        }
        i = i + 1;
    }
    proof {
        assert(records@.take(records@.len() as int) =~= records@);
    }
    r
}

/// Mean and population standard deviation of a list of daily totals,
/// fixed point, zero for an empty list.
fn mean_std(vals: &Vec<i128>) -> (r: (i128, i128))
    requires
        vals@.len() <= 10_000,
        forall|i: int| 0 <= i < vals@.len() ==> 0 <= #[trigger] vals@[i]
            <= 10_000_000_000_000_000,
    ensures
        r.0 == mean_of(vals@.map_values(|v: i128| v as int)),
        r.1 == std_of(vals@.map_values(|v: i128| v as int)),
        0 <= r.0 <= 10_000_000_000_000_000,
        0 <= r.1 <= 10_000_000_000_000_000,
{
    let ghost b: Seq<int> = vals@.map_values(|v: i128| v as int);
    if vals.len() == 0 {
        proof {
            assert(b.len() == 0);
            crate::num::lemma_sqrt_floor_is(0, 0);
        }
        return (0, 0);
    }
    let n = vals.len();
    let mut sum: i128 = 0;
    let mut i: usize = 0;
    while i < n
        invariant
            i <= n,
            n == vals@.len() <= 10_000,
            b == vals@.map_values(|v: i128| v as int),
            forall|k: int| 0 <= k < vals@.len() ==> 0 <= #[trigger] vals@[k]
                <= 10_000_000_000_000_000,
            sum == sum_int(b.take(i as int)),
            0 <= sum <= 10_000_000_000_000_000 * (i as int),
        decreases n - i,
    {
        proof {
            assert(b.take(i + 1).drop_last() =~= b.take(i as int));
        }
        sum = sum + vals[i];
        i = i + 1;
    }
    proof {
        assert(b.take(n as int) =~= b);
    }
    let mean: i128 = sum / (n as i128);
    proof {
        assert(mean == mean_of(b));
        vstd::arithmetic::div_mod::lemma_div_pos_is_pos(sum as int, n as int);
        vstd::arithmetic::div_mod::lemma_div_is_ordered(
            sum as int,
            10_000_000_000_000_000 * (n as int),
            n as int,
        );
        vstd::arithmetic::div_mod::lemma_div_multiples_vanish(10_000_000_000_000_000, n as int);
        assert(0 <= mean <= 10_000_000_000_000_000);
    }
    let mut sq: i128 = 0;
    let mut j: usize = 0;
    while j < n
        invariant
            j <= n,
            n == vals@.len() <= 10_000,
            b == vals@.map_values(|v: i128| v as int),
            forall|k: int| 0 <= k < vals@.len() ==> 0 <= #[trigger] vals@[k]
                <= 10_000_000_000_000_000,
            0 <= mean <= 10_000_000_000_000_000,
            sq == sq_dev_sum(b.take(j as int), mean as int),
            0 <= sq <= 100_000_000_000_000_000_000_000_000_000_000 * (j as int),
        decreases n - j,
    {
        let d: i128 = vals[j] - mean;
        proof {
            assert(-10_000_000_000_000_000 <= d <= 10_000_000_000_000_000);
            assert(0 <= (d as int) * (d as int) <= 100_000_000_000_000_000_000_000_000_000_000)
                by (nonlinear_arith)
                requires
                    -10_000_000_000_000_000 <= d <= 10_000_000_000_000_000,
            ;
            assert(b.take(j + 1).drop_last() =~= b.take(j as int));
        }
        sq = sq + d * d;
        j = j + 1;
    }
    proof {
        assert(b.take(n as int) =~= b);
    }
    let var: i128 = sq / (n as i128);
    proof {
        assert(var == var_of(b));
        vstd::arithmetic::div_mod::lemma_div_pos_is_pos(sq as int, n as int);
        vstd::arithmetic::div_mod::lemma_div_is_ordered(
            sq as int,
            100_000_000_000_000_000_000_000_000_000_000 * (n as int),
            n as int,
        );
        vstd::arithmetic::div_mod::lemma_div_multiples_vanish(
            100_000_000_000_000_000_000_000_000_000_000,
            n as int,
        );
        assert(0 <= var <= 100_000_000_000_000_000_000_000_000_000_000);
    }
    let std: i128 = isqrt(var);
    proof {
        assert(std * std <= var);
        assert(std <= 10_000_000_000_000_000) by (nonlinear_arith)
            requires
                0 <= std,
                std * std <= var,
                var <= 100_000_000_000_000_000_000_000_000_000_000,
        ;
    }
    (mean, std)
}

/// Whether `t` is one of `keys`.
fn contains_key(keys: &Vec<Vec<u8>>, t: &Vec<u8>) -> (r: bool)
    ensures
        r == keys@.map_values(|x: Vec<u8>| x@).contains(t@),
{
    let mut i: usize = 0;
    while i < keys.len()
        invariant
            i <= keys@.len(),
            forall|x: int| 0 <= x < i ==> keys@[x]@ != t@,
        decreases keys@.len() - i,
    {
        if bytes_eq(&keys[i], t) {
            proof {
                assert(keys@.map_values(|x: Vec<u8>| x@)[i as int] == t@);
            }
            return true;
        }
        i = i + 1;
    }
    proof {
        if keys@.map_values(|x: Vec<u8>| x@).contains(t@) {
            let m = keys@.map_values(|x: Vec<u8>| x@);
            let w = choose|w: int| 0 <= w < m.len() && #[trigger] m[w] == t@;
            assert(keys@[w]@ == t@);
        }
    }
    false
}

/// Whether day `d` is one of `dates`.
fn contains_date(dates: &Vec<i64>, d: i64) -> (r: bool)
    ensures
        r == dates@.contains(d),
{
    let mut i: usize = 0;
    while i < dates.len()
        invariant
            i <= dates@.len(),
            forall|x: int| 0 <= x < i ==> dates@[x] != d,
        decreases dates@.len() - i,
    {
        if dates[i] == d {
            return true;
        }
        i = i + 1;
    }
    proof {
        if dates@.contains(d) {
            let w = choose|w: int| 0 <= w < dates@.len() && #[trigger] dates@[w] == d;
        }
    }
    false
}

/// All anomaly signals of a record set: one per distinct upper-cased
/// ticker, sorted by z-score descending, equal scores in order of the
/// ticker's first appearance in the input.
pub open spec fn anomaly_models(
    rs: Seq<InsiderSellRecord>,
    as_of: int,
    baseline_days: int,
    current_days: int,
    std_threshold: int,
    min_baseline_points: int,
) -> Seq<SignalModel> {
    sort_desc(
        unsorted_signals(
            volumes_of(rs),
            as_of,
            baseline_days,
            current_days,
            std_threshold,
            min_baseline_points,
        ),
    )
}

/// Compute the anomaly signals of `records` around the reference day
/// `as_of`: aggregate per-ticker daily totals, split each ticker's days
/// into baseline and current window, and classify by z-score against
/// `std_threshold` (micro-units). The result is exactly `anomaly_models`
/// of the inputs: deterministic, sorted by z-score descending, and never
/// flagging a ticker without current-window volume.
pub fn compute_anomaly_signals(
    records: &Vec<InsiderSellRecord>,
    baseline_days: i64,
    current_days: i64,
    std_threshold: i64,
    min_baseline_points: usize,
    as_of: i64,
) -> (r: Vec<AnomalySignal>)
    requires
        records@.len() <= MAX_RECORDS,
        forall|i: int| 0 <= i < records@.len() ==> 0 <= #[trigger] records@[i].shares_sold
            <= MAX_SHARES,
        0 <= baseline_days <= 1_000_000_000,
        0 <= current_days <= 1_000_000_000,
        -1_000_000_000_000 <= as_of <= 1_000_000_000_000,
    ensures
        r@.map_values(|s: AnomalySignal| signal_view(s)) == anomaly_models(
            records@,
            as_of as int,
            baseline_days as int,
            current_days as int,
            std_threshold as int,
            min_baseline_points as int,
        ),
        sorted_desc(r@.map_values(|s: AnomalySignal| signal_view(s))),
        forall|i: int| 0 <= i < r@.len() ==> (#[trigger] r@[i].is_anomaly
            ==> r@[i].current_shares_sold > 0),
{
    let ghost as_of_i: int = as_of as int;
    let ghost bd_i: int = baseline_days as int;
    let ghost cd_i: int = current_days as int;
    let ghost thr_i: int = std_threshold as int;
    let ghost minp_i: int = min_baseline_points as int;
    let daily = daily_volume_by_ticker(records);
    let ghost vs: Seq<DailyVolumeModel> = volumes_of(records@);
    let ghost unsorted: Seq<SignalModel> = unsorted_signals(vs, as_of_i, bd_i, cd_i, thr_i, minp_i);
    proof {
        assert(daily@.map_values(|d: DailyVolume| volume_view(d)) == vs);
        assert(daily@.len() == vs.len());
        assert forall|i: int| 0 <= i < vs.len() implies 0 <= #[trigger] vs[i].shares
            <= MAX_SHARES by {
            assert(vs[i] == volume_model(records@[i]));
        }
    }
    if daily.len() == 0 {
        let out: Vec<AnomalySignal> = Vec::new();
        proof {
            assert(tickers_of(vs) =~= Seq::<Seq<u8>>::empty());
            assert(unsorted =~= Seq::<SignalModel>::empty());
            assert(sort_desc(unsorted) =~= Seq::<SignalModel>::empty());
            assert(out@.map_values(|s: AnomalySignal| signal_view(s)) =~= Seq::<
                SignalModel,
            >::empty());
        }
        return out;
    }

    // First pass: the distinct tickers, in order of first appearance.
    let mut keys: Vec<Vec<u8>> = Vec::new();
    let mut k: usize = 0;
    while k < daily.len()
        invariant
            k <= daily@.len(),
            daily@.map_values(|d: DailyVolume| volume_view(d)) == vs,
            keys@.map_values(|x: Vec<u8>| x@) == tickers_of(vs.take(k as int)),
        decreases daily@.len() - k,
    {
        let ghost old_keys = keys@;
        let tk: Vec<u8> = clone_bytes(&daily[k].ticker);
        proof {
            assert(volume_view(daily@[k as int]) == vs[k as int]);
            assert(tk@ == vs[k as int].ticker);
            assert(vs.take(k + 1).drop_last() =~= vs.take(k as int));
            assert(vs.take(k + 1).last() == vs[k as int]);
        }
        if !contains_key(&keys, &tk) {
            keys.push(tk);
            proof {
                assert(keys@.map_values(|x: Vec<u8>| x@) =~= old_keys.map_values(
                    |x: Vec<u8>| x@,
                ).push(vs[k as int].ticker));
            }
        }
        proof {
            assert(keys@.map_values(|x: Vec<u8>| x@) == tickers_of(vs.take(k + 1)));
        }
        k = k + 1;
    }
    proof {
        assert(vs.take(vs.len() as int) =~= vs);
        assert(keys@.map_values(|x: Vec<u8>| x@) == tickers_of(vs));
        assert(unsorted.len() == keys@.len());
    }

    // Second pass: one signal per ticker, inserted in sorted position.
    let mut out: Vec<AnomalySignal> = Vec::new();
    let mut ti: usize = 0;
    while ti < keys.len()
        invariant
            ti <= keys@.len(),
            daily@.map_values(|d: DailyVolume| volume_view(d)) == vs,
            daily@.len() == vs.len() <= MAX_RECORDS,
            forall|i: int| 0 <= i < vs.len() ==> 0 <= #[trigger] vs[i].shares <= MAX_SHARES,
            keys@.map_values(|x: Vec<u8>| x@) == tickers_of(vs),
            unsorted == unsorted_signals(vs, as_of_i, bd_i, cd_i, thr_i, minp_i),
            as_of_i == as_of as int,
            bd_i == baseline_days as int,
            cd_i == current_days as int,
            thr_i == std_threshold as int,
            minp_i == min_baseline_points as int,
            0 <= baseline_days <= 1_000_000_000,
            0 <= current_days <= 1_000_000_000,
            -1_000_000_000_000 <= as_of <= 1_000_000_000_000,
            out@.map_values(|s: AnomalySignal| signal_view(s)) == sort_desc(
                unsorted.take(ti as int),
            ),
            sorted_desc(out@.map_values(|s: AnomalySignal| signal_view(s))),
            forall|i: int| 0 <= i < out@.len() ==> (#[trigger] out@[i].is_anomaly
                ==> out@[i].current_shares_sold > 0),
        decreases keys@.len() - ti,
    {
        let key: Vec<u8> = clone_bytes(&keys[ti]);
        let ghost t: Seq<u8> = key@;
        proof {
            assert(keys@.map_values(|x: Vec<u8>| x@)[ti as int] == t);
            assert(tickers_of(vs)[ti as int] == t);
        }
        // Distinct transaction days of this ticker, first-appearance order.
        let mut dates: Vec<i64> = Vec::new();
        let mut k2: usize = 0;
        while k2 < daily.len()
            invariant
                k2 <= daily@.len(),
                daily@.map_values(|d: DailyVolume| volume_view(d)) == vs,
                daily@.len() == vs.len(),
                t == key@,
                dates@ == dates_of(vs.take(k2 as int), t),
            decreases daily@.len() - k2,
        {
            proof {
                assert(volume_view(daily@[k2 as int]) == vs[k2 as int]);
                assert(vs.take(k2 + 1).drop_last() =~= vs.take(k2 as int));
                assert(vs.take(k2 + 1).last() == vs[k2 as int]);
            }
            if bytes_eq(&daily[k2].ticker, &key) {
                if !contains_date(&dates, daily[k2].date) {
                    dates.push(daily[k2].date);
                }
            }
            k2 = k2 + 1;
        }
        proof {
            assert(vs.take(vs.len() as int) =~= vs);
            assert(dates@ == dates_of(vs, t));
        }
        // Per-day totals of this ticker.
        let mut totals: Vec<i128> = Vec::new();
        let mut di: usize = 0;
        while di < dates.len()
            invariant
                di <= dates@.len(),
                daily@.map_values(|d: DailyVolume| volume_view(d)) == vs,
                daily@.len() == vs.len() <= MAX_RECORDS,
                forall|i: int| 0 <= i < vs.len() ==> 0 <= #[trigger] vs[i].shares <= MAX_SHARES,
                t == key@,
                totals@.len() == di,
                forall|x: int| 0 <= x < di ==> #[trigger] totals@[x] == total_of(
                    vs,
                    t,
                    dates@[x],
                ) && 0 <= totals@[x] <= 10_000_000_000_000_000,
            decreases dates@.len() - di,
        {
            let d: i64 = dates[di];
            let mut tot: i128 = 0;
            let mut k3: usize = 0;
            while k3 < daily.len()
                invariant
                    k3 <= daily@.len(),
                    daily@.map_values(|dd: DailyVolume| volume_view(dd)) == vs,
                    daily@.len() == vs.len() <= MAX_RECORDS,
                    forall|i: int| 0 <= i < vs.len() ==> 0 <= #[trigger] vs[i].shares
                        <= MAX_SHARES,
                    t == key@,
                    tot == total_of(vs.take(k3 as int), t, d),
                    0 <= tot <= 1_000_000_000_000 * (k3 as int),
                decreases daily@.len() - k3,
            {
                proof {
                    assert(volume_view(daily@[k3 as int]) == vs[k3 as int]);
                    assert(vs.take(k3 + 1).drop_last() =~= vs.take(k3 as int));
                    assert(vs.take(k3 + 1).last() == vs[k3 as int]);
                    assert(MAX_SHARES == 1_000_000_000_000i64);
                    assert(0 <= vs[k3 as int].shares <= 1_000_000_000_000);
                }
                if daily[k3].date == d {
                    if bytes_eq(&daily[k3].ticker, &key) {
                        tot = tot + (daily[k3].shares as i128);
                    }
                }
                k3 = k3 + 1;
            }
            proof {
                assert(vs.take(vs.len() as int) =~= vs);
                assert(tot == total_of(vs, t, d));
            }
            totals.push(tot);
            di = di + 1;
        }
        // Baseline list and current-window total.
        let baseline_end: i64 = as_of - current_days;
        let baseline_start: i64 = baseline_end - baseline_days;
        let mut b: Vec<i128> = Vec::new();
        let mut cur: i128 = 0;
        let mut di2: usize = 0;
        while di2 < dates.len()
            invariant
                di2 <= dates@.len(),
                t == key@,
                dates@ == dates_of(vs, t),
                totals@.len() == dates@.len(),
                forall|x: int| 0 <= x < dates@.len() ==> #[trigger] totals@[x] == total_of(
                    vs,
                    t,
                    dates@[x],
                ) && 0 <= totals@[x] <= 10_000_000_000_000_000,
                as_of_i == as_of as int,
                bd_i == baseline_days as int,
                cd_i == current_days as int,
                baseline_end == as_of - current_days,
                baseline_start == baseline_end - baseline_days,
                0 <= baseline_days <= 1_000_000_000,
                0 <= current_days <= 1_000_000_000,
                -1_000_000_000_000 <= as_of <= 1_000_000_000_000,
                b@.map_values(|v: i128| v as int) == baseline_totals(
                    vs,
                    t,
                    dates@.take(di2 as int),
                    as_of_i,
                    bd_i,
                    cd_i,
                ),
                forall|x: int| 0 <= x < b@.len() ==> 0 <= #[trigger] b@[x]
                    <= 10_000_000_000_000_000,
                b@.len() <= di2,
                cur == current_total(vs, t, dates@.take(di2 as int), as_of_i, cd_i),
                0 <= cur <= 10_000_000_000_000_000 * (di2 as int),
            decreases dates@.len() - di2,
        {
            let d: i64 = dates[di2];
            let tot: i128 = totals[di2];
            proof {
                assert(tot == total_of(vs, t, d));
                assert(dates@.take(di2 + 1).drop_last() =~= dates@.take(di2 as int));
                assert(dates@.take(di2 + 1).last() == d);
            }
            let ghost old_b = b@;
            if baseline_start <= d && d < baseline_end {
                b.push(tot);
                proof {
                    assert(b@.map_values(|v: i128| v as int) =~= old_b.map_values(
                        |v: i128| v as int,
                    ).push(tot as int));
                }
            }
            if baseline_end <= d && d <= as_of {
                cur = cur + tot;
            }
            proof {
                assert(in_baseline(d as int, as_of_i, bd_i, cd_i) == (baseline_start <= d && d
                    < baseline_end));
                assert(in_current(d as int, as_of_i, cd_i) == (baseline_end <= d && d <= as_of));
            }
            di2 = di2 + 1;
        }
        proof {
            assert(dates@.take(dates@.len() as int) =~= dates@);
        }
        proof {
            lemma_dates_of_len(vs, t);
            assert(dates@.len() <= 10_000);
            assert(b@.len() <= 10_000);
            assert(0 <= cur <= 100_000_000_000_000_000_000);
        }
        let ghost bm_model = baseline_totals(vs, t, dates_of(vs, t), as_of_i, bd_i, cd_i);
        let ghost cur_model = current_total(vs, t, dates_of(vs, t), as_of_i, cd_i);
        proof {
            assert(b@.map_values(|v: i128| v as int) == bm_model);
            assert(cur == cur_model);
            assert(b@.len() == bm_model.len());
        }
        // The signal of this ticker.
        let sig: AnomalySignal = if b.len() < min_baseline_points {
            AnomalySignal {
                ticker: key,
                current_shares_sold: cur,
                baseline_mean: 0,
                baseline_std: 0,
                z_score: 0,
                is_anomaly: false,
            }
        } else {
            let ms = mean_std(&b);
            let baseline_mean: i128 = ms.0;
            let baseline_std: i128 = ms.1;
            let std_safe: i128 = if baseline_std <= 0 {
                1
            } else {
                baseline_std
            };
            let num_days: i64 = if current_days < 1 {
                1
            } else {
                current_days
            };
            let current_avg_daily: i128 = cur / (num_days as i128);
            proof {
                vstd::arithmetic::div_mod::lemma_div_pos_is_pos(cur as int, num_days as int);
                vstd::arithmetic::div_mod::lemma_div_nonincreasing(cur as int, num_days as int);
                assert(current_avg_daily as int == div_trunc(cur as int, num_days as int));
                assert(0 <= current_avg_daily <= 100_000_000_000_000_000_000);
                assert(-10_000_000_000_000_000 <= current_avg_daily - baseline_mean
                    <= 100_000_000_000_000_000_000);
            }
            let z: i128 = div_trunc_i128((current_avg_daily - baseline_mean) * SCALE, std_safe);
            AnomalySignal {
                ticker: key,
                current_shares_sold: cur,
                baseline_mean,
                baseline_std,
                z_score: z,
                is_anomaly: z >= (std_threshold as i128) && cur > 0,
            }
        };
        let ghost model = signal_model(vs, t, as_of_i, bd_i, cd_i, thr_i, minp_i);
        proof {
            assert(signal_view(sig) == model);
            assert(unsorted[ti as int] == model);
            assert(sig.is_anomaly ==> sig.current_shares_sold > 0);
        }
        // Insert in sorted position: in front of the first strictly
        // smaller z-score, so equal scores keep first-appearance order.
        let ghost old_view = out@.map_values(|s: AnomalySignal| signal_view(s));
        let mut idx: usize = 0;
        while idx < out.len() && out[idx].z_score >= sig.z_score
            invariant
                idx <= out@.len(),
                out@.map_values(|s: AnomalySignal| signal_view(s)) == old_view,
                forall|x: int| 0 <= x < idx ==> #[trigger] old_view[x].z_score
                    >= signal_view(sig).z_score,
            decreases out@.len() - idx,
        {
            proof {
                assert(old_view[idx as int].z_score == out@[idx as int].z_score as int);
            }
            idx = idx + 1;
        }
        proof {
            if idx < out@.len() {
                assert(out@[idx as int].z_score < sig.z_score);
                assert(old_view[idx as int].z_score < signal_view(sig).z_score);
            }
            lemma_insert_desc_at(old_view, signal_view(sig), idx as int);
        }
        out.insert(idx, sig);
        proof {
            assert(out@.map_values(|s: AnomalySignal| signal_view(s)) =~= old_view.insert(
                idx as int,
                signal_view(sig),
            ));
            assert(unsorted.take(ti + 1).drop_last() =~= unsorted.take(ti as int));
            assert(unsorted.take(ti + 1).last() == unsorted[ti as int]);
            assert(sort_desc(unsorted.take(ti + 1)) == insert_desc(
                sort_desc(unsorted.take(ti as int)),
                unsorted[ti as int],
            ));
        }
        ti = ti + 1;
    }
    proof {
        assert(unsorted.take(unsorted.len() as int) =~= unsorted);
    }
    out
}

} // verus!
