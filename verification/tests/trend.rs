use vibes_core::quarterly_trend;

/// Micro-units of a price given in hundredths (cents).
fn cents(c: i64) -> i64 {
    c * 10_000
}

#[test]
fn test_quarterly_trend() {
    // 65 closes, 100.0, 100.5, 101.0, ...: strictly increasing by 0.5/day.
    let closes: Vec<i64> = (0..65).map(|i| 100_000_000 + i * 500_000).collect();
    let t = quarterly_trend(&closes).unwrap();
    assert!(t.quarter_pct > 0);
    assert!(t.slope > 0);
    // The lookback is min(63, 65/2) = 32, so the window is an exact
    // arithmetic progression: the OLS slope is exactly 0.5 per day.
    assert_eq!(t.slope, 500_000);
    assert_eq!(t.last, 132_000_000);
    // prev = closes[33] = 116.5; q_return = 132.0/116.5 - 1, truncated.
    assert_eq!(t.q_return, 133_047);
    assert_eq!(t.quarter_pct, 13_304_700);
}

#[test]
fn lookback_never_exceeds_half_the_data() {
    // 64 positive closes: the lookback is min(63, 64/2) = 32, so the
    // return anchors 32 points back, where the price is 2.0 -- not at the
    // early outlier of 1.0, which a full 63-day lookback would hit.
    let mut closes: Vec<i64> = vec![2_000_000; 64];
    closes[1] = 1_000_000;
    let t = quarterly_trend(&closes).unwrap();
    assert_eq!(t.q_return, 0);
    assert_eq!(t.quarter_pct, 0);
}

#[test]
fn return_stays_strictly_above_minus_one() {
    // Anchor 10.0, last 0.000001: the true return is above -100%, and
    // the truncated ratio is raised to one micro-unit so the reported
    // return is too.
    let mut closes: Vec<i64> = vec![10_000_000; 30];
    closes[29] = 1;
    let t = quarterly_trend(&closes).unwrap();
    assert_eq!(t.last, 1);
    assert_eq!(t.q_return, -999_999);
    assert!(t.q_return > -1_000_000);
    assert_eq!(t.quarter_pct, -99_999_900);
}

#[test]
fn fewer_than_thirty_points_no_trend() {
    let closes: Vec<i64> = (0..29).map(|i| cents(10_000) + i * cents(1)).collect();
    assert!(quarterly_trend(&closes).is_none());
}

#[test]
fn nonpositive_prices_do_not_count() {
    // 40 values, none positive: no trend.
    let zeros: Vec<i64> = vec![0; 40];
    assert!(quarterly_trend(&zeros).is_none());
    let negatives: Vec<i64> = vec![-cents(100); 40];
    assert!(quarterly_trend(&negatives).is_none());
}

#[test]
fn filtering_keeps_exactly_the_positive_prices() {
    // 35 values of which 5 are invalid: 30 positive remain, so a trend
    // is produced from the filtered series with lookback 15.
    let mut closes: Vec<i64> = Vec::new();
    for i in 0..30 {
        closes.push(cents(20_000) + i * cents(10));
        if i % 6 == 0 {
            closes.push(0);
        }
    }
    let t = quarterly_trend(&closes).unwrap();
    // The filtered series is an exact progression of 0.1/day: the
    // 15-point window has slope exactly 0.1.
    assert_eq!(t.slope, 100_000);
    assert_eq!(t.last, cents(20_290));
}

#[test]
fn constant_prices_flat_trend() {
    let closes: Vec<i64> = vec![cents(12_345); 64];
    let t = quarterly_trend(&closes).unwrap();
    assert_eq!(t.slope, 0);
    assert_eq!(t.q_return, 0);
    assert_eq!(t.quarter_pct, 0);
    assert_eq!(t.last, cents(12_345));
}

#[test]
fn trend_is_deterministic() {
    let closes: Vec<i64> = (0..80).map(|i| 90_000_000 + (i % 7) * 250_000).collect();
    let a = quarterly_trend(&closes);
    let b = quarterly_trend(&closes);
    assert_eq!(a, b);
}
