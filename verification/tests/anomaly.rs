use chrono::Datelike;
use vibes_core::{compute_anomaly_signals, InsiderSellRecord};

/// Day number of a calendar date, written `YYYY-MM-DD`.
fn day(date: &str) -> i64 {
    chrono::NaiveDate::parse_from_str(date, "%Y-%m-%d")
        .unwrap()
        .num_days_from_ce() as i64
}

/// Micro-units of a whole share count.
fn micro(shares: i64) -> i64 {
    shares * 1_000_000
}

fn make_record(ticker: &str, date: &str, shares_micro: i64) -> InsiderSellRecord {
    InsiderSellRecord {
        ticker: ticker.as_bytes().to_vec(),
        company_name: None,
        insider_name: None,
        role: None,
        transaction_date: day(date),
        filing_date: None,
        shares_sold: shares_micro,
        value_usd: None,
        source: "test".to_string(),
    }
}

#[test]
fn test_anomaly_detection() {
    let records = vec![
        make_record("AAPL", "2024-01-05", micro(1000)),
        make_record("AAPL", "2024-01-06", micro(500)),
        make_record("AAPL", "2024-02-01", micro(5000)),
    ];
    let as_of = day("2024-02-02");
    let signals = compute_anomaly_signals(&records, 365, 30, micro(2) as i64, 2, as_of);
    assert!(!signals.is_empty());
    // All three dates fall inside the 30-day current window
    // [2024-01-03, 2024-02-02]; the baseline window holds no data, which
    // is below the two-point minimum, so the statistics are floored.
    assert_eq!(signals.len(), 1);
    assert_eq!(signals[0].ticker, b"AAPL".to_vec());
    assert_eq!(signals[0].current_shares_sold, micro(6500) as i128);
    assert_eq!(signals[0].baseline_mean, 0);
    assert_eq!(signals[0].baseline_std, 0);
    assert_eq!(signals[0].z_score, 0);
    assert!(!signals[0].is_anomaly);
}

#[test]
fn z_score_formula_exact() {
    // Baseline days 2023-06-01 and 2023-06-02 hold totals 1000 and 500:
    // mean 750, population std 250. The current window (30 days up to
    // 2024-02-02) holds 5000 on 2024-02-01.
    let records = vec![
        make_record("AAPL", "2023-06-01", micro(1000)),
        make_record("AAPL", "2023-06-02", micro(500)),
        make_record("AAPL", "2024-02-01", micro(5000)),
    ];
    let as_of = day("2024-02-02");
    let signals = compute_anomaly_signals(&records, 365, 30, micro(2) as i64, 2, as_of);
    assert_eq!(signals.len(), 1);
    let s = &signals[0];
    assert_eq!(s.baseline_mean, micro(750) as i128);
    assert_eq!(s.baseline_std, micro(250) as i128);
    assert_eq!(s.current_shares_sold, micro(5000) as i128);
    // avg = 5_000_000_000 / 30 = 166_666_666; z = (avg - mean) * 1e6 / std.
    assert_eq!(s.z_score, -2_333_333);
    assert!(!s.is_anomaly);
}

#[test]
fn aggregation_additive_and_order_independent() {
    // Two same-day transactions are additive; any input order gives the
    // same totals.
    let a = vec![
        make_record("AAPL", "2023-06-01", micro(300)),
        make_record("AAPL", "2023-06-01", micro(700)),
        make_record("AAPL", "2023-06-02", micro(500)),
    ];
    let b = vec![a[2].clone(), a[1].clone(), a[0].clone()];
    let as_of = day("2024-02-02");
    let sa = compute_anomaly_signals(&a, 365, 30, micro(2), 2, as_of);
    let sb = compute_anomaly_signals(&b, 365, 30, micro(2), 2, as_of);
    assert_eq!(sa.len(), 1);
    // mean of {1000, 500} = 750 either way.
    assert_eq!(sa[0].baseline_mean, micro(750) as i128);
    assert_eq!(sa, sb);
}

#[test]
fn ticker_case_variants_merge() {
    let records = vec![
        make_record("aapl", "2023-06-01", micro(1000)),
        make_record("AAPL", "2023-06-01", micro(500)),
    ];
    let as_of = day("2024-02-02");
    let signals = compute_anomaly_signals(&records, 365, 30, micro(2), 1, as_of);
    assert_eq!(signals.len(), 1);
    assert_eq!(signals[0].ticker, b"AAPL".to_vec());
    assert_eq!(signals[0].baseline_mean, micro(1500) as i128);
}

#[test]
fn boundary_date_counts_as_current_only() {
    // The date exactly current_days before as_of opens the current window
    // and is excluded from the baseline window.
    let records = vec![make_record("MSFT", "2024-01-28", micro(100))];
    let as_of = day("2024-02-02");
    let signals = compute_anomaly_signals(&records, 10, 5, micro(2), 1, as_of);
    assert_eq!(signals.len(), 1);
    // Baseline has no data point, so the floor applies, yet the
    // current-window total reports the boundary-day shares.
    assert_eq!(signals[0].current_shares_sold, micro(100) as i128);
    assert_eq!(signals[0].z_score, 0);
    assert!(!signals[0].is_anomaly);
}

#[test]
fn insufficient_baseline_floors_statistics() {
    let records = vec![
        make_record("TSLA", "2023-06-01", micro(800)),
        make_record("TSLA", "2024-02-01", micro(9000)),
    ];
    let as_of = day("2024-02-02");
    // One baseline day with data, three required.
    let signals = compute_anomaly_signals(&records, 365, 30, micro(2), 3, as_of);
    assert_eq!(signals.len(), 1);
    assert_eq!(signals[0].current_shares_sold, micro(9000) as i128);
    assert_eq!(signals[0].baseline_mean, 0);
    assert_eq!(signals[0].baseline_std, 0);
    assert_eq!(signals[0].z_score, 0);
    assert!(!signals[0].is_anomaly);
}

#[test]
fn no_current_volume_is_never_anomalous() {
    // A negative threshold makes the z-score of a silent ticker exceed
    // the threshold; the positive-volume guard still holds the flag down.
    let records = vec![
        make_record("NVDA", "2023-06-01", micro(1000)),
        make_record("NVDA", "2023-06-02", micro(500)),
    ];
    let as_of = day("2024-02-02");
    let signals = compute_anomaly_signals(&records, 365, 30, -micro(10), 2, as_of);
    assert_eq!(signals.len(), 1);
    // z = (0 - 750) * 1e6 / 250e6 scaled: exactly -3.0.
    assert_eq!(signals[0].z_score, -3_000_000);
    assert!(signals[0].z_score >= -micro(10) as i128);
    assert_eq!(signals[0].current_shares_sold, 0);
    assert!(!signals[0].is_anomaly);
}

#[test]
fn signals_sorted_by_z_score_descending() {
    let records = vec![
        // Low z: heavy baseline, light current window.
        make_record("AAA", "2023-06-01", micro(1000)),
        make_record("AAA", "2023-06-02", micro(500)),
        make_record("AAA", "2024-02-01", micro(10)),
        // Insufficient baseline: z floored to zero.
        make_record("BBB", "2024-02-01", micro(100)),
        // High z: quiet baseline, heavy current window.
        make_record("CCC", "2023-06-01", micro(10)),
        make_record("CCC", "2023-06-02", micro(20)),
        make_record("CCC", "2024-02-01", micro(90000)),
    ];
    let as_of = day("2024-02-02");
    let signals = compute_anomaly_signals(&records, 365, 30, micro(2), 2, as_of);
    assert_eq!(signals.len(), 3);
    for w in signals.windows(2) {
        assert!(w[0].z_score >= w[1].z_score);
    }
    assert_eq!(signals[0].ticker, b"CCC".to_vec());
    assert!(signals[0].is_anomaly);
    assert_eq!(signals[2].ticker, b"AAA".to_vec());
}

#[test]
fn empty_input_empty_output() {
    let records: Vec<InsiderSellRecord> = Vec::new();
    let signals = compute_anomaly_signals(&records, 365, 30, micro(2), 2, day("2024-02-02"));
    assert!(signals.is_empty());
}

#[test]
fn identical_inputs_identical_outputs() {
    let records = vec![
        make_record("AAPL", "2023-06-01", micro(1000)),
        make_record("MSFT", "2023-06-02", micro(500)),
        make_record("AAPL", "2024-02-01", micro(5000)),
    ];
    let as_of = day("2024-02-02");
    let first = compute_anomaly_signals(&records, 365, 30, micro(2), 2, as_of);
    let second = compute_anomaly_signals(&records, 365, 30, micro(2), 2, as_of);
    assert_eq!(first, second);
}

#[test]
fn population_std_rounds_down() {
    // Baseline totals {1000, 500, 100}: mean floors to 533.333333,
    // the population variance is not a perfect square, and the standard
    // deviation floors to 368.178700.
    let records = vec![
        make_record("AMZN", "2023-06-01", micro(1000)),
        make_record("AMZN", "2023-06-02", micro(500)),
        make_record("AMZN", "2023-06-03", micro(100)),
        make_record("AMZN", "2024-02-01", micro(3000)),
    ];
    let as_of = day("2024-02-02");
    let signals = compute_anomaly_signals(&records, 365, 30, micro(2), 3, as_of);
    assert_eq!(signals.len(), 1);
    let s = &signals[0];
    assert_eq!(s.baseline_mean, 533_333_333);
    assert_eq!(s.baseline_std, 368_178_700);
    assert_eq!(s.z_score, -1_176_964);
    assert!(!s.is_anomaly);
}
