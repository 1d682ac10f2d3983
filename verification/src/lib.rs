//! Insider-selling anomaly signals and quarterly price trends.
//!
//! Two independent, pure engines over fixed-point numbers:
//! the anomaly engine aggregates per-ticker daily insider-sale volume,
//! splits history into a baseline and a current window around a reference
//! date, and flags tickers whose current selling rate deviates from the
//! baseline by a z-score threshold; the trend engine computes a quarterly
//! percentage return and an ordinary-least-squares slope from a series of
//! closing prices.
//!
//! All quantities (shares, prices, thresholds, returns, slopes) are held
//! in micro-units: an integer `n` stands for the real number `n / 1_000_000`.
//! Calendar dates are day numbers: any affine mapping from calendar dates
//! to consecutive integers works, since only differences and comparisons
//! of dates are used.

pub mod anomaly;
pub mod models;
pub mod num;
pub mod trend;

pub use anomaly::{compute_anomaly_signals, AnomalySignal};
pub use models::InsiderSellRecord;
pub use num::SCALE;
pub use trend::{quarterly_trend, QuarterlyTrend};
