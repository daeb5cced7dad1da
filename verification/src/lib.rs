//! Recovery of timer records from a corrupted JSON log stream, and exact
//! descriptive statistics over the recovered elapsed-time values.
//!
//! The pipeline is: raw bytes -> record splitter (`split`) -> candidate
//! substrings -> record parser (`record`) -> timer records or failure
//! descriptors -> aggregator (`extract`) -> buckets of elapsed values ->
//! statistics engine (`stats`, `report`).
//!
//! All statistics are computed in exact integer arithmetic: a mean is carried
//! as the pair (sum, count) and the z-score outlier test is decided by exact
//! cross-multiplication, so no rounding ever enters a decision.

pub mod extract;
pub mod json;
pub mod order;
pub mod record;
pub mod report;
pub mod split;
pub mod stats;

pub use extract::ExtractedData;
pub use extract::extract_data;
pub use record::FailedEntry;
pub use record::TimerInfo;
pub use record::parse_entry;
pub use record::parse_records;
pub use report::PerChainTimerStatistics;
pub use report::TimerStatistics;
pub use report::parse_per_chain_infos;
pub use report::parse_total_infos;
pub use report::parse_total_infos_with_filter;
pub use split::split_records;
pub use stats::Z_THRESHOLD;
pub use stats::compute_max;
pub use stats::compute_min;
pub use stats::compute_percentile;
pub use stats::compute_sum;
pub use stats::compute_sum_sq;
pub use stats::filter_outliers;
pub use stats::sample_variance;
pub use stats::sort_values;
pub use stats::z_score;
