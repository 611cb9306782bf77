//! Benchmark harness core: seed-range parsing, the seed dispatcher, the
//! order-preserving result buffer, metric extraction, the best-score ledger
//! merge, and the bucketed report aggregator.
//!
//! Numeric scores are carried as total-order keys (`u64`) derived by the
//! caller so that key order agrees with the order of the underlying values;
//! an undefined score is `None`. All decisions the harness makes on scores
//! are comparisons, so the logic here is exact over those keys.

pub mod errors;
pub mod result;
pub mod dispatch;
pub mod buffer;
pub mod ledger;
pub mod text;
pub mod range;
pub mod rex;
pub mod extract;
pub mod relative;
pub mod bucket;
pub mod plan;
