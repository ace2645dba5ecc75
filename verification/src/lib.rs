//! Per-key minimum, maximum and mean over delimited text records.
//!
//! Each input line carries a key and a decimal reading. Lines are grouped
//! into batches, every batch is folded into a mapping from key to
//! accumulator, and the mappings are combined pairwise into one. Readings are
//! held as exact fixed-point integers, so combining accumulators is truly
//! associative and commutative and the outcome never depends on how the
//! input was cut into batches or in which order the batches were combined.

pub mod aggregate;
pub mod dispatch;
pub mod key;
pub mod merge;
pub mod pipeline;
pub mod reading;
pub mod record;
pub mod reduce;
pub mod stats;
pub mod stats_map;
pub mod summary;
pub mod trim;

pub use stats::TempStats;
pub use stats_map::StatsMap;
pub use summary::Summary;
