//! Per-key summary statistics (minimum, maximum, mean) over an append-only
//! corpus of `key;value` text records, one record per line.
//!
//! The crate provides the full aggregation engine: planning record-aligned
//! chunks of the input, scanning a chunk into exact per-key running
//! aggregates, merging partial results, and rounding the final figures to one
//! fractional digit.  Values are fixed-precision decimals with one fractional
//! digit and are handled throughout as scaled integers (tenths), so
//! accumulation is exact at any count.

pub mod decimal;
pub mod engine;
pub mod error;
pub mod laws;
pub mod planner;
pub mod records;
pub mod stats;
pub mod summary;
