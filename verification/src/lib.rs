//! Per-station summary statistics over delimited `station;temperature` text,
//! computed by chunked scanning with boundary correction, chunk-local
//! aggregation, and a commutative merge into a global map.
//!
//! Temperatures are modelled as fixed-point values in tenths of a unit, so
//! that every statistic (minimum, mean, maximum) is exact integer arithmetic
//! and the one-decimal output format is reproduced exactly.

pub mod records;
pub mod splitter;
pub mod parse;
pub mod scan;
pub mod table;
pub mod aggregate;
pub mod chunk;
pub mod merge;
pub mod report;
