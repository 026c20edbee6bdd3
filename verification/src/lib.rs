//! Batch aggregation of `key;value` text records.
//!
//! The library scans a byte buffer of newline-terminated records, parses each
//! value with a restricted fixed-point grammar, folds the values per key into
//! running statistics (minimum, maximum, sum, count), and projects the final
//! table into lines sorted lexicographically by key. Chunk partitioning lets a
//! caller split the buffer at record boundaries and aggregate the pieces
//! independently before merging.

pub mod acc;
pub mod engine;
pub mod key;
pub mod output;
pub mod parse;
pub mod scan;
pub mod table;
