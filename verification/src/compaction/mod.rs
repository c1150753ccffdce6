//! Compaction: merge multiple SSTables into one.
//!
//! Without compaction the engine accumulates one SSTable per memtable flush,
//! and the work per point lookup grows with their number. Compaction folds
//! the input tables into a single output table. It keeps every version of
//! every key: the benefit is that fewer tables are consulted.
pub mod compact;
pub mod merger;


pub use compact::compact_sstables;
pub use merger::KWayMerge;
