//! Write-ahead log: segments of checksummed records in fixed-size blocks.
pub mod batch;
pub mod format;
pub mod reader;
pub mod writer;
