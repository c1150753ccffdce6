//! Sorted String Table (SSTable): on-disk format and access layer.
pub mod block;
pub mod flag;
pub mod format;
pub mod reader;
pub mod table;
pub mod writer;

pub use reader::SstReader;
pub use writer::SstWriter;
