//! Byte-level encodings used by every on-disk structure.
pub mod fixed;
pub mod order;
pub mod text;
pub mod varint;
