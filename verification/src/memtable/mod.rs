//! In-memory write buffer (memtable).
//!
//! The memtable holds the engine's recent writes before they are flushed to
//! an SSTable. Writes land in the active memtable; reads consult the active
//! memtable first, then immutable memtables waiting to flush, then the
//! SSTables.
pub mod arena;
pub mod skiplist;

pub use skiplist::{OpType, SkipList};
