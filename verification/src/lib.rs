//! A log-structured merge-tree key-value store whose behaviour is stated in
//! contracts and proved by Verus.
//!
//! - [`engine`]: the store itself. [`Db`] keeps a history of writes in
//!   memtables and tables; reading is looking up in that history.
//! - [`wal`]: the write-ahead log that makes writes durable.
//! - [`memtable`]: the in-memory buffer that writes go to first.
//! - [`sstable`]: the sorted tables that memtables are flushed to.
//! - [`compaction`]: merging tables.
//! - [`filter`]: the Bloom filters in the tables.
//! - [`crypto`]: encryption of tables at rest.
//! - [`checksum`], [`encoding`]: checksums, integers and texts.
//! - [`io`]: the file system that everything above is written against.
//! - [`model`]: entries, their order, and what a lookup finds.
//! - [`server`]: what the HTTP front-end decides.
//! - [`error`]: the error tree shared by every module.
pub mod checksum;
pub mod compaction;
pub mod crypto;
pub mod encoding;
pub mod engine;
pub mod error;
pub mod filter;
pub mod io;
pub mod memtable;
pub mod model;
pub mod server;
pub mod sstable;
pub mod wal;

pub use engine::Db;
pub use error::{Error, Result};
