//! Top-level engine: the public-facing key-value store.
pub mod db;
pub mod disk;
pub mod flush;
pub mod history;
pub mod laws;
pub mod names;
pub mod range;
pub mod recovery;
pub mod state;

pub use db::Db;
pub use state::{DbConfig, EngineState, ImmutableMemtable, LiveSst, Snapshot};
