//! Approximate set-membership filters.
//!
//! The SSTable filter block holds a [`BlockedBloom`] over every key in the
//! table. A `false` answer is a definitive miss and lets the read path skip
//! the data block.
pub mod blocked_bloom;

pub use blocked_bloom::{BlockedBloom, BloomParams};
