//! Encryption at rest: AES-256-GCM, per-table keys, per-block nonces.
pub mod aead;
pub mod envelope;
pub mod kdf;

pub use aead::{Aead, AeadError, AeadKey, Nonce, TAG_LEN};
pub use envelope::{derive_block_nonce, BlockNonce};
pub use kdf::{derive_sstable_key, MasterKey};
