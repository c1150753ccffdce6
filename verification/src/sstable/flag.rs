//! Bit flags for the `flags` field of an SSTable file header.
use vstd::prelude::*;

verus! {

/// Block payloads carry an end-of-block checksum.
pub const CHECKSUMMED: u32 = 1;

/// Data block payloads are encrypted with AES-256-GCM.
pub const ENCRYPTED: u32 = 2;

} // verus!
