//! Per-block crypto envelope: nonce derivation and AAD construction.
//!
//! Within one SSTable, which has a key of its own, every block is encrypted
//! under a nonce derived from the block index. The nonce (12 bytes) is:
//!
//! ```text
//!   [0..4]   format tag        the bytes "NONC"
//!   [4..12]  block_index       u64 LE
//! ```
//!
//! Every encrypted block also carries 16 bytes of associated data:
//!
//! ```text
//!   [0..8]   sstable_id        u64 LE
//!   [8..16]  block_index       u64 LE
//! ```
use vstd::prelude::*;

use crate::crypto::aead::{Nonce, NONCE_LEN};
use crate::encoding::fixed::{lemma_u64_le_injective, push_u32, push_u64, u32_le, u64_le};

verus! {

/// Format tag at the front of every nonce. Its little-endian bytes spell
/// `"NONC"`.
pub const NONCE_FORMAT_TAG: u32 = 0x434E_4F4E;

/// Wrapper around a derived per-block nonce.
#[derive(Debug, Clone, Copy, PartialEq, Eq)]
pub struct BlockNonce(pub Nonce);

impl BlockNonce {
    /// Borrow the underlying [`Nonce`].
    pub fn as_nonce(&self) -> (n: &Nonce)
        ensures
            *n == self.0,
    {
        &self.0
    }
}

/// The nonce for a block index.
pub open spec fn block_nonce(block_index: u64) -> Seq<u8> {
    u32_le(NONCE_FORMAT_TAG) + u64_le(block_index)
}

/// The associated data for a block of a table.
pub open spec fn block_aad_bytes(sstable_id: u64, block_index: u64) -> Seq<u8> {
    u64_le(sstable_id) + u64_le(block_index)
}

/// Law: a nonce is the letters `NONC` and the block's index, and the associated data
/// the table's number and the block's index: eight bytes each, the low one first.
pub proof fn law_layout(sstable_id: u64, block_index: u64)
    ensures
        block_nonce(block_index).len() == 12,
        block_nonce(block_index).subrange(0, 4) == seq![0x4Eu8, 0x4F, 0x4E, 0x43],
        block_nonce(block_index).subrange(4, 12) == u64_le(block_index),
        block_aad_bytes(sstable_id, block_index).len() == 16,
        block_aad_bytes(sstable_id, block_index).subrange(0, 8) == u64_le(sstable_id),
        block_aad_bytes(sstable_id, block_index).subrange(8, 16) == u64_le(block_index),
{
    let n = block_nonce(block_index);
    let a = block_aad_bytes(sstable_id, block_index);
    assert(n.subrange(0, 4) =~= seq![0x4Eu8, 0x4F, 0x4E, 0x43]);
    assert(n.subrange(4, 12) =~= u64_le(block_index));
    assert(a.subrange(0, 8) =~= u64_le(sstable_id));
    assert(a.subrange(8, 16) =~= u64_le(block_index));
}

/// Law: distinct block indices have distinct nonces, so within one table no
/// nonce is used twice.
pub proof fn law_nonces_are_distinct(a: u64, b: u64)
    requires
        block_nonce(a) == block_nonce(b),
    ensures
        a == b,
{
    assert(block_nonce(a).subrange(4, 12) =~= u64_le(a));
    assert(block_nonce(b).subrange(4, 12) =~= u64_le(b));
    lemma_u64_le_injective(a, b);
}

/// Law: distinct places have distinct associated data, so a block cannot be
/// taken for one of another place.
pub proof fn law_aads_are_distinct(table_a: u64, block_a: u64, table_b: u64, block_b: u64)
    requires
        block_aad_bytes(table_a, block_a) == block_aad_bytes(table_b, block_b),
    ensures
        table_a == table_b,
        block_a == block_b,
{
    let x = block_aad_bytes(table_a, block_a);
    let y = block_aad_bytes(table_b, block_b);
    assert(x.subrange(0, 8) =~= u64_le(table_a));
    assert(y.subrange(0, 8) =~= u64_le(table_b));
    assert(x.subrange(8, 16) =~= u64_le(block_a));
    assert(y.subrange(8, 16) =~= u64_le(block_b));
    lemma_u64_le_injective(table_a, table_b);
    lemma_u64_le_injective(block_a, block_b);
}

/// Derive a 96-bit nonce from a block index.
pub fn derive_block_nonce(block_index: u64) -> (n: BlockNonce)
    ensures
        n.0.0@ == block_nonce(block_index),
{
    let mut v: Vec<u8> = Vec::new();
    push_u32(&mut v, NONCE_FORMAT_TAG);
    push_u64(&mut v, block_index);
    let bytes: [u8; NONCE_LEN] = [
        v[0], v[1], v[2], v[3], v[4], v[5], v[6], v[7], v[8], v[9], v[10], v[11],
    ];
    assert(bytes@ =~= block_nonce(block_index));
    BlockNonce(Nonce::from_bytes(bytes))
}

/// Build the 16-byte AAD for an encrypted block.
pub fn block_aad(sstable_id: u64, block_index: u64) -> (aad: [u8; 16])
    ensures
        aad@ == block_aad_bytes(sstable_id, block_index),
{
    let mut v: Vec<u8> = Vec::new();
    push_u64(&mut v, sstable_id);
    push_u64(&mut v, block_index);
    let aad: [u8; 16] = [
        v[0], v[1], v[2], v[3], v[4], v[5], v[6], v[7], v[8], v[9], v[10], v[11], v[12], v[13],
        v[14], v[15],
    ];
    assert(aad@ =~= block_aad_bytes(sstable_id, block_index));
    aad
}

} // verus!
