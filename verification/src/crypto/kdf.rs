//! HKDF-SHA256 key derivation, from the `hkdf` and `sha2` crates.
//!
//! The engine never uses the operator's master key directly: every SSTable is
//! encrypted under a subkey derived from the master key and the table's file
//! number.
use vstd::prelude::*;
use vstd::string::*;

use hkdf::Hkdf;
use sha2::Sha256;

use crate::crypto::aead::{AeadKey, KEY_LEN};
use crate::encoding::fixed::{lemma_u64_le_injective, push_bytes, push_u64, u64_le};

verus! {

/// The 32 bytes that HKDF-SHA256, without a salt, gives for input key
/// material and an info string.
pub uninterp spec fn hkdf_sha256(ikm: Seq<u8>, info: Seq<u8>) -> Seq<u8>;

/// Calls `Hkdf::<Sha256>::new` without a salt, and `expand` for 32 bytes,
/// which is within its limit. Claimed of it: the result is a function of the
/// two arguments.
#[verifier::external_body]
fn expand(ikm: &[u8; KEY_LEN], info: &[u8]) -> (okm: [u8; KEY_LEN])
    ensures
        okm@ == hkdf_sha256(ikm@, info@),
{
    let hk = Hkdf::<Sha256>::new(None, ikm);
    let mut okm = [0u8; KEY_LEN];
    hk.expand(info, &mut okm).expect("HKDF expand cannot fail for 32-byte output");
    okm
}

/// Wrapper around the user's master key. It has no text form, so that a key
/// cannot end up in a log.
pub struct MasterKey([u8; KEY_LEN]);

impl View for MasterKey {
    type V = Seq<u8>;

    closed spec fn view(&self) -> Seq<u8> {
        self.0@
    }
}

impl MasterKey {
    /// Construct a master key from raw bytes.
    pub fn from_bytes(bytes: [u8; KEY_LEN]) -> (k: MasterKey)
        ensures
            k@ == bytes@,
    {
        MasterKey(bytes)
    }

    /// Borrow the raw bytes. Treat the byte view as secret.
    pub fn as_bytes(&self) -> (b: &[u8; KEY_LEN])
        ensures
            b@ == self@,
    {
        &self.0
    }
}

impl Clone for MasterKey {
    fn clone(&self) -> (k: MasterKey)
        ensures
            k@ == self@,
    {
        MasterKey(self.0)
    }
}

/// The info string of an SSTable: a fixed prefix that separates domains, then
/// the table's id.
pub open spec fn sstable_info(sstable_id: u64) -> Seq<u8> {
    "paddockkv:sstable:v1:".spec_bytes() + u64_le(sstable_id)
}

/// The key of an SSTable.
pub open spec fn sstable_key(master: Seq<u8>, sstable_id: u64) -> Seq<u8> {
    hkdf_sha256(master, sstable_info(sstable_id))
}

/// Law: a table's info string begins with the prefix that keeps it apart from those
/// of other uses, and ends with the table's number in eight bytes. Its key is what the
/// master key expands to under that string.
pub proof fn law_info_has_its_own_prefix(master: Seq<u8>, sstable_id: u64)
    ensures
        ({
            let prefix = "paddockkv:sstable:v1:".spec_bytes();
            let info = sstable_info(sstable_id);
            let n = prefix.len() as int;
            &&& info.len() == n + 8
            &&& info.subrange(0, n) == prefix
            &&& info.subrange(n, n + 8) == u64_le(sstable_id)
            &&& sstable_key(master, sstable_id) == hkdf_sha256(master, info)
        }),
{
    let prefix = "paddockkv:sstable:v1:".spec_bytes();
    let info = sstable_info(sstable_id);
    let n = prefix.len() as int;
    assert(info.subrange(0, n) =~= prefix);
    assert(info.subrange(n, n + 8) =~= u64_le(sstable_id));
}

/// Law: distinct tables have distinct info strings.
pub proof fn law_sstable_info_injective(a: u64, b: u64)
    requires
        sstable_info(a) == sstable_info(b),
    ensures
        a == b,
{
    let n = "paddockkv:sstable:v1:".spec_bytes().len() as int;
    assert(sstable_info(a).subrange(n, sstable_info(a).len() as int) =~= u64_le(a));
    assert(sstable_info(b).subrange(n, sstable_info(b).len() as int) =~= u64_le(b));
    lemma_u64_le_injective(a, b);
}

/// Derive a per-SSTable AES-256-GCM key from the master key.
pub fn derive_sstable_key(master: &MasterKey, sstable_id: u64) -> (k: AeadKey)
    ensures
        k@ == sstable_key(master@, sstable_id),
{
    let mut info: Vec<u8> = Vec::new();
    push_bytes(&mut info, "paddockkv:sstable:v1:".as_bytes());
    push_u64(&mut info, sstable_id);
    assert(info@ =~= sstable_info(sstable_id));
    AeadKey::from_bytes(expand(master.as_bytes(), info.as_slice()))
}

} // verus!
