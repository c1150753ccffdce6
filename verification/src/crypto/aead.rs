//! AES-256-GCM, from the `aes-gcm` crate.
//!
//! [`Aead::seal`] and [`Aead::open`] are the only operations the engine needs.
//! The associated data is authenticated but not encrypted; the 16-byte
//! authentication tag travels appended to the ciphertext.
use vstd::prelude::*;

use aes_gcm::aead::{Aead as AeadCipher, KeyInit, Payload};
use aes_gcm::{Aes256Gcm, Key};

verus! {

/// Authentication tag length in bytes.
pub const TAG_LEN: usize = 16;

/// AES-256-GCM key length in bytes.
pub const KEY_LEN: usize = 32;

/// GCM nonce length in bytes.
pub const NONCE_LEN: usize = 12;

/// Longest plaintext, and longest associated data, that the cipher takes.
pub const MAX_MESSAGE_LEN: u64 = 0x10_0000_0000;

/// What AES-256-GCM gives for a key, a nonce, associated data and a plaintext:
/// the ciphertext with its tag.
pub uninterp spec fn aes256gcm_sealed(
    key: Seq<u8>,
    nonce: Seq<u8>,
    aad: Seq<u8>,
    plaintext: Seq<u8>,
) -> Seq<u8>;

/// What opening a ciphertext with its tag gives: the plaintext, or nothing
/// where the tag does not match.
pub uninterp spec fn aes256gcm_opened(
    key: Seq<u8>,
    nonce: Seq<u8>,
    aad: Seq<u8>,
    ciphertext: Seq<u8>,
) -> Option<Seq<u8>>;

/// Calls `Aes256Gcm::encrypt`. Claimed of it: it succeeds exactly if plaintext
/// and associated data are within the cipher's limit; the result is a function
/// of the four arguments, is longer than the plaintext by the tag, and opens
/// under the same key, nonce and associated data to the plaintext.
#[verifier::external_body]
fn encrypt(
    key: &[u8; KEY_LEN],
    nonce: &[u8; NONCE_LEN],
    aad: &[u8],
    plaintext: &[u8],
) -> (r: Option<Vec<u8>>)
    requires
        plaintext@.len() + TAG_LEN <= isize::MAX,
    ensures
        r is Some == (plaintext@.len() <= MAX_MESSAGE_LEN && aad@.len() <= MAX_MESSAGE_LEN),
        r is Some ==> r->0@ == aes256gcm_sealed(key@, nonce@, aad@, plaintext@),
        r is Some ==> r->0@.len() == plaintext@.len() + TAG_LEN,
        r is Some ==> aes256gcm_opened(key@, nonce@, aad@, r->0@) == Some(plaintext@),
{
    let cipher = Aes256Gcm::new(Key::<Aes256Gcm>::from_slice(key));
    let payload = Payload { msg: plaintext, aad };
    cipher.encrypt(aes_gcm::Nonce::from_slice(nonce), payload).ok()
}

/// Calls `Aes256Gcm::decrypt`. Claimed of it: the result is a function of the
/// four arguments, and a plaintext is shorter than the ciphertext by the tag.
/// That a forged ciphertext is refused is a matter of cryptography and is not
/// claimed.
#[verifier::external_body]
fn decrypt(
    key: &[u8; KEY_LEN],
    nonce: &[u8; NONCE_LEN],
    aad: &[u8],
    ciphertext: &[u8],
) -> (r: Option<Vec<u8>>)
    ensures
        r is Some == aes256gcm_opened(key@, nonce@, aad@, ciphertext@) is Some,
        r is Some ==> r->0@ == aes256gcm_opened(key@, nonce@, aad@, ciphertext@)->0,
        r is Some ==> r->0@.len() + TAG_LEN == ciphertext@.len(),
{
    let cipher = Aes256Gcm::new(Key::<Aes256Gcm>::from_slice(key));
    let payload = Payload { msg: ciphertext, aad };
    cipher.decrypt(aes_gcm::Nonce::from_slice(nonce), payload).ok()
}

/// Wrapper around a raw 32-byte AES-256 key. It has no text form, so that a
/// key cannot end up in a log.
pub struct AeadKey([u8; KEY_LEN]);

impl View for AeadKey {
    type V = Seq<u8>;

    closed spec fn view(&self) -> Seq<u8> {
        self.0@
    }
}

impl AeadKey {
    /// Wrap a raw 32-byte key.
    pub fn from_bytes(bytes: [u8; KEY_LEN]) -> (k: AeadKey)
        ensures
            k@ == bytes@,
    {
        AeadKey(bytes)
    }

    /// Borrow the raw bytes. Treat the byte view as secret.
    pub fn as_bytes(&self) -> (b: &[u8; KEY_LEN])
        ensures
            b@ == self@,
    {
        &self.0
    }
}

impl Clone for AeadKey {
    fn clone(&self) -> (k: AeadKey)
        ensures
            k@ == self@,
    {
        AeadKey(self.0)
    }
}

/// AES-GCM nonce (96 bits).
#[derive(Debug, Clone, Copy, PartialEq, Eq)]
pub struct Nonce(pub [u8; NONCE_LEN]);

impl Nonce {
    /// Wrap a raw 12-byte nonce.
    pub fn from_bytes(b: [u8; NONCE_LEN]) -> (n: Nonce)
        ensures
            n.0 == b,
    {
        Nonce(b)
    }

    /// Borrow the raw bytes.
    pub fn as_bytes(&self) -> (b: &[u8; NONCE_LEN])
        ensures
            *b == self.0,
    {
        &self.0
    }
}

/// Errors specific to the AEAD layer.
#[derive(Debug, Clone, Copy, PartialEq, Eq, Structural)]
pub enum AeadError {
    /// `seal` / `open` failed inside the underlying cipher. For `open` this
    /// usually means the ciphertext was tampered with; for `seal` it means a
    /// message beyond the cipher's limit.
    Failed,
}

impl AeadError {
    /// The error as a sentence.
    pub fn to_string(&self) -> (s: String)
        ensures
            s@ == "AEAD operation failed (possible tampering or out of memory)"@,
    {
        "AEAD operation failed (possible tampering or out of memory)".to_owned()
    }
}

/// AES-256-GCM AEAD with deterministic, caller-supplied nonces. Its view is
/// the key.
pub struct Aead {
    key: AeadKey,
}

impl View for Aead {
    type V = Seq<u8>;

    closed spec fn view(&self) -> Seq<u8> {
        self.key@
    }
}

impl Aead {
    /// Construct an AEAD bound to `key`.
    pub fn new(key: &AeadKey) -> (a: Aead)
        ensures
            a@ == key@,
    {
        Aead { key: key.clone() }
    }

    /// Seal `plaintext`: encrypt and append a 16-byte authentication tag.
    /// `aad` is authenticated but not encrypted.
    pub fn seal(&self, nonce: &Nonce, aad: &[u8], plaintext: &[u8]) -> (r: core::result::Result<
        Vec<u8>,
        AeadError,
    >)
        requires
            plaintext@.len() + TAG_LEN <= isize::MAX,
        ensures
            r is Ok <==> plaintext@.len() <= MAX_MESSAGE_LEN && aad@.len() <= MAX_MESSAGE_LEN,
            r matches Ok(c) ==> c@ == aes256gcm_sealed(self@, nonce.0@, aad@, plaintext@)
                && c@.len() == plaintext@.len() + TAG_LEN && aes256gcm_opened(
                self@,
                nonce.0@,
                aad@,
                c@,
            ) == Some(plaintext@),
            r matches Err(e) ==> e == AeadError::Failed,
    {
        match encrypt(self.key.as_bytes(), nonce.as_bytes(), aad, plaintext) {
            Some(c) => Ok(c),
            None => Err(AeadError::Failed),
        }
    }

    /// Open a sealed ciphertext: verifies the tag and returns the plaintext
    /// on success.
    pub fn open(&self, nonce: &Nonce, aad: &[u8], ciphertext: &[u8]) -> (r: core::result::Result<
        Vec<u8>,
        AeadError,
    >)
        ensures
            match aes256gcm_opened(self@, nonce.0@, aad@, ciphertext@) {
                Some(p) => r matches Ok(v) && v@ == p && p.len() + TAG_LEN == ciphertext@.len(),
                None => r == Err::<Vec<u8>, AeadError>(AeadError::Failed),
            },
    {
        match decrypt(self.key.as_bytes(), nonce.as_bytes(), aad, ciphertext) {
            Some(p) => Ok(p),
            None => Err(AeadError::Failed),
        }
    }
}

} // verus!
