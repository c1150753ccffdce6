//! Encryption at rest.
use hkdf::Hkdf;
use paddock_core::crypto::aead::{Aead, AeadError, AeadKey, Nonce, KEY_LEN, NONCE_LEN, TAG_LEN};
use paddock_core::crypto::envelope::{block_aad, derive_block_nonce, NONCE_FORMAT_TAG};
use paddock_core::crypto::kdf::{derive_sstable_key, MasterKey};
use sha2::Sha256;

fn hex(s: &str) -> Vec<u8> {
    (0..s.len())
        .step_by(2)
        .map(|i| u8::from_str_radix(&s[i..i + 2], 16).expect("hex digit"))
        .collect()
}

#[test]
fn round_trip_with_aad() {
    let key = AeadKey::from_bytes([0x42; KEY_LEN]);
    let nonce = Nonce::from_bytes([0x01; NONCE_LEN]);
    let aead = Aead::new(&key);
    let plain = b"PaddockKV encryption-at-rest test payload";
    let associated_data = b"sstable=42,block=7";
    let ct = aead.seal(&nonce, associated_data, plain).unwrap();
    assert_eq!(ct.len(), plain.len() + TAG_LEN);
    let pt = aead.open(&nonce, associated_data, &ct).unwrap();
    assert_eq!(pt, plain);
}

#[test]
fn tampered_ciphertext_rejected() {
    let key = AeadKey::from_bytes([0; KEY_LEN]);
    let nonce = Nonce::from_bytes([0; NONCE_LEN]);
    let aead = Aead::new(&key);
    let mut ct = aead.seal(&nonce, b"", b"hello").unwrap();
    let last = ct.len() - 1;
    ct[last] ^= 0x01;
    let res = aead.open(&nonce, b"", &ct);
    assert!(matches!(res, Err(AeadError::Failed)));
}

#[test]
fn wrong_aad_rejected() {
    let key = AeadKey::from_bytes([0; KEY_LEN]);
    let nonce = Nonce::from_bytes([0; NONCE_LEN]);
    let aead = Aead::new(&key);
    let ct = aead.seal(&nonce, b"context-A", b"hello").unwrap();
    let res = aead.open(&nonce, b"context-B", &ct);
    assert!(matches!(res, Err(AeadError::Failed)));
}

#[test]
fn wrong_nonce_rejected() {
    let key = AeadKey::from_bytes([0; KEY_LEN]);
    let nonce_a = Nonce::from_bytes([0; NONCE_LEN]);
    let nonce_b = Nonce::from_bytes([1; NONCE_LEN]);
    let aead = Aead::new(&key);
    let ct = aead.seal(&nonce_a, b"", b"hello").unwrap();
    assert!(aead.open(&nonce_b, b"", &ct).is_err());
}

/// The published vector with an all-zero key, an all-zero nonce and nothing
/// to encrypt: the output is the tag alone.
#[test]
fn empty_aes256gcm_kat() {
    let key = [0u8; KEY_LEN];
    let iv = [0u8; NONCE_LEN];
    let expected_tag = hex("530f8afbc74536b9a963b4f1c4cb738b");

    let key = AeadKey::from_bytes(key);
    let nonce = Nonce::from_bytes(iv);
    let aead = Aead::new(&key);
    let ct = aead.seal(&nonce, &[], &[]).unwrap();
    assert_eq!(ct.len(), TAG_LEN, "empty plaintext yields tag only");
    assert_eq!(ct, expected_tag);

    let pt = aead.open(&nonce, &[], &ct).unwrap();
    assert!(pt.is_empty());
}

#[test]
fn pinned_regression_vector() {
    let key = AeadKey::from_bytes([0x42; KEY_LEN]);
    let nonce = Nonce::from_bytes([0x01; NONCE_LEN]);
    let aead = Aead::new(&key);
    let associated_data = b"sstable=42,block=7";
    let plaintext = b"PaddockKV encryption-at-rest test payload";
    let ct = aead.seal(&nonce, associated_data, plaintext).unwrap();

    assert_eq!(ct.len(), plaintext.len() + TAG_LEN);
    assert_eq!(aead.open(&nonce, associated_data, &ct).unwrap(), plaintext);
}

#[test]
fn different_nonces_yield_different_ciphertexts() {
    let key = AeadKey::from_bytes([7; KEY_LEN]);
    let aead = Aead::new(&key);
    let ct1 = aead.seal(&Nonce::from_bytes([1; NONCE_LEN]), b"", b"same").unwrap();
    let ct2 = aead.seal(&Nonce::from_bytes([2; NONCE_LEN]), b"", b"same").unwrap();
    assert_ne!(ct1, ct2);
}

#[test]
fn nonces_for_distinct_block_indices_differ() {
    let a = derive_block_nonce(0);
    let b = derive_block_nonce(1);
    let c = derive_block_nonce(0xDEAD_BEEF_CAFE_F00D);
    assert_ne!(a, b);
    assert_ne!(a, c);
    assert_ne!(b, c);
}

#[test]
fn nonce_format_tag_present() {
    let n = derive_block_nonce(0);
    let bytes = n.as_nonce().as_bytes();
    assert_eq!(&bytes[..4], &NONCE_FORMAT_TAG.to_le_bytes());
}

#[test]
fn aad_for_distinct_coordinates_differs() {
    let a = block_aad(1, 0);
    let b = block_aad(1, 1);
    let c = block_aad(2, 0);
    assert_ne!(a, b);
    assert_ne!(a, c);
    assert_ne!(b, c);
}

#[test]
fn end_to_end_seal_open_with_real_key_hierarchy() {
    let master = MasterKey::from_bytes([0xA5; 32]);
    let sst_id: u64 = 0x1234_5678;
    let block_idx: u64 = 42;
    let key: AeadKey = derive_sstable_key(&master, sst_id);
    let aead = Aead::new(&key);
    let nonce = derive_block_nonce(block_idx);
    let associated_data = block_aad(sst_id, block_idx);

    let plaintext = b"the quick brown fox jumps over the lazy dog";
    let ct = aead.seal(nonce.as_nonce(), &associated_data, plaintext).unwrap();
    let pt = aead.open(nonce.as_nonce(), &associated_data, &ct).unwrap();
    assert_eq!(pt, plaintext);
}

/// A ciphertext sealed at one place does not open at another, though the key
/// is the same.
#[test]
fn block_index_aad_prevents_intra_sstable_swap() {
    let master = MasterKey::from_bytes([0xCA; 32]);
    let key = derive_sstable_key(&master, 7);
    let aead = Aead::new(&key);

    let n0 = derive_block_nonce(0);
    let n1 = derive_block_nonce(1);

    let ct = aead.seal(n0.as_nonce(), &block_aad(7, 0), b"block 0 payload").unwrap();
    assert!(
        aead.open(n0.as_nonce(), &block_aad(7, 1), &ct).is_err(),
        "AAD mismatch should reject"
    );
    assert!(
        aead.open(n1.as_nonce(), &block_aad(7, 0), &ct).is_err(),
        "nonce mismatch should reject"
    );
}

/// A block of one table does not open as a block of another.
#[test]
fn per_sstable_keys_prevent_inter_sstable_swap() {
    let master = MasterKey::from_bytes([0x77; 32]);
    let key_a = derive_sstable_key(&master, 100);
    let key_b = derive_sstable_key(&master, 200);
    let aead_a = Aead::new(&key_a);
    let aead_b = Aead::new(&key_b);
    let nonce = derive_block_nonce(0);

    let ct = aead_a.seal(nonce.as_nonce(), &block_aad(100, 0), b"secret A").unwrap();
    assert!(aead_b.open(nonce.as_nonce(), &block_aad(200, 0), &ct).is_err());
}

#[test]
fn different_sstable_ids_produce_different_keys() {
    let master = MasterKey::from_bytes([0xAB; KEY_LEN]);
    let a = derive_sstable_key(&master, 1);
    let b = derive_sstable_key(&master, 2);
    assert_ne!(a.as_bytes(), b.as_bytes());
}

#[test]
fn same_sstable_id_is_deterministic() {
    let master = MasterKey::from_bytes([0xCC; KEY_LEN]);
    let a = derive_sstable_key(&master, 42);
    let b = derive_sstable_key(&master, 42);
    assert_eq!(a.as_bytes(), b.as_bytes());
}

#[test]
fn different_masters_produce_different_keys() {
    let m1 = MasterKey::from_bytes([1; KEY_LEN]);
    let m2 = MasterKey::from_bytes([2; KEY_LEN]);
    assert_ne!(
        derive_sstable_key(&m1, 0).as_bytes(),
        derive_sstable_key(&m2, 0).as_bytes()
    );
}

/// RFC 5869, first test case: the key derivation that the library builds on.
#[test]
fn rfc5869_test_case_1() {
    let ikm = hex("0b0b0b0b0b0b0b0b0b0b0b0b0b0b0b0b0b0b0b0b0b0b");
    let salt = hex("000102030405060708090a0b0c");
    let info = hex("f0f1f2f3f4f5f6f7f8f9");
    let expected = hex(
        "3cb25f25faacd57a90434f64d0362f2a\
         2d2d0a90cf1a5a4c5db02d56ecc4c5bf\
         34007208d5b887185865",
    );

    let hk = Hkdf::<Sha256>::new(Some(&salt), &ikm);
    let mut okm = vec![0u8; expected.len()];
    hk.expand(&info, &mut okm).unwrap();
    assert_eq!(okm, expected);
}

/// The key of a table is HKDF-SHA256 of the master key, without salt, under a
/// fixed label followed by the table's number.
#[test]
fn table_key_is_the_expansion_of_its_label() {
    let master = [0x5Au8; KEY_LEN];
    let id: u64 = 0x0102_0304_0506_0708;
    let mut info: Vec<u8> = b"paddockkv:sstable:v1:".to_vec();
    info.extend_from_slice(&id.to_le_bytes());
    let mut expected = [0u8; KEY_LEN];
    Hkdf::<Sha256>::new(None, &master).expand(&info, &mut expected).unwrap();
    let key = derive_sstable_key(&MasterKey::from_bytes(master), id);
    assert_eq!(key.as_bytes(), &expected);
    assert_eq!(key.clone().as_bytes(), &expected);
}

#[test]
fn nonce_and_aad_bytes() {
    let nonce = derive_block_nonce(0x0102_0304_0506_0708);
    assert_eq!(
        nonce.as_nonce().as_bytes(),
        &[0x4E, 0x4F, 0x4E, 0x43, 8, 7, 6, 5, 4, 3, 2, 1]
    );
    assert_eq!(
        block_aad(1, 0x0102),
        [1, 0, 0, 0, 0, 0, 0, 0, 2, 1, 0, 0, 0, 0, 0, 0]
    );
}

#[test]
fn ciphertext_shorter_than_a_tag_is_refused() {
    let aead = Aead::new(&AeadKey::from_bytes([9; KEY_LEN]));
    let nonce = Nonce::from_bytes([9; NONCE_LEN]);
    assert!(matches!(aead.open(&nonce, b"", b""), Err(AeadError::Failed)));
    assert!(matches!(aead.open(&nonce, b"", &[0; TAG_LEN - 1]), Err(AeadError::Failed)));
}
