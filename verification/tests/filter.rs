//! The blocked Bloom filter.
use paddock_core::checksum::xxh3;
use paddock_core::filter::blocked_bloom::{
    pick_block, BlockedBloom, BloomParams, BLOCK_BYTES, HEADER_SIZE,
};
use paddock_core::Error;

#[test]
fn empty_filter_rejects_everything() {
    let f = BlockedBloom::new(100, BloomParams::default());
    assert!(!f.contains(b"missing"));
    assert!(!f.contains(b""));
}

#[test]
fn inserted_keys_are_definitely_present() {
    let mut f = BlockedBloom::new(1000, BloomParams::default());
    for i in 0..1000u32 {
        let k = format!("key-{i:05}").into_bytes();
        f.insert(&k);
    }
    for i in 0..1000u32 {
        let k = format!("key-{i:05}").into_bytes();
        assert!(f.contains(&k), "missing key-{i:05}");
    }
}

#[test]
fn false_positive_rate_is_close_to_target() {
    let n = 10_000usize;
    let mut f = BlockedBloom::new(n, BloomParams::default());
    for i in 0..n {
        f.insert(format!("k-{i:08}").as_bytes());
    }
    // Keys that were not inserted.
    let probes = 100_000u32;
    let mut hits = 0u32;
    for i in 0..probes {
        let k = format!("miss-{i:010}");
        if f.contains(k.as_bytes()) {
            hits += 1;
        }
    }
    let fpr = f64::from(hits) / f64::from(probes);
    assert!(fpr <= 0.03, "blocked-bloom FPR drifted: hits={hits}, fpr={fpr}");
}

#[test]
fn encode_decode_round_trip_preserves_membership() {
    let mut f = BlockedBloom::new(500, BloomParams::default());
    for i in 0..500u32 {
        f.insert(format!("k-{i:05}").as_bytes());
    }
    let bytes = f.encode();
    let f2 = BlockedBloom::decode(&bytes).unwrap();
    for i in 0..500u32 {
        let k = format!("k-{i:05}");
        assert!(f.contains(k.as_bytes()));
        assert!(f2.contains(k.as_bytes()), "decoded miss for {k}");
    }
}

#[test]
fn decode_rejects_wrong_magic() {
    let bytes = vec![0u8; 16 + BLOCK_BYTES];
    let err = BlockedBloom::decode(&bytes).err().unwrap();
    assert!(matches!(err, Error::InvalidFormat { .. }));
}

#[test]
fn decode_rejects_truncated_payload() {
    let mut f = BlockedBloom::new(10, BloomParams::default());
    f.insert(b"x");
    let mut bytes = f.encode();
    bytes.truncate(bytes.len() - 1);
    let err = BlockedBloom::decode(&bytes).err().unwrap();
    assert!(matches!(err, Error::InvalidFormat { .. }));
}

#[test]
fn pick_block_is_uniform_enough() {
    let mut counts = vec![0u32; 16];
    for i in 0..1_000_000u64 {
        let h = xxh3::hash(&i.to_le_bytes());
        let b = pick_block(h, 16);
        counts[b as usize] += 1;
    }
    let mean = 1_000_000u32 / 16;
    for &c in &counts {
        // Five per cent of drift.
        assert!(
            c > mean - mean / 20 && c < mean + mean / 20,
            "pick_block uneven: bucket count {c}, mean {mean}"
        );
    }
}

#[test]
fn pick_block_scales_the_lower_half_of_the_hash() {
    assert_eq!(pick_block(0, 16), 0);
    assert_eq!(pick_block(u64::MAX, 16), 15);
    assert_eq!(pick_block(0xFFFF_FFFF_8000_0000, 16), 8);
    assert_eq!(pick_block(0x8000_0000, 1), 0);
}

#[test]
fn size_follows_the_bit_budget() {
    let f = BlockedBloom::new(1000, BloomParams::default());
    // 10 bits for each of 1000 keys, in blocks of 512 bits.
    assert_eq!(f.num_blocks(), 20);
    assert_eq!(f.byte_size(), 20 * BLOCK_BYTES);
    assert_eq!(f.num_keys(), 0);
    assert_eq!(f.params().num_hashes, 8);
    assert_eq!(f.params().bits_per_key, 10);
    assert_eq!(BlockedBloom::new(0, BloomParams::default()).num_blocks(), 1);
}

#[test]
fn encoding_is_a_header_and_the_blocks() {
    let mut f = BlockedBloom::new(10, BloomParams::default());
    f.insert(b"one");
    f.insert(b"two");
    let bytes = f.encode();
    assert_eq!(bytes.len(), HEADER_SIZE + f.byte_size());
    assert_eq!(&bytes[..4], &0xB100_0F11u32.to_le_bytes());
    let back = BlockedBloom::decode(&bytes).unwrap();
    assert_eq!(back.num_keys(), 2);
    assert_eq!(back.num_blocks(), f.num_blocks());
    assert_eq!(back.encode(), bytes);
}

fn refusal(bytes: &[u8]) -> String {
    match BlockedBloom::decode(bytes) {
        Err(Error::InvalidFormat { context: "bloom filter", reason }) => reason,
        _ => panic!("not refused as a malformed filter"),
    }
}

#[test]
fn decode_refuses_each_bad_header_field() {
    let good = BlockedBloom::new(10, BloomParams::default()).encode();
    assert!(BlockedBloom::decode(&good).is_ok());
    assert_eq!(refusal(&good[..HEADER_SIZE - 1]), "shorter than header");
    let with = |at: usize, byte: u8| {
        let mut bad = good.clone();
        bad[at] = byte;
        bad
    };
    assert_eq!(refusal(&with(3, 0)), "wrong magic");
    assert_eq!(refusal(&with(4, 7)), "unsupported version 7");
    assert_eq!(refusal(&with(5, 0)), "num_hashes out of range: 0");
    assert_eq!(refusal(&with(5, 17)), "num_hashes out of range: 17");
    assert!(BlockedBloom::decode(&with(8, 0)).is_err());
    assert_eq!(
        refusal(&with(8, 2)),
        "payload length 64 does not match num_blocks=2 (expected 128)"
    );
    let mut longer = good.clone();
    longer.push(0);
    assert_eq!(
        refusal(&longer),
        "payload length 65 does not match num_blocks=1 (expected 64)"
    );
}
