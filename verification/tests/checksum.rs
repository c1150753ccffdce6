//! Checksums.
use paddock_core::checksum::crc32c;
use paddock_core::checksum::xxh3;
use paddock_core::checksum::Algorithm;

/// Castagnoli test vectors from RFC 3720 appendix B.4.
#[test]
fn rfc3720_test_vectors() {
    assert_eq!(crc32c::hash(&[0u8; 32]), 0x8A91_36AA);
    assert_eq!(crc32c::hash(&[0xFFu8; 32]), 0x62A8_AB43);
    // The canonical check string of many polynomials.
    assert_eq!(crc32c::hash(b"123456789"), 0xE306_9283);
}

/// The remainder of a division by the polynomial, bit by bit.
#[test]
fn crc32c_is_the_remainder_of_a_division() {
    let mut data: Vec<u8> = Vec::new();
    for n in 0..300u32 {
        let mut remainder: u32 = !0;
        for byte in &data {
            remainder ^= u32::from(*byte);
            for _ in 0..8 {
                let odd = remainder % 2 == 1;
                remainder /= 2;
                if odd {
                    remainder ^= crc32c::POLYNOMIAL;
                }
            }
        }
        assert_eq!(crc32c::hash(&data), !remainder);
        data.push((n.wrapping_mul(2_654_435_761) >> 24) as u8);
    }
}

#[test]
fn crc32c_streaming_matches_oneshot() {
    let data = b"the quick brown fox jumps over the lazy dog";
    let one_shot = crc32c::hash(data);
    let mut h = crc32c::Hasher::new();
    h.update(&data[..10]);
    h.update(&data[10..25]);
    h.update(&data[25..]);
    assert_eq!(h.finalize(), one_shot);
}

#[test]
fn empty_input_yields_zero() {
    assert_eq!(crc32c::hash(&[]), 0);
    assert_eq!(crc32c::Hasher::new().finalize(), 0);
}

#[test]
fn algorithm_tag_round_trip() {
    for alg in [Algorithm::Crc32c, Algorithm::Xxh3] {
        assert_eq!(Algorithm::from_tag(alg.tag()), Some(alg));
    }
    assert_eq!(Algorithm::from_tag(255), None);
}

#[test]
fn hash_dispatches_to_correct_algorithm() {
    let data = b"PaddockKV";
    assert_eq!(Algorithm::Crc32c.hash(data), u64::from(crc32c::hash(data)));
    assert_eq!(Algorithm::Xxh3.hash(data), xxh3::hash(data));
}

#[test]
fn different_algorithms_produce_different_digests() {
    let data = b"PaddockKV";
    let a = Algorithm::Crc32c.hash(data);
    let b = Algorithm::Xxh3.hash(data);
    assert_ne!(a, b);
    assert_eq!(a >> 32, 0, "crc32c should occupy only the lower 32 bits");
}

#[test]
fn empty_input_has_stable_digest() {
    let a = xxh3::hash(&[]);
    let b = xxh3::hash(&[]);
    assert_eq!(a, b);
    let c = xxh3::Hasher::new().finalize();
    assert_eq!(a, c);
}

#[test]
fn xxh3_streaming_matches_oneshot() {
    let data = b"the quick brown fox jumps over the lazy dog";
    let one_shot = xxh3::hash(data);
    let mut h = xxh3::Hasher::new();
    h.update(&data[..7]);
    h.update(&data[7..32]);
    h.update(&data[32..]);
    assert_eq!(h.finalize(), one_shot);
}

#[test]
fn distinct_inputs_distinct_digests() {
    assert_ne!(xxh3::hash(b"a"), xxh3::hash(b"b"));
    assert_ne!(xxh3::hash(b""), xxh3::hash(b"\0"));
}

#[test]
fn streaming_equals_oneshot_for_every_split() {
    let data: Vec<u8> = (0..200u32).map(|i| (i * 37 % 251) as u8).collect();
    for cut in 0..=data.len() {
        let mut c = crc32c::Hasher::new();
        c.update(&data[..cut]);
        c.update(&data[cut..]);
        assert_eq!(c.finalize(), crc32c::hash(&data));
        let mut x = xxh3::Hasher::new();
        x.update(&data[..cut]);
        x.update(&data[cut..]);
        assert_eq!(x.digest(), xxh3::hash(&data));
    }
}

#[test]
fn single_bit_flip_changes_digest() {
    let data = b"a block of the write-ahead log".to_vec();
    for i in 0..data.len() {
        for bit in 0..8u32 {
            let mut flipped = data.clone();
            flipped[i] ^= 1u8 << bit;
            assert_ne!(crc32c::hash(&data), crc32c::hash(&flipped));
            assert_ne!(xxh3::hash(&data), xxh3::hash(&flipped));
        }
    }
}

#[test]
fn crc_state_can_be_read_and_cloned_midway() {
    let mut h = crc32c::Hasher::new();
    h.update(b"1234");
    assert_eq!(h.state(), crc32c::hash(b"1234"));
    let mut copy = h.clone();
    h.update(b"56789");
    assert_eq!(h.finalize(), 0xE306_9283);
    copy.update(b"5");
    assert_eq!(copy.finalize(), crc32c::hash(b"12345"));
}
