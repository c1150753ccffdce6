//! Variable-length and fixed-width integers, byte order, text.
use paddock_core::encoding::fixed::{
    push_bytes, push_u16, push_u32, push_u64, read_u16, read_u32, read_u64, zeros,
};
use paddock_core::encoding::order::{compare_bytes, Order};
use paddock_core::encoding::text::{decimal_string, padded_string, same_text};
use paddock_core::encoding::varint::{
    decode_u32, decode_u64, decode_u64_canonical, encode_u32, encode_u64, push_varint,
    varint_u64_len, MAX_VARINT_U32_BYTES, MAX_VARINT_U64_BYTES,
};
use paddock_core::error::DecodeError;
use paddock_core::Error;

#[test]
fn round_trip_known_u64() {
    let cases: &[u64] = &[
        0,
        1,
        0x7F,
        0x80,
        0x3FFF,
        0x4000,
        0xFFFF_FFFF,
        0x1_0000_0000,
        u64::MAX,
    ];
    for &v in cases {
        let mut buf = [0u8; MAX_VARINT_U64_BYTES];
        let n = encode_u64(v, &mut buf).expect("encode fits");
        assert_eq!(n, varint_u64_len(v), "size prediction mismatch for {v}");
        let (decoded, consumed) = decode_u64(&buf[..n]).expect("decode ok");
        assert_eq!(decoded, v, "round-trip mismatch for {v}");
        assert_eq!(consumed, n);
    }
}

#[test]
fn varint_u64_len_matches_actual_encoding() {
    for v in [0_u64, 1, 127, 128, 16_383, 16_384, u64::MAX, u64::MAX - 1] {
        let mut buf = [0u8; MAX_VARINT_U64_BYTES];
        let n = encode_u64(v, &mut buf).unwrap();
        assert_eq!(n, varint_u64_len(v));
    }
}

#[test]
fn encode_returns_none_when_buffer_too_short() {
    let mut buf = [0u8; 1];
    assert_eq!(encode_u64(0x80, &mut buf), None);
}

#[test]
fn decode_rejects_unterminated_run() {
    let bytes = [0xFF_u8; MAX_VARINT_U64_BYTES];
    let err = decode_u64(&bytes).unwrap_err();
    assert!(matches!(err, Error::Decode(DecodeError::VarintOverflow { .. })));
}

#[test]
fn decode_rejects_overflow_on_tenth_byte() {
    // The payload of the tenth byte would set bits beyond the 64th.
    let bytes = [0xFF, 0xFF, 0xFF, 0xFF, 0xFF, 0xFF, 0xFF, 0xFF, 0xFF, 0x02];
    let err = decode_u64(&bytes).unwrap_err();
    assert!(matches!(err, Error::Decode(DecodeError::VarintOverflow { .. })));
}

#[test]
fn decode_accepts_u64_max() {
    let bytes = [0xFF, 0xFF, 0xFF, 0xFF, 0xFF, 0xFF, 0xFF, 0xFF, 0xFF, 0x01];
    let (v, n) = decode_u64(&bytes).unwrap();
    assert_eq!(v, u64::MAX);
    assert_eq!(n, MAX_VARINT_U64_BYTES);
}

#[test]
fn decode_eof_when_input_empty() {
    let err = decode_u64(&[]).unwrap_err();
    assert!(matches!(err, Error::Decode(DecodeError::UnexpectedEof { .. })));
}

#[test]
fn decode_eof_when_continuation_runs_out() {
    let err = decode_u64(&[0xFF, 0xFF]).unwrap_err();
    assert!(matches!(err, Error::Decode(DecodeError::UnexpectedEof { .. })));
}

#[test]
fn u32_round_trip_and_overflow() {
    let cases: &[u32] = &[0, 1, 0x7F, 0x80, 0x3FFF, 0x4000, u32::MAX, u32::MAX - 1];
    for &v in cases {
        let mut buf = [0u8; MAX_VARINT_U32_BYTES];
        let n = encode_u32(v, &mut buf).unwrap();
        let (decoded, consumed) = decode_u32(&buf[..n]).unwrap();
        assert_eq!(decoded, v);
        assert_eq!(consumed, n);
    }
}

#[test]
fn u32_decode_rejects_overflow_on_fifth_byte() {
    let bytes = [0xFF, 0xFF, 0xFF, 0xFF, 0x10];
    let err = decode_u32(&bytes).unwrap_err();
    assert!(matches!(err, Error::Decode(DecodeError::VarintOverflow { .. })));
}

#[test]
fn canonical_decoder_rejects_padded_encoding() {
    // Zero, with a wasted byte.
    let bytes = [0x80, 0x00];
    let err = decode_u64_canonical(&bytes).unwrap_err();
    assert!(matches!(err, Error::Decode(DecodeError::NonCanonicalVarint)));
}

#[test]
fn canonical_decoder_accepts_genuine_zero() {
    let (v, n) = decode_u64_canonical(&[0]).unwrap();
    assert_eq!(v, 0);
    assert_eq!(n, 1);
}

#[test]
fn known_encoding_of_three_hundred() {
    let mut buf = [0u8; MAX_VARINT_U64_BYTES];
    assert_eq!(encode_u64(300, &mut buf), Some(2));
    assert_eq!(&buf[..2], &[0xAC, 0x02]);
    let mut out: Vec<u8> = vec![9];
    push_varint(&mut out, 300);
    assert_eq!(out, vec![9, 0xAC, 0x02]);
}

#[test]
fn every_length_round_trips_and_sets_continuation_bits() {
    for shift in 0..64u32 {
        for v in [1u64 << shift, (1u64 << shift) - 1, (1u64 << shift) | 1] {
            let mut buf = [0u8; MAX_VARINT_U64_BYTES];
            let n = encode_u64(v, &mut buf).unwrap();
            assert_eq!(n, varint_u64_len(v));
            for &b in &buf[..n - 1] {
                assert!(b & 0x80 != 0, "byte should have continuation bit set");
            }
            assert!(buf[n - 1] & 0x80 == 0, "last byte should clear continuation bit");
            assert_eq!(decode_u64(&buf[..n]).unwrap(), (v, n));
            assert_eq!(decode_u64_canonical(&buf[..n]).unwrap(), (v, n));
        }
    }
}

#[test]
fn decoders_answer_on_arbitrary_bytes() {
    let mut seed: u64 = 0x9E37_79B9_7F4A_7C15;
    for _ in 0..2_000u32 {
        let mut bytes: Vec<u8> = Vec::new();
        for _ in 0..(seed % 13) {
            seed = seed.wrapping_mul(6_364_136_223_846_793_005).wrapping_add(1);
            bytes.push((seed >> 33) as u8);
        }
        seed = seed.wrapping_mul(6_364_136_223_846_793_005).wrapping_add(1);
        let _ = decode_u64(&bytes);
        let _ = decode_u32(&bytes);
        let _ = decode_u64_canonical(&bytes);
    }
}

#[test]
fn decode_errors_carry_their_numbers() {
    assert!(matches!(
        decode_u64(&[]).unwrap_err(),
        Error::Decode(DecodeError::UnexpectedEof { needed: 10 })
    ));
    assert!(matches!(
        decode_u32(&[0xFF, 0xFF]).unwrap_err(),
        Error::Decode(DecodeError::UnexpectedEof { needed: 3 })
    ));
    assert!(matches!(
        decode_u64(&[0xFF; 10]).unwrap_err(),
        Error::Decode(DecodeError::VarintOverflow { max_bytes: 10 })
    ));
    assert!(matches!(
        decode_u32(&[0xFF; 5]).unwrap_err(),
        Error::Decode(DecodeError::VarintOverflow { max_bytes: 5 })
    ));
}

#[test]
fn fixed_width_integers_are_little_endian() {
    let mut v: Vec<u8> = Vec::new();
    push_u16(&mut v, 0x0102);
    push_u32(&mut v, 0x0304_0506);
    push_u64(&mut v, 0x0708_090A_0B0C_0D0E);
    assert_eq!(v, vec![2, 1, 6, 5, 4, 3, 0x0E, 0x0D, 0x0C, 0x0B, 0x0A, 9, 8, 7]);
    assert_eq!(read_u16(&v, 0), 0x0102);
    assert_eq!(read_u32(&v, 2), 0x0304_0506);
    assert_eq!(read_u64(&v, 6), 0x0708_090A_0B0C_0D0E);
    push_bytes(&mut v, &zeros(2));
    assert_eq!(v.len(), 16);
    assert_eq!(&v[14..], &[0, 0]);
}

#[test]
fn byte_order_is_lexicographic() {
    assert!(matches!(compare_bytes(b"a", b"b"), Order::Less));
    assert!(matches!(compare_bytes(b"b", b"ab"), Order::Greater));
    assert!(matches!(compare_bytes(b"ab", b"ab"), Order::Equal));
    assert!(matches!(compare_bytes(b"", b"\0"), Order::Less));
    assert!(matches!(compare_bytes(b"abc", b"ab"), Order::Greater));
}

#[test]
fn numbers_as_text() {
    assert_eq!(decimal_string(0), "0");
    assert_eq!(decimal_string(u64::MAX), "18446744073709551615");
    assert_eq!(padded_string(255, 16, 8), "000000ff");
    assert_eq!(padded_string(42, 10, 8), "00000042");
    assert!(same_text("abc", "abc"));
    assert!(!same_text("abc", "abd"));
    assert!(!same_text("ab", "abc"));
}
