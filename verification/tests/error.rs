//! Errors and how they read.
use paddock_core::error::{DecodeError, IoError, IoErrorKind};
use paddock_core::Error;

#[test]
fn io_error_converts_via_from() {
    let io_err = IoError::new(IoErrorKind::NotFound, "missing");
    let err: Error = io_err.into();
    assert!(matches!(err, Error::Io(_)));
    assert!(err.to_string().starts_with("io: "));
}

#[test]
fn decode_error_converts_via_from() {
    let err: Error = DecodeError::UnexpectedEof { needed: 4 }.into();
    assert!(matches!(err, Error::Decode(_)));
}

#[test]
fn checksum_mismatch_renders_hex() {
    let err = Error::ChecksumMismatch {
        context: "wal record",
        expected: 0xDEAD_BEEF,
        found: 0xFEED_FACE,
    };
    let msg = err.to_string();
    assert!(msg.contains("0xdeadbeef"));
    assert!(msg.contains("0xfeedface"));
}

#[test]
fn static_helpers_avoid_allocation_at_call_site() {
    let _ = Error::invalid_format_static("sstable footer", "wrong magic");
    let _ = Error::corruption_static("wal segment 0", "midrecord crc fail");
}

#[test]
fn every_error_has_its_sentence() {
    assert_eq!(Error::io(IoErrorKind::Other, "disk on fire").to_string(), "io: disk on fire");
    assert_eq!(
        Error::Decode(DecodeError::UnexpectedEof { needed: 3 }).to_string(),
        "decode: unexpected end of input: needed 3 more bytes"
    );
    assert_eq!(
        DecodeError::VarintOverflow { max_bytes: 10 }.to_string(),
        "varint overflow: encoding exceeds 10 bytes"
    );
    assert_eq!(DecodeError::NonCanonicalVarint.to_string(), "non-canonical varint encoding");
    assert_eq!(
        Error::ChecksumMismatch { context: "block", expected: 1, found: 255 }.to_string(),
        "checksum mismatch in block: expected 0x00000001, found 0x000000ff"
    );
    assert_eq!(
        Error::invalid_format_static("sstable footer", "wrong magic").to_string(),
        "invalid format in sstable footer: wrong magic"
    );
    assert_eq!(
        Error::corruption_static("wal segment 0", "midrecord crc fail").to_string(),
        "corruption in wal segment 0: midrecord crc fail"
    );
    assert_eq!(
        Error::InvalidArgument("batch too large").to_string(),
        "invalid argument: batch too large"
    );
    assert_eq!(Error::Shutdown.to_string(), "engine is shut down");
}
