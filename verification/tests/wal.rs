//! The write-ahead log: batches, headers, segments.
use paddock_core::encoding::varint::{encode_u32, MAX_VARINT_U32_BYTES};
use paddock_core::error::DecodeError;
use paddock_core::io::vfs::{read_vec, MemFile, MemVfs, Vfs, VfsFile};
use paddock_core::wal::batch::{Op, WriteBatch, MAX_OPS_PER_BATCH, OP_PUT};
use paddock_core::wal::format::{
    RecordHeader, RecordType, SegmentHeader, BLOCK_SIZE, FORMAT_VERSION, RECORD_HEADER_SIZE,
    SEGMENT_HEADER_SIZE, SEGMENT_MAGIC,
};
use paddock_core::wal::reader::{ReadOutcome, RecordView, ReplayOutcome, SegmentReader};
use paddock_core::wal::writer::SegmentWriter;
use paddock_core::Error;

// ----- Batches -----

fn round_trip(batch: &WriteBatch) {
    let encoded = batch.encode();
    let decoded = WriteBatch::decode(&encoded).expect("decode");
    assert_eq!(&decoded, batch);
}

#[test]
fn empty_batch_encodes_to_one_byte() {
    let b = WriteBatch::new();
    let bytes = b.encode();
    assert_eq!(bytes, vec![0]);
    round_trip(&b);
}

#[test]
fn put_round_trip() {
    let mut b = WriteBatch::new();
    b.put(b"hello", b"world");
    round_trip(&b);
    assert_eq!(b.len(), 1);
}

#[test]
fn mixed_ops_round_trip() {
    let mut b = WriteBatch::new();
    b.put(b"a", b"1").delete(b"b").put(b"c", b"3");
    round_trip(&b);
    assert_eq!(b.len(), 3);
}

#[test]
fn large_value_round_trip() {
    let mut b = WriteBatch::new();
    b.put(&vec![0; 1024], &vec![0xCC; 65_536]);
    round_trip(&b);
}

#[test]
fn decode_rejects_unknown_tag() {
    let bytes = [0x01, 0x7F];
    let err = WriteBatch::decode(&bytes).unwrap_err();
    assert!(matches!(err, Error::InvalidFormat { .. }));
}

#[test]
fn decode_rejects_truncated_key() {
    // A key of five bytes is announced, and none follow.
    let bytes = [0x01, OP_PUT, 0x05];
    let err = WriteBatch::decode(&bytes).unwrap_err();
    assert!(matches!(err, Error::Decode(DecodeError::UnexpectedEof { .. })));
}

#[test]
fn decode_rejects_trailing_bytes() {
    let mut b = WriteBatch::new();
    b.put(b"k", b"v");
    let mut bytes = b.encode();
    bytes.push(0xFF);
    let err = WriteBatch::decode(&bytes).unwrap_err();
    assert!(matches!(err, Error::InvalidFormat { .. }));
}

#[test]
fn decode_rejects_excessive_op_count() {
    let bad = MAX_OPS_PER_BATCH + 1;
    let mut buf = [0u8; MAX_VARINT_U32_BYTES];
    let n = encode_u32(bad, &mut buf).unwrap();
    let err = WriteBatch::decode(&buf[..n]).unwrap_err();
    assert!(matches!(err, Error::InvalidFormat { .. }));
}

#[test]
fn known_bytes_of_a_batch() {
    let mut b = WriteBatch::default();
    assert!(b.is_empty());
    b.put(b"k", b"vw");
    b.delete(b"d");
    assert_eq!(b.encode(), vec![2, 0, 1, b'k', 2, b'v', b'w', 1, 1, b'd']);
    let mut out: Vec<u8> = vec![0xEE];
    b.encode_into(&mut out);
    assert_eq!(out.len(), 11);
    assert_eq!(&out[1..], &b.encode()[..]);
    assert_eq!(
        b.ops(),
        &[
            Op::Put { key: b"k".to_vec(), value: b"vw".to_vec() },
            Op::Delete { key: b"d".to_vec() },
        ]
    );
}

#[test]
fn every_truncation_of_a_batch_is_refused() {
    let mut b = WriteBatch::new();
    b.put(b"alpha", b"one").delete(b"bravo").put(b"", b"");
    let bytes = b.encode();
    for n in 0..bytes.len() {
        assert!(WriteBatch::decode(&bytes[..n]).is_err(), "prefix of {n} bytes");
    }
    round_trip(&b);
}

// ----- Headers -----

#[test]
fn segment_header_size_matches_constant() {
    assert_eq!(SegmentHeader::new(0, 0).as_bytes().len(), SEGMENT_HEADER_SIZE);
}

#[test]
fn record_header_size_matches_constant() {
    assert_eq!(
        RecordHeader::new(RecordType::Full, 0, 0).as_bytes().len(),
        RECORD_HEADER_SIZE
    );
}

#[test]
fn signed_segment_header_validates() {
    let h = SegmentHeader::new_signed(42, 1_000);
    assert!(h.is_valid());
    // The same fields without the signature are not valid.
    let unsigned = SegmentHeader::new(42, 1_000);
    assert!(!unsigned.is_valid());
}

#[test]
fn flipping_any_header_bit_invalidates() {
    let h = SegmentHeader::new_signed(42, 1_000);
    let bytes = h.as_bytes();
    for i in 0..bytes.len() {
        for bit in 0..8u32 {
            let mut copy = bytes.clone();
            copy[i] ^= 1u8 << bit;
            let parsed = SegmentHeader::from_bytes(&copy).expect("size matches");
            assert!(!parsed.is_valid(), "flip at byte {i} bit {bit} should fail");
        }
    }
    let original = SegmentHeader::from_bytes(&bytes[..]).expect("size matches");
    assert!(original.is_valid());
}

#[test]
fn record_type_round_trip() {
    for rt in [RecordType::Full, RecordType::First, RecordType::Middle, RecordType::Last] {
        assert_eq!(RecordType::from_byte(rt.as_byte()), Some(rt));
    }
    assert_eq!(RecordType::from_byte(0), None);
    assert_eq!(RecordType::from_byte(99), None);
}

#[test]
fn signed_record_header_recomputes_same_crc() {
    let payload = b"hello batch";
    let mut h = RecordHeader::new(RecordType::Full, 7, payload.len() as u16);
    h.sign(payload);
    assert_eq!(h.payload_crc32c, h.expected_crc(payload));
}

#[test]
fn signed_record_header_detects_payload_mutation() {
    let payload = b"hello batch";
    let mut h = RecordHeader::new(RecordType::Full, 7, payload.len() as u16);
    h.sign(payload);
    let stored = h.payload_crc32c;
    let tampered = b"hello b!tch";
    assert_ne!(stored, h.expected_crc(tampered));
}

#[test]
fn zerocopy_round_trip_segment_header() {
    let h = SegmentHeader::new_signed(0xAA_BB_CC_DD, 0x1234);
    let bytes = h.as_bytes();
    let parsed = SegmentHeader::from_bytes(&bytes).expect("exact size");
    assert_eq!(parsed.magic, SEGMENT_MAGIC);
    assert_eq!(parsed.version, FORMAT_VERSION);
    assert_eq!(parsed.segment_id, 0xAA_BB_CC_DD);
    assert_eq!(parsed.first_seqno, 0x1234);
    assert!(parsed.is_valid());
}

#[test]
fn zerocopy_round_trip_record_header() {
    let payload = vec![0xABu8; 256];
    let mut h = RecordHeader::new(RecordType::Middle, 999, payload.len() as u16);
    h.sign(&payload);
    let parsed = RecordHeader::from_bytes(&h.as_bytes()).expect("exact size");
    assert_eq!(parsed.length, 256);
    assert_eq!(parsed.record_type, RecordType::Middle.as_byte());
    assert_eq!(parsed.seqno, 999);
    assert_eq!(parsed.payload_crc32c, parsed.expected_crc(&payload));
}

#[test]
fn headers_of_the_wrong_size_do_not_parse() {
    assert!(SegmentHeader::from_bytes(&[0; SEGMENT_HEADER_SIZE - 1]).is_none());
    assert!(SegmentHeader::from_bytes(&[0; SEGMENT_HEADER_SIZE + 1]).is_none());
    assert!(RecordHeader::from_bytes(&[0; RECORD_HEADER_SIZE - 1]).is_none());
}

// ----- Writing segments -----

fn open_segment(
    vfs: &mut MemVfs,
    path: &str,
    segment_id: u64,
    first_seqno: u64,
) -> SegmentWriter<MemFile> {
    let file = vfs.open_writable(path).unwrap();
    SegmentWriter::create(vfs, file, segment_id, first_seqno).unwrap()
}

#[test]
fn create_writes_segment_header() {
    let mut vfs = MemVfs::new();
    let writer = open_segment(&mut vfs, "wal", 7, 100);
    assert_eq!(writer.segment_id(), 7);
    let reader = vfs.open_readonly("wal").unwrap();
    assert_eq!(reader.size(&vfs).unwrap(), SEGMENT_HEADER_SIZE as u64);

    let mut buf = [0u8; SEGMENT_HEADER_SIZE];
    reader.read_at(&vfs, &mut buf, 0).unwrap();
    let h = SegmentHeader::from_bytes(&buf).unwrap();
    assert!(h.is_valid());
    assert_eq!(h.segment_id, 7);
    assert_eq!(h.first_seqno, 100);
}

#[test]
fn small_record_fits_as_full_in_one_block() {
    let mut vfs = MemVfs::new();
    let mut writer = open_segment(&mut vfs, "wal", 1, 0);

    let mut batch = WriteBatch::new();
    batch.put(b"k", b"v");
    let payload = batch.encode();
    let off = writer.append_record(&mut vfs, 42, &payload).unwrap();
    assert_eq!(off, 0);
    assert_eq!(writer.bytes_written() as usize, RECORD_HEADER_SIZE + payload.len());
}

#[test]
fn record_spanning_two_blocks_splits_into_first_last() {
    let mut vfs = MemVfs::new();
    let mut writer = open_segment(&mut vfs, "wal", 1, 0);
    // More than one block holds beside a record header.
    let payload = vec![0xAB; BLOCK_SIZE];
    writer.append_record(&mut vfs, 7, &payload).unwrap();

    let expected = 2 * RECORD_HEADER_SIZE + payload.len();
    assert_eq!(writer.bytes_written() as usize, expected);
}

#[test]
fn record_pads_block_when_remaining_space_is_too_small_for_header() {
    let mut vfs = MemVfs::new();
    let mut writer = open_segment(&mut vfs, "wal", 1, 0);

    // Fill the first block to within 8 bytes of its end.
    let first_payload = vec![0xCD; BLOCK_SIZE - RECORD_HEADER_SIZE - 8];
    writer.append_record(&mut vfs, 1, &first_payload).unwrap();
    let before = writer.bytes_written();
    writer.append_record(&mut vfs, 2, b"tiny").unwrap();
    let after = writer.bytes_written();
    // The padding, the new header and the payload.
    let new_record = RECORD_HEADER_SIZE + 4;
    assert_eq!(after - before, (8 + new_record) as u64);
}

#[test]
fn rotation_threshold_triggers_should_rotate() {
    let mut vfs = MemVfs::new();
    let mut writer = open_segment(&mut vfs, "wal", 1, 0);
    writer.set_rotate_at(1024);
    assert!(!writer.should_rotate());
    writer.append_record(&mut vfs, 1, &vec![0u8; 2048]).unwrap();
    assert!(writer.should_rotate());
}

#[test]
fn sync_is_idempotent_on_memvfs() {
    let mut vfs = MemVfs::new();
    let mut writer = open_segment(&mut vfs, "wal", 1, 0);
    writer.sync(&mut vfs).unwrap();
    writer.sync(&mut vfs).unwrap();
}

// ----- Reading segments -----

fn write_segment(vfs: &mut MemVfs, path: &str, ops: &[(u64, WriteBatch)]) {
    let file = vfs.open_writable(path).unwrap();
    let mut writer =
        SegmentWriter::create(vfs, file, 1, ops.first().map_or(0, |(s, _)| *s)).unwrap();
    for (seqno, batch) in ops {
        writer.append_record(vfs, *seqno, &batch.encode()).unwrap();
    }
}

fn replay_all(vfs: &MemVfs, path: &str) -> (Vec<RecordView>, ReplayOutcome) {
    let f = vfs.open_readonly(path).unwrap();
    let mut reader = SegmentReader::open(vfs, f).unwrap();
    let mut got = Vec::new();
    let outcome = reader.replay(vfs, &mut got).unwrap();
    (got, outcome)
}

fn content(vfs: &MemVfs, path: &str) -> Vec<u8> {
    let f = vfs.open_readonly(path).unwrap();
    let size = f.size(vfs).unwrap() as usize;
    read_vec(&f, vfs, size, 0).unwrap()
}

fn put_file(vfs: &mut MemVfs, path: &str, bytes: &[u8]) {
    let f = vfs.open_writable(path).unwrap();
    f.append(vfs, bytes).unwrap();
}

#[test]
fn empty_segment_replays_clean() {
    let mut vfs = MemVfs::new();
    write_segment(&mut vfs, "s", &[]);
    let (records, outcome) = replay_all(&vfs, "s");
    assert!(records.is_empty());
    assert!(matches!(outcome, ReplayOutcome::Clean));
}

#[test]
fn reader_single_record_round_trip() {
    let mut vfs = MemVfs::new();
    let mut b = WriteBatch::new();
    b.put(b"k", b"v");
    write_segment(&mut vfs, "s", &[(42, b.clone())]);

    let (records, outcome) = replay_all(&vfs, "s");
    assert!(matches!(outcome, ReplayOutcome::Clean));
    assert_eq!(records.len(), 1);
    assert_eq!(records[0].seqno, 42);
    let decoded = WriteBatch::decode(&records[0].payload).unwrap();
    assert_eq!(decoded, b);
}

#[test]
fn many_small_records_round_trip() {
    let mut vfs = MemVfs::new();
    let mut ops = Vec::new();
    for i in 0..200u64 {
        let mut b = WriteBatch::new();
        b.put(format!("key-{i}").as_bytes(), &vec![i as u8; 32]);
        ops.push((i, b));
    }
    write_segment(&mut vfs, "s", &ops);

    let (records, outcome) = replay_all(&vfs, "s");
    assert!(matches!(outcome, ReplayOutcome::Clean));
    assert_eq!(records.len(), ops.len());
    for ((seqno, batch), got) in ops.iter().zip(records.iter()) {
        assert_eq!(got.seqno, *seqno);
        assert_eq!(WriteBatch::decode(&got.payload).unwrap(), *batch);
    }
}

#[test]
fn record_spanning_multiple_blocks_reassembles() {
    let mut vfs = MemVfs::new();
    let mut b = WriteBatch::new();
    // A value larger than a block is cut into first, middle and last pieces.
    b.put(b"big", &vec![0xCD; 3 * BLOCK_SIZE + 17]);
    write_segment(&mut vfs, "s", &[(7, b.clone())]);

    let (records, outcome) = replay_all(&vfs, "s");
    assert!(matches!(outcome, ReplayOutcome::Clean));
    assert_eq!(records.len(), 1);
    assert_eq!(WriteBatch::decode(&records[0].payload).unwrap(), b);
}

#[test]
fn torn_tail_truncates_cleanly() {
    let mut vfs = MemVfs::new();
    let mut b = WriteBatch::new();
    b.put(b"k", b"v");
    write_segment(&mut vfs, "s", &[(1, b.clone()), (2, b.clone())]);

    // Keep the first record and a part of the second one's header.
    let all = content(&vfs, "s");
    let keep = SEGMENT_HEADER_SIZE + RECORD_HEADER_SIZE + b.encode().len() + 4;
    put_file(&mut vfs, "s_torn", &all[..keep]);

    let (got, outcome) = replay_all(&vfs, "s_torn");
    assert_eq!(got.len(), 1);
    assert!(matches!(outcome, ReplayOutcome::TornTail { .. }));
}

#[test]
fn header_with_bad_magic_is_rejected() {
    let mut vfs = MemVfs::new();
    put_file(&mut vfs, "bad", &[0xFFu8; 64]);
    let r = vfs.open_readonly("bad").unwrap();
    let err = SegmentReader::open(&vfs, r).err().unwrap();
    assert!(matches!(err, Error::InvalidFormat { .. }));
}

#[test]
fn header_with_bad_version_is_rejected() {
    let mut vfs = MemVfs::new();
    let mut h = SegmentHeader::new_signed(1, 0);
    h.version = FORMAT_VERSION + 1;
    put_file(&mut vfs, "badv", &h.as_bytes());
    let r = vfs.open_readonly("badv").unwrap();
    let err = SegmentReader::open(&vfs, r).err().unwrap();
    assert!(matches!(err, Error::InvalidFormat { reason, .. } if reason.contains("version")));
}

#[test]
fn header_with_bad_crc_is_corruption() {
    let mut vfs = MemVfs::new();
    let mut h = SegmentHeader::new_signed(1, 0);
    // Changed after signing, so that only the checksum is wrong.
    h.segment_id = 99;
    put_file(&mut vfs, "badcrc", &h.as_bytes());
    let r = vfs.open_readonly("badcrc").unwrap();
    let err = SegmentReader::open(&vfs, r).err().unwrap();
    assert!(matches!(err, Error::Corruption { .. }));
}

/// Wherever the last append was cut, every record before it is replayed, and
/// nothing else.
#[test]
fn every_cut_of_the_last_append_keeps_the_records_before_it() {
    let mut vfs = MemVfs::new();
    let mut writer = open_segment(&mut vfs, "s", 1, 1);
    writer.append_record(&mut vfs, 1, b"first payload").unwrap();
    writer.append_record(&mut vfs, 2, b"second").unwrap();
    let whole = content(&vfs, "s").len();
    writer.append_record(&mut vfs, 3, b"the one that is torn").unwrap();
    let all = content(&vfs, "s");
    for cut in whole..all.len() {
        let path = format!("cut-{cut}");
        put_file(&mut vfs, &path, &all[..cut]);
        let (records, outcome) = replay_all(&vfs, &path);
        assert_eq!(records.len(), 2);
        assert_eq!(records[0].payload, b"first payload".to_vec());
        assert_eq!(records[1].seqno, 2);
        if cut == whole {
            assert!(matches!(outcome, ReplayOutcome::Clean));
        } else {
            assert!(matches!(outcome, ReplayOutcome::TornTail { .. }));
        }
    }
}

/// Wherever a segment is cut, call after call gives the records that lie wholly
/// inside, and then the end or a torn tail.
#[test]
fn every_cut_of_a_segment_gives_the_whole_records() {
    let mut vfs = MemVfs::new();
    let mut writer = open_segment(&mut vfs, "s", 1, 1);
    let payloads: [&[u8]; 4] = [b"one", b"", b"number three", b"4"];
    // Where each record ends, in the records area.
    let mut ends = vec![0usize];
    for (i, p) in payloads.iter().enumerate() {
        writer.append_record(&mut vfs, i as u64 + 1, p).unwrap();
        ends.push(content(&vfs, "s").len() - SEGMENT_HEADER_SIZE);
    }
    let all = content(&vfs, "s");
    for cut in SEGMENT_HEADER_SIZE..=all.len() {
        let path = format!("cut-{cut}");
        put_file(&mut vfs, &path, &all[..cut]);
        let file = vfs.open_readonly(&path).unwrap();
        let mut reader = SegmentReader::open(&vfs, file).unwrap();
        let area = cut - SEGMENT_HEADER_SIZE;
        let whole = ends.iter().filter(|end| **end <= area).count() - 1;
        for i in 0..whole {
            match reader.next_record(&vfs).unwrap() {
                ReadOutcome::Record(r) => {
                    assert_eq!((r.seqno, r.payload.as_slice()), (i as u64 + 1, payloads[i]));
                }
                _ => panic!("record {i} is missing at {cut}"),
            }
        }
        match reader.next_record(&vfs).unwrap() {
            ReadOutcome::EndOfSegment => {}
            ReadOutcome::TornTail { truncate_to, .. } => {
                assert_ne!(area, ends[whole]);
                assert_eq!(truncate_to as usize, ends[whole]);
            }
            ReadOutcome::Record(_) => panic!("a partial record was given at {cut}"),
        }
    }
}

#[test]
fn flipped_payload_byte_ends_the_replay_there() {
    let mut vfs = MemVfs::new();
    let mut writer = open_segment(&mut vfs, "s", 1, 1);
    writer.append_record(&mut vfs, 1, b"keep me").unwrap();
    let torn_at = writer.append_record(&mut vfs, 2, b"break me").unwrap();
    let mut all = content(&vfs, "s");
    let last = all.len() - 1;
    all[last] ^= 0x20;
    put_file(&mut vfs, "flipped", &all);
    let (records, outcome) = replay_all(&vfs, "flipped");
    assert_eq!(records.len(), 1);
    match outcome {
        ReplayOutcome::TornTail { truncate_to, .. } => assert_eq!(truncate_to, torn_at),
        ReplayOutcome::Clean => panic!("the damage went unnoticed"),
    }
}

#[test]
fn reader_reports_the_header_fields_and_ends_cleanly() {
    let mut vfs = MemVfs::new();
    let mut writer = open_segment(&mut vfs, "s", 9, 77);
    writer.append_record(&mut vfs, 77, b"x").unwrap();
    let f = vfs.open_readonly("s").unwrap();
    let mut reader = SegmentReader::open(&vfs, f).unwrap();
    assert_eq!(reader.segment_id(), 9);
    assert_eq!(reader.first_seqno(), 77);
    assert!(matches!(reader.next_record(&vfs).unwrap(), ReadOutcome::Record(v) if v.seqno == 77));
    assert!(matches!(reader.next_record(&vfs).unwrap(), ReadOutcome::EndOfSegment));
    assert!(matches!(reader.next_record(&vfs).unwrap(), ReadOutcome::EndOfSegment));
}

#[test]
fn segment_shorter_than_its_header_is_refused() {
    let mut vfs = MemVfs::new();
    put_file(&mut vfs, "short", &[0u8; SEGMENT_HEADER_SIZE - 1]);
    let r = vfs.open_readonly("short").unwrap();
    assert!(SegmentReader::open(&vfs, r).is_err());
}
