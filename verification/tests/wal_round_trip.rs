//! Any sequence of batches written to a segment replays back identically.
use paddock_core::io::vfs::{MemVfs, Vfs};
use paddock_core::wal::batch::WriteBatch;
use paddock_core::wal::reader::{ReadOutcome, ReplayOutcome, SegmentReader};
use paddock_core::wal::writer::SegmentWriter;

fn run_round_trip(batches: &[WriteBatch]) {
    let mut vfs = MemVfs::new();
    let file = vfs.open_writable("wal").unwrap();
    let mut writer = SegmentWriter::create(&mut vfs, file, 1, 100).unwrap();
    for (i, batch) in batches.iter().enumerate() {
        writer
            .append_record(&mut vfs, 100 + i as u64, &batch.encode())
            .expect("append");
    }

    let reader_file = vfs.open_readonly("wal").unwrap();
    let mut reader = SegmentReader::open(&vfs, reader_file).unwrap();
    for (i, batch) in batches.iter().enumerate() {
        match reader.next_record(&vfs).unwrap() {
            ReadOutcome::Record(view) => {
                assert_eq!(view.seqno, 100 + i as u64, "seqno mismatch at index {i}");
                let decoded = WriteBatch::decode(&view.payload).expect("decode");
                assert_eq!(decoded, *batch, "batch mismatch at index {i}");
            }
            other => panic!("expected Record, got {other:?}"),
        }
    }
    match reader.next_record(&vfs).unwrap() {
        ReadOutcome::EndOfSegment => {}
        other => panic!("expected EndOfSegment, got {other:?}"),
    }
}

#[test]
fn fixed_round_trip_small_set() {
    let mut a = WriteBatch::new();
    a.put(b"a", b"1");
    let mut b = WriteBatch::new();
    b.delete(b"x");
    let mut c = WriteBatch::new();
    // Forces fragmentation.
    c.put(b"big", &vec![0xCD; 50_000]);
    run_round_trip(&[a, b, c]);
}

/// Batches of pseudo-random shape.
fn random_batches(seed: u64, count: usize) -> Vec<WriteBatch> {
    let mut state: u64 = seed;
    let mut next = move || {
        state = state.wrapping_mul(6_364_136_223_846_793_005).wrapping_add(1_442_695_040_888_963_407);
        (state >> 33) as usize
    };
    let mut batches = Vec::new();
    for _ in 0..count {
        let mut b = WriteBatch::new();
        for _ in 0..next() % 16 {
            let key: Vec<u8> = (0..next() % 48).map(|_| next() as u8).collect();
            if next() % 3 == 0 {
                b.delete(&key);
            } else {
                let value: Vec<u8> = (0..next() % 3000).map(|_| next() as u8).collect();
                b.put(&key, &value);
            }
        }
        batches.push(b);
    }
    batches
}

#[test]
fn random_batch_sequences_round_trip() {
    for seed in 0..20u64 {
        run_round_trip(&random_batches(seed, 16));
    }
}

#[test]
fn replay_of_what_was_written_is_clean() {
    let batches = random_batches(99, 24);
    let mut vfs = MemVfs::new();
    let file = vfs.open_writable("wal").unwrap();
    let mut writer = SegmentWriter::create(&mut vfs, file, 1, 0).unwrap();
    for (i, b) in batches.iter().enumerate() {
        writer.append_record(&mut vfs, i as u64, &b.encode()).unwrap();
    }
    let reader_file = vfs.open_readonly("wal").unwrap();
    let mut reader = SegmentReader::open(&vfs, reader_file).unwrap();
    let mut seen = Vec::new();
    let outcome = reader.replay(&vfs, &mut seen).unwrap();
    assert_eq!(seen.len(), batches.len());
    assert!(matches!(outcome, ReplayOutcome::Clean));
}
