//! Sorted tables: blocks, headers, writer and reader.
use paddock_core::checksum::{crc32c, Algorithm};
use paddock_core::crypto::AeadKey;
use paddock_core::filter::blocked_bloom::{BlockedBloom, BloomParams};
use paddock_core::io::vfs::{read_vec, MemFile, MemVfs, Vfs, VfsFile};
use paddock_core::sstable::block::{BlockBuilder, BlockReader};
use paddock_core::sstable::format::{
    flag, BlockHandle, CompressionAlg, FileHeader, Footer, RecordOp, BLOCK_ALIGNMENT, BLOCK_HANDLE_SIZE,
    DEFAULT_BLOCK_SIZE, FILE_HEADER_REGION_SIZE, FILE_HEADER_SIZE, FOOTER_SIZE, RESTART_INTERVAL,
};
use paddock_core::sstable::{SstReader, SstWriter};
use paddock_core::Error;

// ----- Blocks -----

fn build(records: &[(&[u8], &[u8], u64, RecordOp)]) -> Vec<u8> {
    let mut b = BlockBuilder::new();
    for (k, v, seqno, op) in records {
        b.add(k, v, *seqno, *op);
    }
    b.finish()
}

fn block_keys(r: &BlockReader<'_>) -> Vec<Vec<u8>> {
    let mut it = r.iter();
    let mut keys = Vec::new();
    while let Some(rec) = it.next() {
        keys.push(rec.key);
    }
    keys
}

#[test]
fn empty_block_has_only_trailer() {
    let mut b = BlockBuilder::new();
    let bytes = b.finish();
    // The number of restarts and the checksum.
    assert_eq!(bytes.len(), 4 + 4);
}

#[test]
fn block_single_record_round_trip() {
    let bytes = build(&[(b"key", b"value", 7, RecordOp::Put)]);
    let r = BlockReader::open(&bytes).unwrap();
    let mut it = r.iter();
    let rec = it.next().unwrap();
    assert_eq!(rec.key, b"key".to_vec());
    assert_eq!(rec.value, b"value");
    assert_eq!(rec.seqno, 7);
    assert_eq!(rec.op, RecordOp::Put);
    assert!(it.next().is_none());
}

#[test]
fn many_records_iterate_in_order() {
    let n = 100u32;
    let records: Vec<_> = (0..n)
        .map(|i| {
            (
                format!("key-{i:05}").into_bytes(),
                format!("v-{i}").into_bytes(),
                u64::from(i + 1),
                RecordOp::Put,
            )
        })
        .collect();
    let mut b = BlockBuilder::new();
    for (k, v, s, op) in &records {
        b.add(k, v, *s, *op);
    }
    let bytes = b.finish();
    let r = BlockReader::open(&bytes).unwrap();
    let expected: Vec<_> = records.iter().map(|(k, _, _, _)| k.clone()).collect();
    assert_eq!(block_keys(&r), expected);
}

#[test]
fn prefix_compression_shrinks_block_for_shared_prefixes() {
    let common = b"long_shared_prefix_".to_vec();
    let mut shared_records: Vec<(Vec<u8>, Vec<u8>, u64, RecordOp)> = Vec::new();
    for i in 0..50u32 {
        let mut k = common.clone();
        k.extend_from_slice(format!("{i:05}").as_bytes());
        shared_records.push((k, b"v".to_vec(), u64::from(i + 1), RecordOp::Put));
    }
    let mut b = BlockBuilder::new();
    for (k, v, s, op) in &shared_records {
        b.add(k, v, *s, *op);
    }
    let shared_bytes = b.finish();

    // The same records under keys that share little.
    let mut b2 = BlockBuilder::new();
    for (i, (_, v, s, op)) in shared_records.iter().enumerate() {
        let k = format!("UNIQUE-{:05}-prefix-burn-{:0width$}", i, 0, width = 20);
        b2.add(k.as_bytes(), v, *s, *op);
    }
    let unique_bytes = b2.finish();

    assert!(
        shared_bytes.len() < unique_bytes.len(),
        "prefix-compressed block should be smaller: shared {} vs unique {}",
        shared_bytes.len(),
        unique_bytes.len(),
    );
}

#[test]
fn corrupted_crc_is_detected() {
    let mut bytes = build(&[(b"k", b"v", 1, RecordOp::Put)]);
    let last_idx = bytes.len() - 1;
    bytes[last_idx] ^= 0x55;
    let err = BlockReader::open(&bytes).err().unwrap();
    assert!(matches!(err, Error::ChecksumMismatch { .. }));
}

#[test]
fn seek_finds_exact_match() {
    let n = 64u32;
    let mut b = BlockBuilder::new();
    for i in 0..n {
        let k = format!("key-{i:05}");
        b.add(k.as_bytes(), b"v", u64::from(i + 1), RecordOp::Put);
    }
    let bytes = b.finish();
    let r = BlockReader::open(&bytes).unwrap();
    let rec = r.seek(b"key-00032").unwrap();
    assert_eq!(rec.key, b"key-00032".to_vec());
}

#[test]
fn seek_returns_first_key_geq_target_when_no_exact_match() {
    let mut b = BlockBuilder::new();
    for k in [b"alpha".as_slice(), b"bravo", b"delta", b"echo"] {
        b.add(k, b"v", 1, RecordOp::Put);
    }
    let bytes = b.finish();
    let r = BlockReader::open(&bytes).unwrap();
    let rec = r.seek(b"charlie").unwrap();
    assert_eq!(rec.key, b"delta".to_vec());
}

#[test]
fn seek_past_last_key_returns_none() {
    let mut b = BlockBuilder::new();
    for k in [b"alpha".as_slice(), b"bravo", b"delta"] {
        b.add(k, b"v", 1, RecordOp::Put);
    }
    let bytes = b.finish();
    let r = BlockReader::open(&bytes).unwrap();
    assert!(r.seek(b"zzz").is_none());
}

#[test]
fn restart_array_grows_every_interval_records() {
    let mut b = BlockBuilder::new();
    for i in 0..(RESTART_INTERVAL * 3 + 2) {
        let k = format!("key-{i:05}");
        b.add(k.as_bytes(), b"v", 1, RecordOp::Put);
    }
    let bytes = b.finish();
    let r = BlockReader::open(&bytes).unwrap();
    assert_eq!(r.num_restarts(), 4);
}

#[test]
fn tombstone_stores_empty_value() {
    let bytes = build(&[(b"k", b"", 9, RecordOp::Tombstone)]);
    let r = BlockReader::open(&bytes).unwrap();
    let rec = r.iter().next().unwrap();
    assert_eq!(rec.op, RecordOp::Tombstone);
    assert!(rec.value.is_empty());
    assert_eq!(rec.seqno, 9);
}

#[test]
fn block_trailer_layout_is_stable() {
    let bytes = build(&[(b"k", b"v", 1, RecordOp::Put)]);
    let len = bytes.len();
    let num = u32::from_le_bytes(bytes[len - 8..len - 4].try_into().unwrap());
    assert_eq!(num, 1);
    let _crc = u32::from_le_bytes(bytes[len - 4..len].try_into().unwrap());
}

#[test]
fn seek_with_many_versions_of_a_key_gives_the_newest() {
    // More versions than a restart interval, so that the key also stands at a
    // restart point.
    let mut b = BlockBuilder::default();
    assert!(b.is_empty());
    b.add(b"a", b"first", 1, RecordOp::Put);
    for i in 0..40u64 {
        b.add(b"k", b"v", 100 - i, RecordOp::Put);
    }
    b.add(b"z", b"last", 1, RecordOp::Put);
    assert!(!b.is_empty());
    assert!(b.has_room());
    let size = b.estimated_size();
    let bytes = b.finish();
    assert_eq!(bytes.len(), size);
    let r = BlockReader::open(&bytes).unwrap();
    let rec = r.seek(b"k").unwrap();
    assert_eq!(rec.seqno, 100);
    let (first, mut rest) = r.seek_from(b"k");
    assert_eq!(first.unwrap().seqno, 100);
    assert_eq!(rest.next().unwrap().seqno, 99);
}

#[test]
fn block_with_a_lying_restart_count_is_refused() {
    assert!(BlockReader::open(&[]).is_err());
    assert!(BlockReader::open(&[0; 7]).is_err());
    let mut bytes = build(&[(b"k", b"v", 1, RecordOp::Put)]);
    let len = bytes.len();
    bytes[len - 8] = 0xFF;
    assert!(BlockReader::open(&bytes).is_err());
}

// ----- Headers and footers -----

#[test]
fn file_header_size_matches_constant() {
    let h = FileHeader::new_signed(0, CompressionAlg::Uncompressed, Algorithm::Crc32c, 0, 0, 0, 0, 0);
    assert_eq!(h.as_bytes().len(), FILE_HEADER_SIZE);
}

#[test]
fn footer_size_matches_constant() {
    let bh = BlockHandle { offset: 0, length: 0, checksum: 0 };
    assert_eq!(Footer::new_signed(bh, bh, bh).as_bytes().len(), FOOTER_SIZE);
}

#[test]
fn block_handle_size_is_16_bytes() {
    assert_eq!(BLOCK_HANDLE_SIZE, 16);
    let bh = BlockHandle { offset: 1, length: 2, checksum: 3 };
    assert_eq!(bh.as_bytes(), vec![1, 0, 0, 0, 0, 0, 0, 0, 2, 0, 0, 0, 3, 0, 0, 0]);
    assert_eq!(BlockHandle::read(&bh.as_bytes(), 0), bh);
}

#[test]
fn signed_file_header_validates() {
    let h = FileHeader::new_signed(
        flag::CHECKSUMMED,
        CompressionAlg::Uncompressed,
        Algorithm::Crc32c,
        42,
        7,
        1,
        42,
        FILE_HEADER_REGION_SIZE as u64 + 7 * DEFAULT_BLOCK_SIZE as u64,
    );
    assert!(h.is_valid());
    assert_eq!(FileHeader::from_bytes(&h.as_bytes()), Some(h));
}

#[test]
fn flipping_any_signed_byte_invalidates_file_header() {
    let h = FileHeader::new_signed(
        0,
        CompressionAlg::Uncompressed,
        Algorithm::Crc32c,
        0,
        0,
        0,
        0,
        FILE_HEADER_REGION_SIZE as u64,
    );
    let bytes = h.as_bytes();
    for i in 0..bytes.len() {
        for bit in 0..8u32 {
            let mut copy = bytes.clone();
            copy[i] ^= 1u8 << bit;
            let parsed = FileHeader::from_bytes(&copy).unwrap();
            assert!(!parsed.is_valid(), "bit flip at {i}:{bit} should invalidate");
        }
    }
}

#[test]
fn signed_footer_validates() {
    let bh = BlockHandle { offset: 8192, length: 123, checksum: 0xDEAD_BEEF };
    let f = Footer::new_signed(bh, bh, bh);
    assert!(f.is_valid());
    assert_eq!(Footer::from_bytes(&f.as_bytes()), Some(f));
}

#[test]
fn footer_with_wrong_magic_is_invalid() {
    let bh = BlockHandle { offset: 0, length: 0, checksum: 0 };
    let mut f = Footer::new_signed(bh, bh, bh);
    f.footer_magic = 0xDEAD_BEEF;
    assert!(!f.is_valid());
}

#[test]
fn compression_and_record_op_tags_round_trip() {
    for alg in [CompressionAlg::Uncompressed, CompressionAlg::Lz4, CompressionAlg::Zstd] {
        assert_eq!(CompressionAlg::from_byte(alg.as_byte()), Some(alg));
    }
    assert_eq!(CompressionAlg::from_byte(99), None);

    for op in [RecordOp::Put, RecordOp::Tombstone] {
        assert_eq!(RecordOp::from_byte(op.as_byte()), Some(op));
    }
    assert_eq!(RecordOp::from_byte(99), None);
}

// ----- Writer -----

#[test]
fn empty_writer_produces_only_header_filter_meta_index_footer() {
    let mut vfs = MemVfs::new();
    let file = vfs.open_writable("sst").unwrap();
    let w = SstWriter::create(&mut vfs, file, Algorithm::Crc32c).unwrap();
    let _ = w.finish(&mut vfs).unwrap();

    let f = vfs.open_readonly("sst").unwrap();
    let size = f.size(&vfs).unwrap();
    // The header region, an empty index block and the footer.
    let expected = FILE_HEADER_REGION_SIZE as u64 + 8 + FOOTER_SIZE as u64;
    assert_eq!(size, expected);
}

#[test]
fn single_record_writer_seals_one_block() {
    let mut vfs = MemVfs::new();
    let file = vfs.open_writable("sst").unwrap();
    let mut w = SstWriter::create(&mut vfs, file, Algorithm::Crc32c).unwrap();
    w.add(&mut vfs, b"hello", b"world", 1, RecordOp::Put).unwrap();
    let _ = w.finish(&mut vfs).unwrap();
    let f = vfs.open_readonly("sst").unwrap();
    let size = f.size(&vfs).unwrap();
    // At least the header region and one padded block.
    assert!(size >= (FILE_HEADER_REGION_SIZE * 2) as u64);
}

#[test]
fn many_records_flow_into_multiple_blocks() {
    let mut vfs = MemVfs::new();
    let file = vfs.open_writable("sst").unwrap();
    let mut w = SstWriter::create(&mut vfs, file, Algorithm::Crc32c).unwrap();
    w.set_block_size(512);
    for i in 0..1024u32 {
        let k = format!("key-{i:05}");
        let v = format!("value-{i:05}");
        w.add(&mut vfs, k.as_bytes(), v.as_bytes(), u64::from(i + 1), RecordOp::Put).unwrap();
    }
    assert!(w.bytes_written() > FILE_HEADER_REGION_SIZE as u64);
    let f = w.finish(&mut vfs).unwrap();
    let r = SstReader::open(&vfs, f).unwrap();
    assert!(r.file_header().num_blocks > 10);
    assert_eq!(r.file_header().num_entries, 1024);
    assert_eq!(r.file_header().min_seqno, 1);
    assert_eq!(r.file_header().max_seqno, 1024);
}

#[test]
fn footer_lands_in_last_64_bytes() {
    let mut vfs = MemVfs::new();
    let file = vfs.open_writable("sst").unwrap();
    let mut w = SstWriter::create(&mut vfs, file, Algorithm::Crc32c).unwrap();
    w.add(&mut vfs, b"k", b"v", 1, RecordOp::Put).unwrap();
    let _ = w.finish(&mut vfs).unwrap();

    let r = vfs.open_readonly("sst").unwrap();
    let size = r.size(&vfs).unwrap();
    let mut buf = [0u8; FOOTER_SIZE];
    r.read_at(&vfs, &mut buf, size - FOOTER_SIZE as u64).unwrap();
    let footer = Footer::from_bytes(&buf).unwrap();
    assert!(footer.is_valid());
}

// ----- Reader -----

fn build_table(records: &[(&[u8], &[u8], u64, RecordOp)]) -> MemVfs {
    let mut vfs = MemVfs::new();
    let file = vfs.open_writable("sst").unwrap();
    let mut w = SstWriter::create(&mut vfs, file, Algorithm::Crc32c).unwrap();
    for (k, v, s, op) in records {
        w.add(&mut vfs, k, v, *s, *op).unwrap();
    }
    let _ = w.finish(&mut vfs).unwrap();
    vfs
}

fn open_table(vfs: &MemVfs, path: &str) -> SstReader<MemFile> {
    SstReader::open(vfs, vfs.open_readonly(path).unwrap()).unwrap()
}

fn content(vfs: &MemVfs, path: &str) -> Vec<u8> {
    let f = vfs.open_readonly(path).unwrap();
    let size = f.size(vfs).unwrap() as usize;
    read_vec(&f, vfs, size, 0).unwrap()
}

fn put_file(vfs: &mut MemVfs, path: &str, bytes: &[u8]) {
    let f = vfs.open_writable(path).unwrap();
    f.append(vfs, bytes).unwrap();
}

#[test]
fn open_then_get_single_record() {
    let vfs = build_table(&[(b"k", b"v", 1, RecordOp::Put)]);
    let r = open_table(&vfs, "sst");
    let hit = r.get(&vfs, b"k", u64::MAX).unwrap().expect("hit");
    assert_eq!(hit.value, b"v".to_vec());
    assert_eq!(hit.seqno, 1);
    assert_eq!(hit.op, RecordOp::Put);
}

#[test]
fn get_missing_key_returns_none() {
    let vfs = build_table(&[(b"a", b"1", 1, RecordOp::Put)]);
    let r = open_table(&vfs, "sst");
    assert!(r.get(&vfs, b"z", u64::MAX).unwrap().is_none());
}

#[test]
fn get_across_many_blocks() {
    let mut vfs = MemVfs::new();
    let file = vfs.open_writable("sst").unwrap();
    let mut w = SstWriter::create(&mut vfs, file, Algorithm::Crc32c).unwrap();
    w.set_block_size(512);
    let n = 256u32;
    for i in 0..n {
        let k = format!("key-{i:05}");
        let v = format!("value-{i:05}");
        w.add(&mut vfs, k.as_bytes(), v.as_bytes(), u64::from(i + 1), RecordOp::Put).unwrap();
    }
    let _ = w.finish(&mut vfs).unwrap();

    let r = open_table(&vfs, "sst");
    for i in 0..n {
        let k = format!("key-{i:05}");
        let hit = r.get(&vfs, k.as_bytes(), u64::MAX).unwrap().expect("hit");
        let expected = format!("value-{i:05}");
        assert_eq!(hit.value, expected.into_bytes());
    }
}

#[test]
fn tombstones_round_trip() {
    let vfs = build_table(&[
        (b"alive", b"v", 1, RecordOp::Put),
        (b"dead", b"", 2, RecordOp::Tombstone),
    ]);
    let r = open_table(&vfs, "sst");

    let alive = r.get(&vfs, b"alive", u64::MAX).unwrap().unwrap();
    assert_eq!(alive.op, RecordOp::Put);

    let dead = r.get(&vfs, b"dead", u64::MAX).unwrap().unwrap();
    assert_eq!(dead.op, RecordOp::Tombstone);
    assert!(dead.value.is_empty());
}

#[test]
fn scan_returns_records_in_order() {
    let mut vfs = MemVfs::new();
    let file = vfs.open_writable("sst").unwrap();
    let mut w = SstWriter::create(&mut vfs, file, Algorithm::Crc32c).unwrap();
    w.set_block_size(256);
    for i in 0..50u32 {
        let k = format!("key-{i:05}");
        w.add(&mut vfs, k.as_bytes(), b"v", u64::from(i + 1), RecordOp::Put).unwrap();
    }
    let _ = w.finish(&mut vfs).unwrap();

    let r = open_table(&vfs, "sst");
    let all = r.scan(&vfs).unwrap();
    assert_eq!(all.len(), 50);
    let keys: Vec<_> = all.iter().map(|(k, _)| k.clone()).collect();
    let mut sorted = keys.clone();
    sorted.sort();
    assert_eq!(keys, sorted);
}

#[test]
fn bloom_filter_prunes_negative_lookups() {
    let mut vfs = MemVfs::new();
    let file = vfs.open_writable("sst").unwrap();
    let mut w = SstWriter::create(&mut vfs, file, Algorithm::Crc32c).unwrap();
    for i in 0..200u32 {
        let k = format!("present-{i:05}");
        w.add(&mut vfs, k.as_bytes(), b"v", u64::from(i + 1), RecordOp::Put).unwrap();
    }
    let _ = w.finish(&mut vfs).unwrap();

    let r = open_table(&vfs, "sst");
    assert!(r.has_bloom_filter());

    let probes = 1_000u64;
    for i in 0..probes {
        let k = format!("absent-{i:06}");
        let res = r.get(&vfs, k.as_bytes(), u64::MAX).unwrap();
        assert!(res.is_none());
    }
    let pruned = r.bloom_pruned_count();
    let prune_rate = pruned as f64 / probes as f64;
    assert!(
        prune_rate > 0.90,
        "filter prune rate too low: {pruned}/{probes} = {prune_rate}"
    );
}

#[test]
fn corrupted_footer_is_rejected() {
    let mut vfs = build_table(&[(b"k", b"v", 1, RecordOp::Put)]);
    let mut all = content(&vfs, "sst");
    let last = all.len() - 1;
    all[last] ^= 0xFF;
    put_file(&mut vfs, "sst_corrupt", &all);

    let err = SstReader::open(&vfs, vfs.open_readonly("sst_corrupt").unwrap()).err().unwrap();
    assert!(matches!(err, Error::Corruption { .. } | Error::InvalidFormat { .. }));
}

#[test]
fn lookup_takes_the_newest_version_at_the_snapshot_across_blocks() {
    // Small blocks, so that the versions of one key spread over several.
    let mut vfs = MemVfs::new();
    let file = vfs.open_writable("sst").unwrap();
    let mut w = SstWriter::create(&mut vfs, file, Algorithm::Xxh3).unwrap();
    w.set_block_size(128);
    for i in 0..100u64 {
        w.add(&mut vfs, b"k", &[b'x'; 40], 200 - i, RecordOp::Put).unwrap();
    }
    let _ = w.finish(&mut vfs).unwrap();
    let r = open_table(&vfs, "sst");
    assert_eq!(r.checksum_algorithm(), Algorithm::Xxh3);
    assert_eq!(r.get(&vfs, b"k", u64::MAX).unwrap().unwrap().seqno, 200);
    assert_eq!(r.get(&vfs, b"k", 150).unwrap().unwrap().seqno, 150);
    assert_eq!(r.get(&vfs, b"k", 101).unwrap().unwrap().seqno, 101);
    assert!(r.get(&vfs, b"k", 100).unwrap().is_none());
}

#[test]
fn stream_gives_the_records_of_a_scan() {
    let vfs = build_table(&[
        (b"a", b"1", 3, RecordOp::Put),
        (b"a", b"0", 1, RecordOp::Put),
        (b"b", b"", 2, RecordOp::Tombstone),
    ]);
    let r = open_table(&vfs, "sst");
    let mut stream = r.scan_stream().unwrap();
    let mut seen = Vec::new();
    while let Some((k, h)) = stream.next_record(&vfs).unwrap() {
        seen.push((k, h.seqno, h.op, h.value));
    }
    assert_eq!(
        seen,
        vec![
            (b"a".to_vec(), 3, RecordOp::Put, b"1".to_vec()),
            (b"a".to_vec(), 1, RecordOp::Put, b"0".to_vec()),
            (b"b".to_vec(), 2, RecordOp::Tombstone, Vec::new()),
        ]
    );
}

fn build_encrypted(key: &AeadKey, id: u64) -> MemVfs {
    let mut vfs = MemVfs::new();
    let file = vfs.open_writable("sst").unwrap();
    let mut w = SstWriter::create_encrypted(
        &mut vfs,
        file,
        Algorithm::Crc32c,
        10,
        BloomParams::default(),
        key,
        id,
    )
    .unwrap();
    w.add(&mut vfs, b"k", b"a value that must not be readable", 1, RecordOp::Put).unwrap();
    let _ = w.finish(&mut vfs).unwrap();
    vfs
}

#[test]
fn encrypted_table_needs_its_key_and_number() {
    let key = AeadKey::from_bytes([3; 32]);
    let vfs = build_encrypted(&key, 5);
    let f = || vfs.open_readonly("sst").unwrap();

    let r = SstReader::open_encrypted(&vfs, f(), &key, 5).unwrap();
    assert!(r.is_encrypted());
    let hit = r.get(&vfs, b"k", u64::MAX).unwrap().unwrap();
    assert_eq!(hit.value, b"a value that must not be readable".to_vec());
    assert_eq!(r.file_header().flags & flag::ENCRYPTED, flag::ENCRYPTED);

    // Without a key, with another one, and under another number.
    assert!(matches!(SstReader::open(&vfs, f()).err().unwrap(), Error::InvalidFormat { .. }));
    let other = AeadKey::from_bytes([4; 32]);
    let wrong_key = SstReader::open_encrypted(&vfs, f(), &other, 5).unwrap();
    assert!(wrong_key.get(&vfs, b"k", u64::MAX).is_err());
    let wrong_id = SstReader::open_encrypted(&vfs, f(), &key, 6).unwrap();
    assert!(wrong_id.get(&vfs, b"k", u64::MAX).is_err());

    // The value is nowhere in the file.
    let bytes = content(&vfs, "sst");
    assert!(!bytes.windows(8).any(|w| w == b"readable"));
}

#[test]
fn plain_table_opened_with_a_key_is_refused() {
    let vfs = build_table(&[(b"k", b"v", 1, RecordOp::Put)]);
    let key = AeadKey::from_bytes([3; 32]);
    let f = vfs.open_readonly("sst").unwrap();
    assert!(SstReader::open_encrypted(&vfs, f, &key, 1).is_err());
}

#[test]
fn no_filter_when_no_keys_are_expected() {
    let mut vfs = MemVfs::new();
    let file = vfs.open_writable("sst").unwrap();
    let mut w = SstWriter::create_with_filter_capacity(
        &mut vfs,
        file,
        Algorithm::Crc32c,
        0,
        BloomParams::default(),
    )
    .unwrap();
    w.add(&mut vfs, b"k", b"v", 1, RecordOp::Put).unwrap();
    let _ = w.finish(&mut vfs).unwrap();
    let r = open_table(&vfs, "sst");
    assert!(!r.has_bloom_filter());
    assert!(r.get(&vfs, b"absent", u64::MAX).unwrap().is_none());
    assert_eq!(r.bloom_pruned_count(), 0);
    assert!(r.get(&vfs, b"absent", u64::MAX).unwrap().is_none());
    assert!(r.get(&vfs, b"k", u64::MAX).unwrap().is_some());
    assert_eq!(r.footer().filter_handle.length, 0);
}

/// The filter in a table is that of its keys and settings.
#[test]
fn filter_is_built_from_the_keys() {
    for params in [BloomParams::default(), BloomParams { bits_per_key: 16, num_hashes: 3 }] {
        let mut vfs = MemVfs::new();
        let file = vfs.open_writable("sst").unwrap();
        let mut w =
            SstWriter::create_with_filter_capacity(&mut vfs, file, Algorithm::Crc32c, 50, params).unwrap();
        let mut alone = BlockedBloom::new(50, params);
        for i in 0..40u32 {
            let k = format!("key-{i:03}");
            w.add(&mut vfs, k.as_bytes(), b"v", u64::from(i) + 1, RecordOp::Put).unwrap();
            alone.insert(k.as_bytes());
        }
        let _ = w.finish(&mut vfs).unwrap();
        let handle = open_table(&vfs, "sst").footer().filter_handle;
        let bytes = content(&vfs, "sst");
        let start = handle.offset as usize;
        assert_eq!(bytes[start..start + handle.length as usize], alone.encode()[..]);
    }
}

#[test]
fn header_holds_the_least_sequence_number() {
    let vfs = build_table(&[
        (b"a", b"1", 9, RecordOp::Put),
        (b"b", b"2", 5, RecordOp::Put),
        (b"c", b"3", 7, RecordOp::Tombstone),
    ]);
    let r = open_table(&vfs, "sst");
    assert_eq!(r.file_header().min_seqno, 5);
    assert_eq!(r.file_header().max_seqno, 9);
}

#[test]
fn records_at_the_last_sequence_number_are_counted_as_such() {
    let vfs = build_table(&[(b"a", b"1", u64::MAX, RecordOp::Put)]);
    let r = open_table(&vfs, "sst");
    assert_eq!(r.file_header().min_seqno, u64::MAX);
    assert_eq!(r.file_header().max_seqno, u64::MAX);
    let records = r.scan(&vfs).unwrap();
    assert_eq!(records.len(), 1);
    assert_eq!((records[0].0.as_slice(), records[0].1.seqno), (b"a".as_slice(), u64::MAX));

    // Without a record both are zero.
    let vfs = build_table(&[]);
    let r = open_table(&vfs, "sst");
    assert_eq!((r.file_header().min_seqno, r.file_header().max_seqno), (0, 0));
}

/// Data blocks start at multiples of the alignment, filter and index follow
/// them, and handles hold the checksums.
#[test]
fn parts_lie_where_the_header_and_the_footer_say() {
    let mut vfs = MemVfs::new();
    let file = vfs.open_writable("sst").unwrap();
    let mut w = SstWriter::create(&mut vfs, file, Algorithm::Crc32c).unwrap();
    assert_eq!(w.bytes_written(), FILE_HEADER_REGION_SIZE as u64);
    w.set_block_size(600);
    for i in 0..100u32 {
        let k = format!("key-{i:05}");
        w.add(&mut vfs, k.as_bytes(), b"some value", u64::from(i + 1), RecordOp::Put).unwrap();
    }
    assert_eq!(w.bytes_written(), content(&vfs, "sst").len() as u64);
    let _ = w.finish(&mut vfs).unwrap();

    let r = open_table(&vfs, "sst");
    let bytes = content(&vfs, "sst");
    let (header, footer) = (r.file_header(), r.footer());
    let end = header.data_blocks_end_offset;
    assert_eq!(end % BLOCK_ALIGNMENT as u64, 0);
    assert_eq!(footer.filter_handle.offset, end);
    assert_eq!(footer.meta_handle.offset, end);
    assert_eq!(footer.index_handle.offset, end + u64::from(footer.filter_handle.length));

    let part = |h: &BlockHandle| bytes[h.offset as usize..][..h.length as usize].to_vec();
    let trailer = |b: &[u8]| u32::from_le_bytes([b[b.len() - 4], b[b.len() - 3], b[b.len() - 2], b[b.len() - 1]]);
    assert_eq!(footer.filter_handle.checksum, crc32c::hash(&part(&footer.filter_handle)));
    let index = part(&footer.index_handle);
    assert_eq!(footer.index_handle.checksum, trailer(&index));
    let index = BlockReader::open(&index).unwrap();
    let mut it = index.iter();
    let mut blocks = 0u64;
    while let Some(rec) = it.next() {
        let v: [u8; BLOCK_HANDLE_SIZE] = rec.value.try_into().unwrap();
        let h = BlockHandle {
            offset: u64::from_le_bytes(v[..8].try_into().unwrap()),
            length: u32::from_le_bytes(v[8..12].try_into().unwrap()),
            checksum: u32::from_le_bytes(v[12..].try_into().unwrap()),
        };
        assert_eq!(h.offset % BLOCK_ALIGNMENT as u64, 0);
        assert!(h.offset + u64::from(h.length) <= end);
        assert_eq!(h.checksum, trailer(&part(&h)));
        blocks += 1;
    }
    assert!(blocks > 3);
    assert_eq!(blocks, header.num_blocks);
}

#[test]
fn damaged_data_block_is_noticed() {
    let mut vfs = build_table(&[(b"k", b"v", 1, RecordOp::Put)]);
    let mut all = content(&vfs, "sst");
    all[FILE_HEADER_REGION_SIZE] ^= 0x01;
    put_file(&mut vfs, "damaged", &all);
    let r = open_table(&vfs, "damaged");
    assert!(r.get(&vfs, b"k", u64::MAX).is_err());
    assert!(r.scan(&vfs).is_err());
}

#[test]
fn damaged_header_and_short_files_are_refused() {
    let mut vfs = build_table(&[(b"k", b"v", 1, RecordOp::Put)]);
    let all = content(&vfs, "sst");
    let mut bad_magic = all.clone();
    bad_magic[0] ^= 0xFF;
    put_file(&mut vfs, "bad_magic", &bad_magic);
    assert!(SstReader::open(&vfs, vfs.open_readonly("bad_magic").unwrap()).is_err());
    put_file(&mut vfs, "short", &all[..FOOTER_SIZE]);
    assert!(SstReader::open(&vfs, vfs.open_readonly("short").unwrap()).is_err());
    put_file(&mut vfs, "nothing", b"");
    assert!(SstReader::open(&vfs, vfs.open_readonly("nothing").unwrap()).is_err());
}
