//! Merging sorted sources and tables.
use paddock_core::checksum::Algorithm;
use paddock_core::compaction::compact::{compact_sstables, CompactionConfig};
use paddock_core::compaction::merger::{KWayMerge, RecordList};
use paddock_core::crypto::AeadKey;
use paddock_core::io::vfs::{MemFile, MemVfs, Vfs};
use paddock_core::sstable::format::RecordOp;
use paddock_core::sstable::reader::LookupHit;
use paddock_core::sstable::{SstReader, SstWriter};

fn stream(records: Vec<(&[u8], u64, &[u8])>) -> RecordList {
    RecordList::new(
        records
            .into_iter()
            .map(|(k, s, v)| {
                (k.to_vec(), LookupHit { seqno: s, op: RecordOp::Put, value: v.to_vec() })
            })
            .collect(),
    )
}

fn drain(mut m: KWayMerge<RecordList>) -> Vec<(Vec<u8>, LookupHit)> {
    let mut out = Vec::new();
    while let Some(r) = m.next_record(&()).unwrap() {
        out.push(r);
    }
    out
}

fn collect_keys(m: KWayMerge<RecordList>) -> Vec<(Vec<u8>, u64)> {
    drain(m).into_iter().map(|(k, h)| (k, h.seqno)).collect()
}

#[test]
fn empty_merger_yields_nothing() {
    let streams: Vec<RecordList> = Vec::new();
    let mut m = KWayMerge::new(streams);
    assert!(m.next_record(&()).unwrap().is_none());
}

#[test]
fn single_input_passes_through() {
    let s = stream(vec![(b"a", 1, b"1"), (b"b", 2, b"2"), (b"c", 3, b"3")]);
    let m = KWayMerge::new(vec![s]);
    assert_eq!(m.input_count(), 1);
    let keys = collect_keys(m);
    assert_eq!(keys, vec![(b"a".to_vec(), 1), (b"b".to_vec(), 2), (b"c".to_vec(), 3)]);
}

#[test]
fn two_disjoint_inputs_interleave_by_key() {
    let s1 = stream(vec![(b"a", 1, b""), (b"c", 3, b"")]);
    let s2 = stream(vec![(b"b", 2, b""), (b"d", 4, b"")]);
    let m = KWayMerge::new(vec![s1, s2]);
    let keys: Vec<_> = collect_keys(m).into_iter().map(|(k, _)| k).collect();
    assert_eq!(keys, vec![b"a".to_vec(), b"b".to_vec(), b"c".to_vec(), b"d".to_vec()]);
}

#[test]
fn same_key_different_seqnos_emerge_newest_first() {
    let s_new = stream(vec![(b"X", 100, b"new")]);
    let s_old = stream(vec![(b"X", 50, b"old")]);
    let m = KWayMerge::new(vec![s_new, s_old]);
    let order: Vec<_> = collect_keys(m).into_iter().map(|(_, s)| s).collect();
    assert_eq!(order, vec![100, 50]);
}

#[test]
fn same_key_same_seqno_resolves_toward_lower_source_index() {
    let s_new = stream(vec![(b"X", 7, b"new")]);
    let s_old = stream(vec![(b"X", 7, b"old")]);
    let mut m = KWayMerge::new(vec![s_new, s_old]);
    let first = m.next_record(&()).unwrap().unwrap();
    assert_eq!(first.1.value, b"new");
    let second = m.next_record(&()).unwrap().unwrap();
    assert_eq!(second.1.value, b"old");
    assert!(m.next_record(&()).unwrap().is_none());
}

#[test]
fn large_interleaved_workload_emerges_globally_sorted() {
    // The same keys in four sources, under different sequence numbers.
    let mut streams = Vec::new();
    for shard in 0..4u32 {
        let recs: Vec<_> = (0..250u32)
            .map(|i| {
                let key = format!("k-{:04}", i);
                let seqno = u64::from(shard) * 1000 + u64::from(i);
                let value = format!("s{shard}-i{i}");
                (
                    key.into_bytes(),
                    LookupHit { seqno, op: RecordOp::Put, value: value.into_bytes() },
                )
            })
            .collect();
        streams.push(RecordList::new(recs));
    }
    let merged = drain(KWayMerge::new(streams));
    assert_eq!(merged.len(), 1000);
    for w in merged.windows(2) {
        let (k1, h1) = &w[0];
        let (k2, h2) = &w[1];
        assert!(k1 <= k2, "key order broken: {k1:?} > {k2:?}");
        if k1 == k2 {
            assert!(h1.seqno >= h2.seqno, "seqno order broken at {k1:?}");
        }
    }
}

#[test]
fn merge_keeps_every_record() {
    let s1 = stream(vec![(b"a", 5, b"a5"), (b"b", 1, b"b1")]);
    let s2 = stream(vec![(b"a", 2, b"a2"), (b"c", 9, b"c9")]);
    let s3 = stream(vec![]);
    let values: Vec<_> =
        drain(KWayMerge::new(vec![s1, s2, s3])).into_iter().map(|(_, h)| h.value).collect();
    assert_eq!(values, vec![b"a5".to_vec(), b"a2".to_vec(), b"b1".to_vec(), b"c9".to_vec()]);
}

/// Records at one key and sequence number come in the order of their sources,
/// and within a source in the order in which they stand.
#[test]
fn equal_records_keep_the_order_of_their_sources() {
    let s1 = stream(vec![(b"a", 9, b"x"), (b"k", 5, b"1a"), (b"k", 5, b"1b"), (b"z", 1, b"y")]);
    let s2 = stream(vec![(b"k", 7, b"new"), (b"k", 5, b"2a")]);
    let s3 = stream(vec![(b"k", 5, b"3a"), (b"k", 5, b"3b"), (b"k", 4, b"old")]);
    let mut m = KWayMerge::new(vec![s1, s2, s3]);
    let mut values = Vec::new();
    while let Some((k, h)) = m.next_record(&()).unwrap() {
        if k == b"k" {
            values.push(h.value);
        }
    }
    let expected: [&[u8]; 7] = [b"new", b"1a", b"1b", b"2a", b"3a", b"3b", b"old"];
    assert_eq!(values, expected.map(|v| v.to_vec()));
    // Past the end it stays at the end.
    assert!(m.next_record(&()).unwrap().is_none());
    assert!(m.next_record(&()).unwrap().is_none());
}

fn build_table(vfs: &mut MemVfs, path: &str, records: &[(&[u8], &[u8], u64, RecordOp)]) {
    let file = vfs.open_writable(path).unwrap();
    let mut w = SstWriter::create(vfs, file, Algorithm::Crc32c).unwrap();
    for (k, v, s, op) in records {
        w.add(vfs, k, v, *s, *op).unwrap();
    }
    let _ = w.finish(vfs).unwrap();
}

fn open_table(vfs: &MemVfs, path: &str) -> SstReader<MemFile> {
    SstReader::open(vfs, vfs.open_readonly(path).unwrap()).unwrap()
}

fn read_all(vfs: &MemVfs, sst: &SstReader<MemFile>) -> Vec<(Vec<u8>, u64, RecordOp, Vec<u8>)> {
    sst.scan(vfs)
        .unwrap()
        .into_iter()
        .map(|(k, h)| (k, h.seqno, h.op, h.value))
        .collect()
}

#[test]
fn compacts_two_disjoint_tables_into_one() {
    let mut vfs = MemVfs::new();
    build_table(
        &mut vfs,
        "a.sst",
        &[(b"alpha", b"1", 1, RecordOp::Put), (b"bravo", b"2", 2, RecordOp::Put)],
    );
    build_table(
        &mut vfs,
        "b.sst",
        &[(b"charlie", b"3", 3, RecordOp::Put), (b"delta", b"4", 4, RecordOp::Put)],
    );
    let r_a = open_table(&vfs, "a.sst");
    let r_b = open_table(&vfs, "b.sst");

    // Newer first.
    let out =
        compact_sstables(&mut vfs, &[&r_b, &r_a], "merged.sst", &CompactionConfig::default())
            .unwrap();
    assert_eq!(out.records_emitted, 4);

    let records = read_all(&vfs, &out.reader);
    let keys: Vec<_> = records.iter().map(|r| r.0.clone()).collect();
    assert_eq!(
        keys,
        vec![
            b"alpha".to_vec(),
            b"bravo".to_vec(),
            b"charlie".to_vec(),
            b"delta".to_vec(),
        ]
    );
}

#[test]
fn duplicate_keys_appear_in_newest_first_order() {
    let mut vfs = MemVfs::new();
    build_table(&mut vfs, "new.sst", &[(b"k", b"new", 100, RecordOp::Put)]);
    build_table(&mut vfs, "old.sst", &[(b"k", b"old", 50, RecordOp::Put)]);
    let r_new = open_table(&vfs, "new.sst");
    let r_old = open_table(&vfs, "old.sst");

    let out =
        compact_sstables(&mut vfs, &[&r_new, &r_old], "merged.sst", &CompactionConfig::default())
            .unwrap();
    assert_eq!(out.records_emitted, 2);

    // Every version is kept, the newest first.
    let records = read_all(&vfs, &out.reader);
    assert_eq!(records[0].1, 100);
    assert_eq!(records[0].3, b"new".to_vec());
    assert_eq!(records[1].1, 50);
    assert_eq!(records[1].3, b"old".to_vec());
}

#[test]
fn point_lookup_via_merged_reader_finds_newest_version() {
    let mut vfs = MemVfs::new();
    build_table(&mut vfs, "new.sst", &[(b"k", b"new", 100, RecordOp::Put)]);
    build_table(&mut vfs, "old.sst", &[(b"k", b"old", 50, RecordOp::Put)]);
    let r_new = open_table(&vfs, "new.sst");
    let r_old = open_table(&vfs, "old.sst");
    let out =
        compact_sstables(&mut vfs, &[&r_new, &r_old], "m.sst", &CompactionConfig::default())
            .unwrap();
    let hit = out.reader.get(&vfs, b"k", u64::MAX).unwrap().unwrap();
    assert_eq!(hit.value, b"new".to_vec());
    assert_eq!(hit.seqno, 100);
}

#[test]
fn large_compaction_preserves_ordering_and_count() {
    let mut vfs = MemVfs::new();
    // Five tables with overlapping keys.
    let mut readers = Vec::new();
    for shard in 0..5u32 {
        let path = format!("shard-{shard}.sst");
        let file = vfs.open_writable(&path).unwrap();
        let mut w = SstWriter::create(&mut vfs, file, Algorithm::Crc32c).unwrap();
        for i in 0..200u32 {
            let k = format!("k-{:04}", i);
            let v = format!("s{shard}-v{i}");
            let seqno = u64::from(shard) * 1000 + u64::from(i);
            w.add(&mut vfs, k.as_bytes(), v.as_bytes(), seqno, RecordOp::Put).unwrap();
        }
        let _ = w.finish(&mut vfs).unwrap();
        readers.push(open_table(&vfs, &path));
    }
    // The last one is the newest.
    readers.reverse();
    let inputs: Vec<&SstReader<MemFile>> = readers.iter().collect();

    let out = compact_sstables(&mut vfs, &inputs, "m.sst", &CompactionConfig::default()).unwrap();
    assert_eq!(out.records_emitted, 5 * 200);

    let records = read_all(&vfs, &out.reader);
    for w in records.windows(2) {
        let (k1, s1, _, _) = &w[0];
        let (k2, s2, _, _) = &w[1];
        assert!(k1 <= k2, "key order broken");
        if k1 == k2 {
            assert!(s1 >= s2);
        }
    }
}

#[test]
fn compaction_encrypts_its_output_when_asked() {
    let mut vfs = MemVfs::new();
    build_table(&mut vfs, "a.sst", &[(b"k", b"v", 1, RecordOp::Put)]);
    let r = open_table(&vfs, "a.sst");
    let key = AeadKey::from_bytes([8; 32]);
    let config = CompactionConfig { encryption: Some((&key, 12)), ..CompactionConfig::default() };
    let out = compact_sstables(&mut vfs, &[&r], "sealed.sst", &config).unwrap();
    assert!(out.reader.is_encrypted());
    assert_eq!(out.reader.get(&vfs, b"k", u64::MAX).unwrap().unwrap().value, b"v".to_vec());
    let reopened =
        SstReader::open_encrypted(&vfs, vfs.open_readonly("sealed.sst").unwrap(), &key, 12)
            .unwrap();
    assert_eq!(reopened.scan(&vfs).unwrap().len(), 1);
}
