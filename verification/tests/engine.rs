//! The engine, one feature at a time.
use paddock_core::engine::names::{parse_sst_name, parse_wal_segment_name, sst_path, wal_segment_path};
use paddock_core::engine::range::KeyBound;
use paddock_core::engine::DbConfig;
use paddock_core::io::vfs::{MemFile, MemVfs, Vfs, VfsFile};
use paddock_core::wal::batch::{WriteBatch, MAX_OPS_PER_BATCH};
use paddock_core::{Db, Error, Result};

fn open_fresh() -> Db<MemVfs> {
    let vfs = MemVfs::new();
    match Db::open(vfs, "/db") {
        Ok(db) => db,
        Err(e) => panic!("open: {}", e.to_string()),
    }
}

#[test]
fn put_then_get_round_trips() {
    let mut db = open_fresh();
    db.put(b"alpha", b"one").unwrap();
    db.put(b"bravo", b"two").unwrap();
    assert_eq!(db.get(b"alpha").unwrap(), Some(b"one".to_vec()));
    assert_eq!(db.get(b"bravo").unwrap(), Some(b"two".to_vec()));
    assert_eq!(db.get(b"missing").unwrap(), None);
}

#[test]
fn delete_hides_a_previous_put() {
    let mut db = open_fresh();
    db.put(b"k", b"v").unwrap();
    assert_eq!(db.get(b"k").unwrap(), Some(b"v".to_vec()));
    db.delete(b"k").unwrap();
    assert_eq!(db.get(b"k").unwrap(), None);
}

#[test]
fn snapshot_sees_old_value_after_overwrite() {
    let mut db = open_fresh();
    db.put(b"k", b"v1").unwrap();
    let snap = db.snapshot();
    db.put(b"k", b"v2").unwrap();
    assert_eq!(db.get_at(b"k", snap).unwrap(), Some(b"v1".to_vec()));
    assert_eq!(db.get(b"k").unwrap(), Some(b"v2".to_vec()));
}

#[test]
fn flush_drains_memtable_to_sstable_and_reads_still_work() {
    let mut db = open_fresh();
    for i in 0..50u32 {
        db.put(format!("k-{i:03}").as_bytes(), format!("v-{i:03}").as_bytes()).unwrap();
    }
    assert_eq!(db.sstable_count(), 0);
    db.flush().unwrap();
    assert_eq!(db.sstable_count(), 1);
    for i in 0..50u32 {
        let k = format!("k-{i:03}");
        let expected = format!("v-{i:03}");
        assert_eq!(
            db.get(k.as_bytes()).unwrap(),
            Some(expected.into_bytes()),
            "miss after flush for {k}"
        );
    }
}

#[test]
fn after_flush_overwrites_still_shadow_sstable_value() {
    let mut db = open_fresh();
    db.put(b"k", b"first").unwrap();
    db.flush().unwrap();
    db.put(b"k", b"second").unwrap();
    // The memtable's newer record wins over the table's.
    assert_eq!(db.get(b"k").unwrap(), Some(b"second".to_vec()));
    // Now both versions are in tables, and the newest table is walked first.
    db.flush().unwrap();
    assert_eq!(db.sstable_count(), 2);
    assert_eq!(db.get(b"k").unwrap(), Some(b"second".to_vec()));
}

#[test]
fn recovery_replays_wal_into_a_fresh_memtable() {
    let mut db = open_fresh();
    db.put(b"persist", b"yes").unwrap();
    db.put(b"x", b"y").unwrap();
    // Not flushed: the values live only in the log.
    let vfs = db.into_vfs();
    let db2 = Db::open(vfs, "/db").unwrap();
    assert_eq!(db2.get(b"persist").unwrap(), Some(b"yes".to_vec()));
    assert_eq!(db2.get(b"x").unwrap(), Some(b"y".to_vec()));
    assert_eq!(db2.current_seqno(), 2);
    assert_eq!(db2.sstable_count(), 0);
}

#[test]
fn recovery_then_flush_emits_an_sstable() {
    let mut db = open_fresh();
    for i in 0..20u32 {
        db.put(format!("k{i}").as_bytes(), format!("v{i}").as_bytes()).unwrap();
    }
    let vfs = db.into_vfs();
    let mut db2 = Db::open(vfs, "/db").unwrap();
    db2.flush().unwrap();
    assert!(db2.sstable_count() >= 1);
    for i in 0..20u32 {
        let k = format!("k{i}");
        assert_eq!(db2.get(k.as_bytes()).unwrap(), Some(format!("v{i}").into_bytes()));
    }
}

#[test]
fn many_writes_and_flushes_stay_consistent() {
    let mut db = open_fresh();
    for round in 0..5u32 {
        for i in 0..100u32 {
            let k = format!("k-{round}-{i:04}");
            let v = format!("v-{round}-{i:04}");
            db.put(k.as_bytes(), v.as_bytes()).unwrap();
        }
        db.flush().unwrap();
    }
    // A key of every round.
    for round in 0..5u32 {
        let k = format!("k-{round}-0042");
        let v = format!("v-{round}-0042");
        assert_eq!(db.get(k.as_bytes()).unwrap(), Some(v.into_bytes()));
    }
}

#[test]
fn delete_then_flush_persists_tombstone() {
    let mut db = open_fresh();
    db.put(b"k", b"v").unwrap();
    db.flush().unwrap();
    db.delete(b"k").unwrap();
    db.flush().unwrap();
    // The newer table has the tombstone, the older one the value.
    assert_eq!(db.get(b"k").unwrap(), None);
}

#[test]
fn seqno_advances_monotonically() {
    let mut db = open_fresh();
    let s0 = db.current_seqno();
    db.put(b"a", b"1").unwrap();
    assert!(db.current_seqno() > s0);
    let s1 = db.current_seqno();
    db.put(b"b", b"2").unwrap();
    assert!(db.current_seqno() > s1);
}

#[test]
fn fresh_directory_holds_nothing() {
    let db = open_fresh();
    assert_eq!(db.current_seqno(), 0);
    assert_eq!(db.sstable_count(), 0);
    assert_eq!(db.get(b"").unwrap(), None);
    assert!(db.scan_all().unwrap().next().unwrap().is_none());
    assert!(db.engine_state().active_memtable.is_empty());
    assert!(db.engine_state().immutable_memtables.is_empty());
}

#[test]
fn last_operation_of_a_batch_wins_on_its_key() {
    let mut db = open_fresh();
    let mut batch = WriteBatch::new();
    batch.put(b"k", b"1").delete(b"k").put(b"k", b"2").put(b"gone", b"x").delete(b"gone");
    db.write_batch(&batch).unwrap();
    assert_eq!(db.get(b"k").unwrap(), Some(b"2".to_vec()));
    assert_eq!(db.get(b"gone").unwrap(), None);
    // A batch is one write.
    assert_eq!(db.current_seqno(), 1);
}

#[test]
fn empty_batch_is_a_write_of_nothing() {
    let mut db = open_fresh();
    db.put(b"k", b"v").unwrap();
    db.write_batch(&WriteBatch::new()).unwrap();
    assert_eq!(db.current_seqno(), 2);
    assert_eq!(db.get(b"k").unwrap(), Some(b"v".to_vec()));
}

#[test]
fn batch_with_too_many_operations_is_refused() {
    let mut db = open_fresh();
    db.put(b"k", b"v").unwrap();
    let mut batch = WriteBatch::new();
    for _ in 0..=MAX_OPS_PER_BATCH {
        batch.delete(b"k");
    }
    let err = db.write_batch(&batch).unwrap_err();
    assert!(matches!(err, Error::InvalidArgument(_)));
    assert_eq!(db.get(b"k").unwrap(), Some(b"v".to_vec()));
}

#[test]
fn full_memtable_is_rotated_and_stays_readable() {
    let config = DbConfig { memtable_threshold_bytes: 4096, ..DbConfig::default() };
    let mut db = Db::open_with(MemVfs::new(), "/db", config).unwrap();
    for i in 0..200u32 {
        db.put(format!("k-{i:04}").as_bytes(), &[b'x'; 100]).unwrap();
    }
    let waiting = db.engine_state().immutable_memtables.len();
    assert!(waiting > 1, "the memtable should have been rotated");
    assert_eq!(db.get(b"k-0000").unwrap(), Some(vec![b'x'; 100]));
    db.flush().unwrap();
    assert!(db.engine_state().immutable_memtables.is_empty());
    assert!(db.sstable_count() > waiting);
    for i in 0..200u32 {
        assert!(db.get(format!("k-{i:04}").as_bytes()).unwrap().is_some());
    }
    // The rotated segments are gone from the directory.
    let segments: Vec<String> =
        db.vfs().list("/db").unwrap().into_iter().filter(|n| parse_wal_segment_name(n).is_some()).collect();
    assert_eq!(segments.len(), 1);
}

#[test]
fn rotated_memtables_are_recovered_too() {
    let config = DbConfig { memtable_threshold_bytes: 4096, ..DbConfig::default() };
    let mut db = Db::open_with(MemVfs::new(), "/db", config).unwrap();
    for i in 0..200u32 {
        db.put(format!("k-{i:04}").as_bytes(), &i.to_le_bytes()).unwrap();
    }
    let last = db.current_seqno();
    let db = Db::open(db.into_vfs(), "/db").unwrap();
    assert_eq!(db.current_seqno(), last);
    for i in 0..200u32 {
        assert_eq!(
            db.get(format!("k-{i:04}").as_bytes()).unwrap(),
            Some(i.to_le_bytes().to_vec())
        );
    }
}

/// A file system in memory that counts how often a file is made durable.
struct CountingVfs {
    inner: MemVfs,
    syncs: u32,
}

struct CountingFile(MemFile);

impl VfsFile for CountingFile {
    type Fs = CountingVfs;

    fn append(&self, fs: &mut CountingVfs, data: &[u8]) -> Result<u64> {
        self.0.append(&mut fs.inner, data)
    }

    fn write_at(&self, fs: &mut CountingVfs, data: &[u8], offset: u64) -> Result<()> {
        self.0.write_at(&mut fs.inner, data, offset)
    }

    fn sync(&self, fs: &mut CountingVfs) -> Result<()> {
        fs.syncs += 1;
        self.0.sync(&mut fs.inner)
    }

    fn read_at(&self, fs: &CountingVfs, buf: &mut [u8], offset: u64) -> Result<()> {
        self.0.read_at(&fs.inner, buf, offset)
    }

    fn size(&self, fs: &CountingVfs) -> Result<u64> {
        self.0.size(&fs.inner)
    }
}

impl Vfs for CountingVfs {
    type File = CountingFile;

    fn open_writable(&mut self, path: &str) -> Result<CountingFile> {
        self.inner.open_writable(path).map(CountingFile)
    }

    fn open_readonly(&self, path: &str) -> Result<CountingFile> {
        self.inner.open_readonly(path).map(CountingFile)
    }

    fn rename(&mut self, from: &str, to: &str) -> Result<()> {
        self.inner.rename(from, to)
    }

    fn remove(&mut self, path: &str) -> Result<()> {
        self.inner.remove(path)
    }

    fn list(&self, dir: &str) -> Result<Vec<String>> {
        self.inner.list(dir)
    }
}

#[test]
fn writes_and_tables_are_made_durable() {
    let vfs = CountingVfs { inner: MemVfs::new(), syncs: 0 };
    let mut db = Db::open(vfs, "/db").unwrap();
    let opened = db.vfs().syncs;
    for i in 0..3u32 {
        db.put(&i.to_le_bytes(), b"v").unwrap();
        assert_eq!(db.vfs().syncs, opened + i + 1);
    }
    db.flush().unwrap();
    assert_eq!(db.vfs().syncs, opened + 4);
}

fn files(db: &Db<MemVfs>) -> Vec<String> {
    let mut names = db.vfs().list("/db").unwrap();
    names.sort();
    names
}

#[test]
fn flush_with_nothing_pending_changes_nothing() {
    let mut db = open_fresh();
    db.put(b"k", b"v").unwrap();
    db.flush().unwrap();
    let before = files(&db);
    db.flush().unwrap();
    assert_eq!(files(&db), before);
    assert_eq!(db.sstable_count(), 1);
    assert_eq!(db.current_seqno(), 1);
}

#[test]
fn compaction_leaves_one_table_file() {
    let mut db = open_fresh();
    for i in 0..3u32 {
        db.put(format!("k{i}").as_bytes(), b"v").unwrap();
        db.flush().unwrap();
    }
    let tables = |names: &Vec<String>| -> Vec<u64> {
        names.iter().filter_map(|n| parse_sst_name(n)).collect()
    };
    let old = files(&db);
    assert_eq!(tables(&old).len(), 3);
    db.compact_all().unwrap();
    let new = files(&db);
    let left = tables(&new);
    assert_eq!(left.len(), 1);
    assert!(!tables(&old).contains(&left[0]));
    // Whatever is no table stays.
    let rest = |names: &Vec<String>| -> Vec<String> {
        names.iter().filter(|n| parse_sst_name(n).is_none()).cloned().collect()
    };
    assert_eq!(rest(&new), rest(&old));
}

#[test]
fn reopening_restores_the_counter_and_every_snapshot() {
    let mut db = open_fresh();
    db.put(b"k", b"1").unwrap();
    db.put(b"k", b"2").unwrap();
    let middle = db.snapshot();
    db.flush().unwrap();
    db.delete(b"k").unwrap();
    db.put(b"other", b"3").unwrap();
    let last = db.current_seqno();
    let mut db = Db::open(db.into_vfs(), "/db").unwrap();
    assert_eq!(db.current_seqno(), last);
    assert_eq!(db.get_at(b"k", middle).unwrap(), Some(b"2".to_vec()));
    assert_eq!(db.get(b"k").unwrap(), None);
    assert_eq!(db.get(b"other").unwrap(), Some(b"3".to_vec()));
    db.put(b"k", b"4").unwrap();
    assert_eq!(db.current_seqno(), last + 1);
}

#[test]
fn close_leaves_everything_in_tables() {
    let mut db = open_fresh();
    db.put(b"a", b"1").unwrap();
    db.put(b"b", b"2").unwrap();
    db.delete(b"a").unwrap();
    let last = db.current_seqno();
    let vfs = db.close().unwrap();
    let db = Db::open(vfs, "/db").unwrap();
    assert_eq!(db.sstable_count(), 1);
    assert_eq!(db.current_seqno(), last);
    assert_eq!(db.get(b"a").unwrap(), None);
    assert_eq!(db.get(b"b").unwrap(), Some(b"2".to_vec()));
}

/// A crash may leave the segment of a flushed memtable behind. Its records
/// must not shadow what the tables say.
#[test]
fn stale_segment_does_not_shadow_newer_tables() {
    let mut db = open_fresh();
    db.put(b"k", b"old").unwrap();
    let stale: Vec<(String, Vec<u8>)> = {
        let vfs = db.vfs();
        vfs.list("/db")
            .unwrap()
            .into_iter()
            .map(|name| {
                let f = vfs.open_readonly(&format!("/db/{name}")).unwrap();
                let mut bytes = vec![0u8; f.size(vfs).unwrap() as usize];
                f.read_at(vfs, &mut bytes, 0).unwrap();
                (name, bytes)
            })
            .collect()
    };
    db.flush().unwrap();
    db.put(b"k", b"new").unwrap();
    db.flush().unwrap();
    let last = db.current_seqno();
    let mut vfs = db.into_vfs();
    for (name, bytes) in &stale {
        let path = format!("/db/{name}");
        if vfs.open_readonly(&path).is_err() {
            let f = vfs.open_writable(&path).unwrap();
            f.append(&mut vfs, bytes).unwrap();
        }
    }
    let mut db = Db::open(vfs, "/db").unwrap();
    assert_eq!(db.get(b"k").unwrap(), Some(b"new".to_vec()));
    assert_eq!(db.current_seqno(), last);
    db.flush().unwrap();
    assert_eq!(db.get(b"k").unwrap(), Some(b"new".to_vec()));
}

#[test]
fn torn_last_write_is_lost_alone() {
    let mut db = open_fresh();
    db.put(b"safe", b"1").unwrap();
    db.put(b"torn", b"a value long enough to cut").unwrap();
    let vfs = db.into_vfs();
    // Cut the tail of the log.
    let name = vfs.list("/db").unwrap().into_iter().find(|n| parse_wal_segment_name(n).is_some()).unwrap();
    let path = format!("/db/{name}");
    let f = vfs.open_readonly(&path).unwrap();
    let mut bytes = vec![0u8; f.size(&vfs).unwrap() as usize];
    f.read_at(&vfs, &mut bytes, 0).unwrap();
    let mut cut = MemVfs::new();
    let g = cut.open_writable(&path).unwrap();
    g.append(&mut cut, &bytes[..bytes.len() - 5]).unwrap();
    let mut db = Db::open(cut, "/db").unwrap();
    assert_eq!(db.get(b"safe").unwrap(), Some(b"1".to_vec()));
    assert_eq!(db.get(b"torn").unwrap(), None);
    db.put(b"torn", b"again").unwrap();
    assert_eq!(db.get(b"torn").unwrap(), Some(b"again".to_vec()));
}

#[test]
fn names_of_files() {
    assert_eq!(wal_segment_path("/db", 1), "/db/wal-00000001.log");
    assert_eq!(sst_path("/db", 42), "/db/00000042.sst");
    assert_eq!(parse_wal_segment_name("wal-00000001.log"), Some(1));
    assert_eq!(parse_sst_name("00000042.sst"), Some(42));
    assert_eq!(parse_sst_name("wal-00000001.log"), None);
    assert_eq!(parse_wal_segment_name("00000042.sst"), None);
    assert_eq!(parse_sst_name("x.sst"), None);
    assert_eq!(parse_sst_name("18446744073709551616.sst"), None);
    for id in [0u64, 7, 99_999_999, 123_456_789_012, u64::MAX] {
        let sst = sst_path("", id);
        let wal = wal_segment_path("", id);
        let bare = |p: &str| p.rsplit('/').next().unwrap().to_owned();
        assert_eq!(parse_sst_name(&bare(&sst)), Some(id));
        assert_eq!(parse_wal_segment_name(&bare(&wal)), Some(id));
    }
}

#[test]
fn range_bounds_of_each_kind() {
    let mut db = open_fresh();
    for c in b'a'..=b'e' {
        db.put(&[c], &[c]).unwrap();
    }
    let keys = |start: KeyBound<'_>, end: KeyBound<'_>| {
        let mut it = db.range_bounds(start, end, db.snapshot()).unwrap();
        let mut out = Vec::new();
        while let Some(r) = it.next().unwrap() {
            out.extend_from_slice(&r.key);
        }
        out
    };
    assert_eq!(keys(KeyBound::Unbounded, KeyBound::Unbounded), b"abcde".to_vec());
    assert_eq!(keys(KeyBound::Included(b"b"), KeyBound::Included(b"d")), b"bcd".to_vec());
    assert_eq!(keys(KeyBound::Excluded(b"b"), KeyBound::Excluded(b"d")), b"c".to_vec());
    assert_eq!(keys(KeyBound::Excluded(b"d"), KeyBound::Excluded(b"b")), Vec::<u8>::new());
}

#[test]
fn range_gives_the_sequence_number_of_the_write() {
    let mut db = open_fresh();
    db.put(b"a", b"1").unwrap();
    db.put(b"a", b"2").unwrap();
    let mut it = db.range(b"", b"z").unwrap();
    let r = it.next().unwrap().unwrap();
    assert_eq!((r.key, r.value, r.seqno), (b"a".to_vec(), b"2".to_vec(), 2));
    assert!(it.next().unwrap().is_none());
}

#[test]
fn other_keys_keep_their_values() {
    let mut db = open_fresh();
    for i in 0..20u8 {
        db.put(&[i], &[i]).unwrap();
    }
    db.put(&[7], b"changed").unwrap();
    db.delete(&[8]).unwrap();
    for i in 0..20u8 {
        let expected = match i {
            7 => Some(b"changed".to_vec()),
            8 => None,
            _ => Some(vec![i]),
        };
        assert_eq!(db.get(&[i]).unwrap(), expected);
    }
}
