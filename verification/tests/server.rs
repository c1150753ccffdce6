//! Replies of the HTTP front end.
use paddock_core::engine::names::parse_sst_name;
use paddock_core::io::vfs::{MemVfs, Vfs, VfsFile};
use paddock_core::server::{
    build_config, compact, decode_hex_32, delete_kv, engine_err, flush, get_kv, health, put_kv,
    reply_to_get, reply_to_write, scan, scan_limit, scan_range, stats, Body, Reply, MAX_KEY_LEN,
    MAX_VALUE_LEN,
};
use paddock_core::{Db, Error};

fn open() -> Db<MemVfs> {
    Db::open(MemVfs::new(), ".").unwrap()
}

fn text(reply: &Reply) -> (u16, String) {
    match &reply.body {
        Body::Text(s) => (reply.status, s.clone()),
        Body::Bytes(b) => (reply.status, format!("{b:?}")),
        Body::Empty => (reply.status, String::new()),
    }
}

#[test]
fn health_is_always_ok() {
    assert_eq!(text(&health()), (200, "ok\n".to_owned()));
}

#[test]
fn put_get_delete_over_the_wire() {
    let mut db = open();
    let stored = put_kv(&mut db, "greeting", b"hello");
    assert_eq!(stored.status, 204);
    assert!(matches!(stored.body, Body::Empty));
    let got = get_kv(&db, "greeting");
    assert_eq!(got.status, 200);
    assert!(matches!(got.body, Body::Bytes(b) if b == b"hello".to_vec()));
    assert_eq!(delete_kv(&mut db, "greeting").status, 204);
    assert_eq!(text(&get_kv(&db, "greeting")), (404, "not found\n".to_owned()));
}

#[test]
fn keys_and_values_over_the_limit_are_refused() {
    let mut db = open();
    let longest = "k".repeat(MAX_KEY_LEN);
    let too_long = "k".repeat(MAX_KEY_LEN + 1);
    assert_eq!(put_kv(&mut db, &longest, b"v").status, 204);
    assert_eq!(text(&put_kv(&mut db, &too_long, b"v")), (400, "key too long".to_owned()));
    assert_eq!(text(&get_kv(&db, &too_long)), (400, "key too long".to_owned()));
    assert_eq!(text(&delete_kv(&mut db, &too_long)), (400, "key too long".to_owned()));
    let big = vec![0u8; MAX_VALUE_LEN];
    assert_eq!(put_kv(&mut db, "big", &big).status, 204);
    let bigger = vec![0u8; MAX_VALUE_LEN + 1];
    assert_eq!(text(&put_kv(&mut db, "big", &bigger)), (413, "value too large".to_owned()));
    // The limit on keys is one on bytes, not on characters.
    let wide = "ä".repeat(MAX_KEY_LEN / 2 + 1);
    assert_eq!(put_kv(&mut db, &wide, b"v").status, 400);
}

#[test]
fn engine_failures_become_replies() {
    let e = Error::Shutdown;
    assert_eq!(text(&engine_err(&e)), (500, "engine error: engine is shut down\n".to_owned()));
    assert_eq!(text(&reply_to_write(&Err(Error::Shutdown))).0, 500);
    assert_eq!(reply_to_write(&Ok(())).status, 204);
    assert_eq!(text(&reply_to_get(Err(Error::InvalidArgument("no")))).1, "engine error: invalid argument: no\n");
    assert_eq!(reply_to_get(Ok(None)).status, 404);
    assert_eq!(reply_to_get(Ok(Some(b"x".to_vec()))).status, 200);
}

#[test]
fn scan_encodes_what_it_finds() {
    let mut db = open();
    db.put(b"a", b"hello").unwrap();
    db.put(b"b", b"\xff\x00").unwrap();
    db.put(b"c", b"").unwrap();
    let page = scan(&db, None, None, None).unwrap();
    assert!(!page.truncated);
    let rows: Vec<_> =
        page.records.iter().map(|r| (r.key.as_str(), r.value.as_str(), r.seqno)).collect();
    assert_eq!(rows, vec![("YQ==", "aGVsbG8=", 1), ("Yg==", "/wA=", 2), ("Yw==", "", 3)]);
    // From "b", and before "c".
    let page = scan(&db, Some("Yg=="), Some("Yw=="), None).unwrap();
    assert_eq!(page.records.len(), 1);
    assert_eq!(page.records[0].key, "Yg==");
}

#[test]
fn scan_refuses_bounds_that_are_not_base64() {
    let db = open();
    let start = scan(&db, Some("%%%"), None, None).err().unwrap();
    assert_eq!(text(&start), (400, "start: invalid base64".to_owned()));
    let end = scan(&db, None, Some("YQ"), None).err().unwrap();
    assert_eq!(text(&end), (400, "end: invalid base64".to_owned()));
    // The start is looked at first.
    let both = scan(&db, Some("!"), Some("!"), None).err().unwrap();
    assert_eq!(text(&both).1, "start: invalid base64");
}

#[test]
fn scan_stops_at_its_limit() {
    let mut db = open();
    for i in 0..5u8 {
        db.put(&[i], b"v").unwrap();
    }
    let page = scan(&db, None, None, Some(3)).unwrap();
    assert_eq!(page.records.len(), 3);
    assert!(page.truncated);
    let page = scan_range(&db, None, None, 5).unwrap();
    assert_eq!(page.records.len(), 5);
    assert!(!page.truncated);
    let page = scan_range(&db, Some(&[1]), Some(&[3]), 10).unwrap();
    assert_eq!(page.records.len(), 2);
    assert_eq!(scan_limit(None), 1000);
    assert_eq!(scan_limit(Some(7)), 7);
    assert_eq!(scan_limit(Some(10_001)), 10_000);
}

#[test]
fn scan_gives_full_pages_up_to_a_fault() {
    let mut db = Db::open(MemVfs::new(), "/db").unwrap();
    for i in 0..600u32 {
        db.put(&i.to_be_bytes(), &[7u8; 100]).unwrap();
    }
    db.flush().unwrap();
    let mut vfs = db.close().unwrap();
    // Spoil a byte of the second data block, which begins on a page.
    let name = vfs.list("/db").unwrap().into_iter().find(|n| parse_sst_name(n).is_some()).unwrap();
    let table = vfs.open_writable(&format!("/db/{name}")).unwrap();
    let at = 4096 + 20_480 + 300;
    let mut byte = [0u8; 1];
    table.read_at(&vfs, &mut byte, at).unwrap();
    table.write_at(&mut vfs, &[byte[0] ^ 1], at).unwrap();
    let db = Db::open(vfs, "/db").unwrap();

    let refusal = text(&scan(&db, None, None, None).unwrap_err());
    assert_eq!(refusal.0, 500);
    let page = scan(&db, None, None, Some(10)).unwrap();
    assert_eq!(page.records.len(), 10);
    assert!(page.truncated);
    let mut it = db.scan_all().unwrap();
    let mut given = 0usize;
    let failure = loop {
        match it.next() {
            Ok(Some(_)) => given += 1,
            Ok(None) => panic!("the fault was passed over"),
            Err(e) => break e,
        }
    };
    assert!(matches!(failure, Error::ChecksumMismatch { .. }));
    // A page that the records before the fault fill is given; what lies
    // behind it shows only that there is more.
    let page = scan(&db, None, None, Some(given)).unwrap();
    assert_eq!(page.records.len(), given);
    assert!(page.truncated);
    assert!(scan(&db, None, None, Some(given + 1)).is_err());
}

#[test]
fn maintenance_reports_the_number_of_tables() {
    let mut db = open();
    for round in 0..3u8 {
        db.put(&[round], b"v").unwrap();
        assert_eq!(flush(&mut db).unwrap(), usize::from(round) + 1);
    }
    let s = stats(&db, true);
    assert_eq!((s.sstable_count, s.current_seqno, s.encrypted), (3, 3, true));
    assert_eq!(compact(&mut db).unwrap(), 1);
    assert_eq!(stats(&db, false).sstable_count, 1);
    assert_eq!(stats(&db, false).current_seqno, 3);
    // Nothing is left to do for either.
    assert_eq!(flush(&mut db).unwrap(), 1);
    assert_eq!(compact(&mut db).unwrap(), 1);
    assert_eq!(get_kv(&db, "\u{1}").status, 200);
}

#[test]
fn master_key_is_64_hex_digits() {
    let hex = "000102030405060708090a0b0c0d0e0f101112131415161718191A1B1C1D1E1F";
    let expected: Vec<u8> = (0..32u8).collect();
    assert_eq!(decode_hex_32(hex).unwrap().to_vec(), expected);
    assert!(decode_hex_32(&hex[..62]).is_none());
    assert!(decode_hex_32(&format!("{hex}00")).is_none());
    assert!(decode_hex_32(&hex.replace("1F", "1G")).is_none());
    assert!(decode_hex_32("").is_none());
    // A sign is no digit.
    assert!(decode_hex_32(&hex.replace("1F", "+F")).is_none());
    // Two bytes of one character, at the places of two digits.
    assert!(decode_hex_32(&hex.replace("1F", "ä")).is_none());
}

#[test]
fn configuration_takes_the_key_where_there_is_one() {
    let plain = build_config(None).ok().unwrap();
    assert!(plain.master_key.is_none());
    let sealed = build_config(Some(&"ab".repeat(32))).ok().unwrap();
    for c in [&plain, &sealed] {
        assert_eq!(c.memtable_threshold_bytes, 4 * 1024 * 1024);
        assert_eq!((c.bloom_bits_per_key, c.bloom_num_hashes), (10, 8));
        assert_eq!(c.sstable_capacity_hint, 10_000);
    }
    assert_eq!(sealed.master_key.unwrap().as_bytes(), &[0xAB; 32]);
    assert_eq!(
        build_config(Some("short")).err().unwrap(),
        "PADDOCK_MASTER_KEY must be 64 hex chars (32 bytes)"
    );
}
