//! Arena and skip list.
use std::collections::{BTreeMap, BTreeSet};

use paddock_core::memtable::arena::{Arena, INITIAL_SLAB_SIZE};
use paddock_core::memtable::skiplist::{OpType, SkipList};
use paddock_core::sstable::format::RecordOp;

fn keys_of(s: &SkipList) -> Vec<Vec<u8>> {
    let mut keys = Vec::new();
    let mut it = s.iter();
    while let Some(n) = it.next() {
        keys.push(n.key().to_vec());
    }
    keys
}

#[test]
fn empty_arena_holds_nothing() {
    let arena = Arena::new();
    assert_eq!(arena.bytes_used(), 0);
    assert_eq!(arena.bytes_reserved(), 0);
}

#[test]
fn single_allocation_returns_aligned_pointer() {
    let mut arena = Arena::new();
    let p = arena.allocate(13, 8);
    assert_eq!(p.start % 8, 0);
    assert!(arena.bytes_used() >= 13);
}

#[test]
fn allocations_do_not_overlap() {
    let mut arena = Arena::new();
    let p1 = arena.allocate(100, 1);
    let p2 = arena.allocate(100, 1);
    let p3 = arena.allocate(100, 1);
    assert!(p2.slab == p1.slab && p2.start >= p1.start + 100);
    assert!(p3.slab == p2.slab && p3.start >= p2.start + 100);
}

#[test]
fn copy_bytes_round_trips() {
    let mut arena = Arena::new();
    let src = b"hello arena, this is a test payload!";
    let p = arena.copy_bytes(src);
    assert_eq!(arena.read(p), src);
}

#[test]
fn growth_handles_allocations_larger_than_initial_slab() {
    let mut arena = Arena::new();
    let big = INITIAL_SLAB_SIZE * 4;
    let p = arena.allocate(big, 8);
    assert_eq!(p.start % 8, 0);
    assert!(arena.bytes_reserved() >= big);
}

#[test]
fn many_small_allocations_grow_arena() {
    let mut arena = Arena::new();
    for _ in 0..10_000u32 {
        let _ = arena.allocate(64, 8);
    }
    // More than the initial slab holds.
    assert!(arena.bytes_reserved() > INITIAL_SLAB_SIZE);
}

#[test]
fn slabs_double_up_to_the_cap() {
    let mut arena = Arena::new();
    let mut expected = 0usize;
    for slab in [262_144usize, 524_288, 1_048_576, 2_097_152, 4_194_304, 4_194_304] {
        // All that a slab dispenses behind its header.
        let r = arena.allocate(slab - 16 - 8, 8);
        assert_eq!(r.start, 16);
        expected += slab;
        assert_eq!(arena.bytes_reserved(), expected);
    }
    // What fits no slab of the usual size gets one of its own.
    let r = arena.allocate(5_000_000, 8);
    assert_eq!((r.slab, r.start, r.len), (6, 16, 5_000_000));
    assert_eq!(arena.bytes_reserved(), expected + 5_000_000 + 16 + 8);
}

#[test]
fn alignment_request_is_respected_after_unaligned_allocation() {
    let mut arena = Arena::new();
    let _ = arena.allocate(1, 1);
    let p = arena.allocate(8, 8);
    assert_eq!(p.start % 8, 0);
}

#[test]
fn writes_stay_inside_their_region() {
    let mut arena = Arena::new();
    let a = arena.copy_bytes(b"aaaa");
    let b = arena.allocate(4, 1);
    let c = arena.copy_bytes(b"cccc");
    arena.write(b, b"bbbb");
    assert_eq!(arena.read(a), b"aaaa");
    assert_eq!(arena.read(b), b"bbbb");
    assert_eq!(arena.read(c), b"cccc");
    assert_eq!(arena.read(b.part(1, 2)), b"bb");
}

#[test]
fn bytes_used_is_the_sum_of_what_requests_take() {
    let mut arena = Arena::new();
    let mut expected = 0usize;
    for (size, align, takes) in
        [(13usize, 8usize, 16usize), (0, 8, 1), (1, 1, 1), (64, 64, 64), (65, 64, 128), (300_000, 8, 300_000)]
    {
        let _ = arena.allocate(size, align);
        expected += takes;
        assert_eq!(arena.bytes_used(), expected);
        assert!(arena.bytes_used() <= arena.bytes_reserved());
    }
    // The second slab is the one that is made for the large request.
    assert_eq!(arena.bytes_reserved(), INITIAL_SLAB_SIZE + 524_288);
}

#[test]
fn empty_skip_list_returns_none() {
    let s = SkipList::new();
    assert!(s.is_empty());
    assert_eq!(s.len(), 0);
    assert!(s.get(b"any", u64::MAX).is_none());
}

#[test]
fn single_insert_then_get() {
    let mut s = SkipList::new();
    s.insert(b"foo", b"bar", 1, OpType::Put);
    let n = s.get(b"foo", u64::MAX).expect("found");
    assert_eq!(n.key(), b"foo");
    assert_eq!(n.value(), b"bar");
    assert_eq!(n.seqno(), 1);
    assert_eq!(n.op_type(), OpType::Put);
}

#[test]
fn ordered_inserts_round_trip() {
    let mut s = SkipList::new();
    for (i, key) in [b"alpha".to_vec(), b"bravo".to_vec(), b"charlie".to_vec()].iter().enumerate() {
        s.insert(key, key, i as u64 + 1, OpType::Put);
    }
    assert_eq!(
        keys_of(&s),
        vec![b"alpha".to_vec(), b"bravo".to_vec(), b"charlie".to_vec()]
    );
}

#[test]
fn reverse_order_inserts_still_iterate_sorted() {
    let mut s = SkipList::new();
    s.insert(b"c", b"3", 1, OpType::Put);
    s.insert(b"a", b"1", 2, OpType::Put);
    s.insert(b"b", b"2", 3, OpType::Put);
    assert_eq!(keys_of(&s), vec![b"a".to_vec(), b"b".to_vec(), b"c".to_vec()]);
}

#[test]
fn newer_seqno_shadows_older() {
    let mut s = SkipList::new();
    s.insert(b"k", b"old", 1, OpType::Put);
    s.insert(b"k", b"new", 5, OpType::Put);
    let n = s.get(b"k", u64::MAX).unwrap();
    assert_eq!(n.value(), b"new");
    assert_eq!(n.seqno(), 5);
}

#[test]
fn snapshot_isolation_hides_future_writes() {
    let mut s = SkipList::new();
    s.insert(b"k", b"v1", 10, OpType::Put);
    s.insert(b"k", b"v2", 20, OpType::Put);
    // A snapshot in between does not see the later write.
    let n = s.get(b"k", 15).unwrap();
    assert_eq!(n.value(), b"v1");
}

#[test]
fn snapshot_before_any_write_returns_none() {
    let mut s = SkipList::new();
    s.insert(b"k", b"v", 100, OpType::Put);
    assert!(s.get(b"k", 99).is_none());
}

#[test]
fn tombstone_recorded_with_zero_value_len() {
    let mut s = SkipList::new();
    s.insert(b"k", b"discarded", 1, OpType::Tombstone);
    let n = s.get(b"k", u64::MAX).unwrap();
    assert_eq!(n.op_type(), OpType::Tombstone);
    assert!(n.value().is_empty());
    assert_eq!(n.key(), b"k");
}

#[test]
fn matches_btree_map_on_random_inserts() {
    let mut s = SkipList::new();
    let mut reference: BTreeMap<Vec<u8>, (Vec<u8>, u64)> = BTreeMap::new();

    // A linear congruential generator, so that the test is reproducible.
    let mut rng: u32 = 0x00C0_FFEE;
    for seqno in 1..=2_000u64 {
        rng = rng.wrapping_mul(1_103_515_245).wrapping_add(12345);
        let k = (rng % 256).to_string().into_bytes();
        let v = (rng / 256).to_string().into_bytes();
        s.insert(&k, &v, seqno, OpType::Put);
        reference.insert(k, (v, seqno));
    }

    for (key, (value, expected_seqno)) in &reference {
        let n = s.get(key, u64::MAX).expect("found");
        assert_eq!(n.value(), &value[..]);
        assert_eq!(n.seqno(), *expected_seqno);
    }
}

#[test]
fn iter_visits_every_key_in_order() {
    let mut s = SkipList::new();
    let inputs: Vec<Vec<u8>> = (0..500_u32).map(|i| format!("key-{i:05}").into_bytes()).collect();
    for (i, k) in inputs.iter().enumerate() {
        s.insert(k, b"v", i as u64 + 1, OpType::Put);
    }
    let mut seen: BTreeSet<Vec<u8>> = BTreeSet::new();
    let mut prev: Option<Vec<u8>> = None;
    for k in keys_of(&s) {
        if let Some(p) = &prev {
            assert!(k >= *p, "iteration order broken: {p:?} then {k:?}");
        }
        seen.insert(k.clone());
        prev = Some(k);
    }
    assert_eq!(seen.len(), inputs.len());
}

#[test]
fn versions_of_a_key_come_newest_first() {
    let mut s = SkipList::new();
    for seqno in [3u64, 1, 9, 5] {
        s.insert(b"k", &seqno.to_le_bytes(), seqno, OpType::Put);
    }
    s.insert(b"j", b"", 2, OpType::Tombstone);
    let mut it = s.iter();
    let mut order = Vec::new();
    while let Some(n) = it.next() {
        order.push((n.key().to_vec(), n.seqno()));
    }
    assert_eq!(
        order,
        vec![
            (b"j".to_vec(), 2),
            (b"k".to_vec(), 9),
            (b"k".to_vec(), 5),
            (b"k".to_vec(), 3),
            (b"k".to_vec(), 1),
        ]
    );
    assert_eq!(s.len(), 5);
    assert!(s.bytes_used() > 0);
    for (snapshot, found) in [(0u64, None), (1, Some(1u64)), (4, Some(3)), (8, Some(5)), (9, Some(9))] {
        assert_eq!(s.get(b"k", snapshot).map(|n| n.seqno()), found);
    }
}

/// Whatever the order of the inserts, a lookup finds the visible one with the
/// greatest sequence number, of several the latest.
#[test]
fn lookup_does_not_depend_on_the_order_of_inserts() {
    let inserts: [(&[u8], &[u8], u64); 6] = [
        (b"b", b"b4", 4),
        (b"a", b"a2", 2),
        (b"b", b"b7", 7),
        (b"b", b"b4 again", 4),
        (b"a", b"a9", 9),
        (b"b", b"b1", 1),
    ];
    let mut s = SkipList::new();
    for (i, (k, v, seqno)) in inserts.iter().enumerate() {
        s.insert(k, v, *seqno, OpType::Put);
        assert_eq!(s.len(), i + 1);
        assert!(!s.is_empty());
    }
    for snapshot in 0..=10u64 {
        for key in [b"a".as_slice(), b"b", b"c"] {
            let mut expected: Option<(&[u8], u64)> = None;
            for (k, v, seqno) in inserts {
                if k == key && seqno <= snapshot && expected.map_or(true, |(_, best)| best <= seqno) {
                    expected = Some((v, seqno));
                }
            }
            let found = s.get(key, snapshot);
            assert_eq!(found.map(|n| (n.value().to_vec(), n.seqno())), expected.map(|(v, n)| (v.to_vec(), n)));
        }
    }
    assert_eq!(
        keys_of(&s),
        vec![b"a".to_vec(), b"a".to_vec(), b"b".to_vec(), b"b".to_vec(), b"b".to_vec(), b"b".to_vec()]
    );
}

#[test]
fn operation_tags() {
    assert_eq!(OpType::from_byte(0), Some(OpType::Put));
    assert_eq!(OpType::from_byte(1), Some(OpType::Tombstone));
    assert_eq!(OpType::from_byte(2), None);
    assert_eq!(OpType::Put.to_record_op(), RecordOp::Put);
    assert_eq!(OpType::Tombstone.to_record_op(), RecordOp::Tombstone);
}
