//! The mathematical model shared by memtable, tables and engine: versioned
//! entries, their order, and what a lookup finds in a run of them.
use vstd::prelude::*;

use crate::encoding::order::{lemma_lex_irreflexive, lemma_lex_transitive, lex_lt};
use crate::sstable::format::RecordOp;

verus! {

/// One version of one key.
#[verifier::ext_equal]
pub struct Entry {
    /// User key.
    pub key: Seq<u8>,
    /// Sequence number of the write.
    pub seqno: u64,
    /// Put or tombstone.
    pub op: RecordOp,
    /// Value; empty for a tombstone.
    pub value: Seq<u8>,
}

/// `a` may stand before `b`: keys ascend, and versions of one key descend.
pub open spec fn entry_le(a: Entry, b: Entry) -> bool {
    lex_lt(a.key, b.key) || (a.key == b.key && a.seqno >= b.seqno)
}

/// `e` stands strictly before the place of `(key, seqno)`.
pub open spec fn before(e: Entry, key: Seq<u8>, seqno: u64) -> bool {
    lex_lt(e.key, key) || (e.key == key && e.seqno > seqno)
}

/// Every entry may stand before every later one.
pub open spec fn sorted(entries: Seq<Entry>) -> bool {
    forall|i: int, j: int|
        #![trigger entries[i], entries[j]]
        0 <= i < j < entries.len() ==> entry_le(entries[i], entries[j])
}

/// `e` is a version of `key` that a reader at `snapshot` may see.
pub open spec fn visible(e: Entry, key: Seq<u8>, snapshot: u64) -> bool {
    e.key == key && e.seqno <= snapshot
}

/// The first entry of a run that is visible: what a lookup answers.
pub open spec fn lookup(entries: Seq<Entry>, key: Seq<u8>, snapshot: u64) -> Option<Entry>
    decreases entries.len(),
{
    if entries.len() == 0 {
        None
    } else if visible(entries[0], key, snapshot) {
        Some(entries[0])
    } else {
        lookup(entries.subrange(1, entries.len() as int), key, snapshot)
    }
}

/// The value that an answer stands for: tombstones read as absent.
pub open spec fn live_value(hit: Option<Entry>) -> Option<Seq<u8>> {
    match hit {
        Some(e) => if e.op == RecordOp::Put {
            Some(e.value)
        } else {
            None
        },
        None => None,
    }
}

/// Looking a key up in two runs, one after the other.
pub proof fn lemma_lookup_concat(a: Seq<Entry>, b: Seq<Entry>, key: Seq<u8>, snapshot: u64)
    ensures
        lookup(a + b, key, snapshot) == (match lookup(a, key, snapshot) {
            Some(e) => Some(e),
            None => lookup(b, key, snapshot),
        }),
    decreases a.len(),
{
    if a.len() == 0 {
        assert(a + b =~= b);
    } else {
        let a1 = a.subrange(1, a.len() as int);
        assert((a + b).subrange(1, (a + b).len() as int) =~= a1 + b);
        lemma_lookup_concat(a1, b, key, snapshot);
    }
}

/// The answer is the visible entry with the smallest index.
pub proof fn lemma_lookup_first(entries: Seq<Entry>, key: Seq<u8>, snapshot: u64, i: int)
    requires
        0 <= i < entries.len(),
        visible(entries[i], key, snapshot),
        forall|j: int| 0 <= j < i ==> !visible(#[trigger] entries[j], key, snapshot),
    ensures
        lookup(entries, key, snapshot) == Some(entries[i]),
    decreases i,
{
    if i > 0 {
        assert(!visible(entries[0], key, snapshot));
        let rest = entries.subrange(1, entries.len() as int);
        assert forall|j: int| 0 <= j < i - 1 implies !visible(
            #[trigger] rest[j],
            key,
            snapshot,
        ) by {
            assert(rest[j] == entries[j + 1]);
        }
        lemma_lookup_first(rest, key, snapshot, i - 1);
    }
}

/// Without a visible entry there is no answer.
pub proof fn lemma_lookup_none(entries: Seq<Entry>, key: Seq<u8>, snapshot: u64)
    requires
        forall|j: int| 0 <= j < entries.len() ==> !visible(#[trigger] entries[j], key, snapshot),
    ensures
        lookup(entries, key, snapshot) is None,
    decreases entries.len(),
{
    if entries.len() > 0 {
        assert(!visible(entries[0], key, snapshot));
        let rest = entries.subrange(1, entries.len() as int);
        assert forall|j: int| 0 <= j < rest.len() implies !visible(
            #[trigger] rest[j],
            key,
            snapshot,
        ) by {
            assert(rest[j] == entries[j + 1]);
        }
        lemma_lookup_none(rest, key, snapshot);
    }
}

/// An answer is a visible entry with nothing visible before it.
pub proof fn lemma_lookup_sound(entries: Seq<Entry>, key: Seq<u8>, snapshot: u64) -> (i: int)
    ensures
        lookup(entries, key, snapshot) is None ==> forall|j: int|
            0 <= j < entries.len() ==> !visible(#[trigger] entries[j], key, snapshot),
        lookup(entries, key, snapshot) matches Some(e) ==> 0 <= i < entries.len() && entries[i] == e
            && visible(e, key, snapshot) && forall|j: int|
            0 <= j < i ==> !visible(#[trigger] entries[j], key, snapshot),
    decreases entries.len(),
{
    if entries.len() == 0 {
        0
    } else if visible(entries[0], key, snapshot) {
        0
    } else {
        let rest = entries.subrange(1, entries.len() as int);
        let k = lemma_lookup_sound(rest, key, snapshot);
        assert forall|j: int| 1 <= j < entries.len() && !visible(rest[j - 1], key, snapshot) implies
            !visible(#[trigger] entries[j], key, snapshot) by {
            assert(rest[j - 1] == entries[j]);
        }
        k + 1
    }
}

/// The order on entries is transitive.
pub proof fn lemma_entry_le_transitive(a: Entry, b: Entry, c: Entry)
    requires
        entry_le(a, b),
        entry_le(b, c),
    ensures
        entry_le(a, c),
{
    if lex_lt(a.key, b.key) && lex_lt(b.key, c.key) {
        lemma_lex_transitive(a.key, b.key, c.key);
    }
}

/// In a sorted run keys never descend.
pub proof fn lemma_sorted_keys(entries: Seq<Entry>, i: int, j: int)
    requires
        sorted(entries),
        0 <= i <= j < entries.len(),
    ensures
        entries[i].key == entries[j].key || lex_lt(entries[i].key, entries[j].key),
{
}

/// Part of a sorted run is sorted.
pub proof fn lemma_sorted_subrange(entries: Seq<Entry>, i: int, j: int)
    requires
        sorted(entries),
        0 <= i <= j <= entries.len(),
    ensures
        sorted(entries.subrange(i, j)),
{
    let part = entries.subrange(i, j);
    assert forall|a: int, b: int|
        #![trigger part[a], part[b]]
        0 <= a < b < part.len() implies entry_le(part[a], part[b]) by {
        assert(part[a] == entries[a + i]);
        assert(part[b] == entries[b + i]);
    }
}

/// Bytes of keys and values.
pub open spec fn payload(entries: Seq<Entry>) -> nat
    decreases entries.len(),
{
    if entries.len() == 0 {
        0
    } else {
        payload(entries.drop_last()) + entries.last().key.len() + entries.last().value.len()
    }
}

/// A bound on the bytes that entries take in a table: their payload and an
/// allowance for each.
pub open spec fn weight(entries: Seq<Entry>) -> nat {
    payload(entries) + 64 * entries.len()
}

/// Payloads add up.
pub proof fn lemma_payload_concat(a: Seq<Entry>, b: Seq<Entry>)
    ensures
        payload(a + b) == payload(a) + payload(b),
        weight(a + b) == weight(a) + weight(b),
    decreases b.len(),
{
    if b.len() == 0 {
        assert(a + b =~= a);
    } else {
        assert((a + b).drop_last() =~= a + b.drop_last());
        lemma_payload_concat(a, b.drop_last());
    }
}

/// Part of a run weighs no more than the run.
pub proof fn lemma_weight_part(entries: Seq<Entry>, i: int, j: int)
    requires
        0 <= i <= j <= entries.len(),
    ensures
        weight(entries.subrange(i, j)) <= weight(entries),
{
    let a = entries.subrange(0, i);
    let b = entries.subrange(i, j);
    let c = entries.subrange(j, entries.len() as int);
    lemma_payload_concat(a, b);
    lemma_payload_concat(a + b, c);
    assert(entries =~= a + b + c);
}

/// No key or value is larger than the payload.
pub proof fn lemma_payload_bounds(entries: Seq<Entry>, i: int)
    requires
        0 <= i < entries.len(),
    ensures
        entries[i].key.len() + entries[i].value.len() <= payload(entries),
    decreases entries.len(),
{
    if i < entries.len() - 1 {
        lemma_payload_bounds(entries.drop_last(), i);
    }
}

/// Law: a lookup in a sorted run answers with the newest version of the key that
/// the snapshot allows, and with nothing only where there is no such version.
pub proof fn law_lookup_is_the_newest(entries: Seq<Entry>, key: Seq<u8>, snapshot: u64)
    requires
        sorted(entries),
    ensures
        match lookup(entries, key, snapshot) {
            Some(e) => entries.contains(e) && e.key == key && e.seqno <= snapshot && forall|i: int|
                0 <= i < entries.len() && (#[trigger] entries[i]).key == key && entries[i].seqno
                    <= snapshot ==> entries[i].seqno <= e.seqno,
            None => forall|i: int|
                0 <= i < entries.len() && (#[trigger] entries[i]).key == key ==> entries[i].seqno
                    > snapshot,
        },
{
    let p = lemma_lookup_sound(entries, key, snapshot);
    if let Some(e) = lookup(entries, key, snapshot) {
        assert(entries[p] == e);
        assert forall|i: int|
            0 <= i < entries.len() && (#[trigger] entries[i]).key == key && entries[i].seqno
                <= snapshot implies entries[i].seqno <= e.seqno by {
            assert(visible(entries[i], key, snapshot));
            if i > p {
                assert(entry_le(entries[p], entries[i]));
                lemma_lex_irreflexive(key);
            }
        }
    } else {
        assert forall|i: int|
            0 <= i < entries.len() && (#[trigger] entries[i]).key == key implies entries[i].seqno
            > snapshot by {
            assert(!visible(entries[i], key, snapshot));
        }
    }
}

/// Law: an answer is live where it was put, with the value that was put, and a
/// tombstone reads as if there were none.
pub proof fn law_tombstones_read_as_absent(key: Seq<u8>, seqno: u64, value: Seq<u8>)
    ensures
        live_value(Some(Entry { key, seqno, op: RecordOp::Put, value })) == Some(value),
        live_value(Some(Entry { key, seqno, op: RecordOp::Tombstone, value })) is None,
        live_value(None) is None,
{
}

} // verus!
