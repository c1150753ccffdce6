//! SSTable data block: builder and reader.
//!
//! A data block holds a sorted run of records using prefix-compressed keys
//! with periodic *restart points*:
//!
//! ```text
//!   Records (variable size, grow forward from offset 0)
//!     varint shared_prefix_len
//!     varint unshared_key_len
//!     varint value_len
//!     u64    seqno
//!     u8     op_type            (0 = Put, 1 = Tombstone)
//!     bytes  key_suffix[unshared_key_len]
//!     bytes  value[value_len]
//!   ...
//!   u32[num_restarts]    restart offsets   (each points to a "shared=0" record)
//!   u32                  num_restarts
//!   u32                  block_checksum    (CRC32C of everything before this)
//! ```
//!
//! Every sixteenth record is a restart: its key is stored in full. The same
//! layout serves the index block, whose values are serialised block handles.
use vstd::prelude::*;
use vstd::slice::{slice_subrange, slice_to_vec};

use crate::checksum::crc32c;
use crate::checksum::crc32c::{crc32c as crc, law_one_byte_is_noticed, one_byte_off};
use crate::encoding::fixed::{
    lemma_u32_bytes, lemma_u32_round_trip, lemma_u64_round_trip, push_bytes, push_u32, push_u64, read_u32, read_u64,
    u32_from, u32_le, u64_from, u64_le,
};
use crate::encoding::order::{
    compare_bytes, lemma_lex_asymmetric, lemma_lex_irreflexive, lemma_lex_total,
    lemma_lex_transitive, lex_le, lex_lt, Order,
};
use crate::encoding::varint::{
    decode_u32, law_varint_u32_round_trip, lemma_varint_len, push_varint, varint, varint_parse_u32,
    VarintParse,
};
use crate::error::{invalid_format, Error, ErrorView, Result};
use crate::model::{entry_le, payload, sorted, Entry};
use crate::sstable::format::{RecordOp, RESTART_INTERVAL};

verus! {

/// Bytes occupied by the per-block trailer (num_restarts + checksum).
pub const BLOCK_TRAILER_SIZE: usize = 8;

// ----- What the bytes of a block mean -----

/// The fixed part in front of a record's key suffix.
#[verifier::ext_equal]
pub struct Head {
    /// Bytes of the key shared with the record before.
    pub shared: nat,
    /// Bytes of the key stored here.
    pub unshared: nat,
    /// Bytes of the value.
    pub value_len: nat,
    /// Sequence number.
    pub seqno: u64,
    /// Operation byte.
    pub op_byte: u8,
    /// Length of the head itself.
    pub len: nat,
}

/// Read a head from the front of `b`.
#[verifier::opaque]
pub open spec fn parse_head(b: Seq<u8>) -> Option<Head> {
    match varint_parse_u32(b) {
        VarintParse::Done(shared, c1) => {
            let b1 = b.subrange(c1 as int, b.len() as int);
            match varint_parse_u32(b1) {
                VarintParse::Done(unshared, c2) => {
                    let b2 = b1.subrange(c2 as int, b1.len() as int);
                    match varint_parse_u32(b2) {
                        VarintParse::Done(value_len, c3) => {
                            let b3 = b2.subrange(c3 as int, b2.len() as int);
                            if b3.len() < 9 {
                                None
                            } else {
                                Some(
                                    Head {
                                        shared,
                                        unshared,
                                        value_len,
                                        seqno: u64_from(b3.subrange(0, 8)),
                                        op_byte: b3[8],
                                        len: c1 + c2 + c3 + 9,
                                    },
                                )
                            }
                        },
                        _ => None,
                    }
                },
                _ => None,
            }
        },
        _ => None,
    }
}

/// At most the first `n` elements.
pub open spec fn front(s: Seq<u8>, n: nat) -> Seq<u8> {
    if n <= s.len() {
        s.subrange(0, n as int)
    } else {
        s
    }
}

/// Read the record at position `c`, where the key read before was `last`.
/// Gives the record and the position after it.
pub open spec fn parse_entry(b: Seq<u8>, c: nat, last: Seq<u8>) -> Option<(Entry, nat)> {
    if c >= b.len() {
        None
    } else {
        match parse_head(b.subrange(c as int, b.len() as int)) {
            None => None,
            Some(h) => match RecordOp::of_byte(h.op_byte) {
                None => None,
                Some(op) => {
                    let key_at = c + h.len;
                    let value_at = key_at + h.unshared;
                    let end = value_at + h.value_len;
                    if end > b.len() {
                        None
                    } else {
                        Some(
                            (
                                Entry {
                                    key: front(last, h.shared) + b.subrange(
                                        key_at as int,
                                        value_at as int,
                                    ),
                                    seqno: h.seqno,
                                    op,
                                    value: b.subrange(value_at as int, end as int),
                                },
                                end,
                            ),
                        )
                    }
                },
            },
        }
    }
}

/// The records from position `c` on, up to the end or the first that cannot
/// be read.
pub open spec fn parse_entries(b: Seq<u8>, c: nat, last: Seq<u8>) -> Seq<Entry>
    decreases b.len() - c,
{
    match parse_entry(b, c, last) {
        None => Seq::empty(),
        Some((e, next)) => if c < next <= b.len() {
            seq![e] + parse_entries(b, next, e.key)
        } else {
            Seq::empty()
        },
    }
}

/// The key stored in full at position `at`.
pub open spec fn restart_key(b: Seq<u8>, at: nat) -> Option<Seq<u8>> {
    if at >= b.len() {
        None
    } else {
        match parse_head(b.subrange(at as int, b.len() as int)) {
            Some(h) => if h.shared == 0 && at + h.len + h.unshared <= b.len() {
                Some(b.subrange((at + h.len) as int, (at + h.len + h.unshared) as int))
            } else {
                None
            },
            None => None,
        }
    }
}

/// The `j`-th restart offset.
pub open spec fn restart_at(restarts: Seq<u8>, j: int) -> nat {
    u32_from(restarts.subrange(j * 4, j * 4 + 4)) as nat
}

/// Records and restart array of a block, or why it is not accepted.
pub open spec fn parse_block(b: Seq<u8>) -> core::result::Result<(Seq<u8>, Seq<u8>), ErrorView> {
    if b.len() < BLOCK_TRAILER_SIZE {
        Err(invalid_format("sstable data block"@, "shorter than block trailer"@))
    } else {
        let n = b.len() as int;
        let stored = u32_from(b.subrange(n - 4, n));
        let computed = crc(b.subrange(0, n - 4));
        let num_restarts = u32_from(b.subrange(n - 8, n - 4));
        if stored != computed {
            Err(
                ErrorView::ChecksumMismatch {
                    context: "sstable data block"@,
                    expected: stored as u64,
                    found: computed as u64,
                },
            )
        } else if num_restarts * 4 + BLOCK_TRAILER_SIZE > n {
            Err(invalid_format("sstable data block"@, "restart array overflows block"@))
        } else {
            let records_end = n - BLOCK_TRAILER_SIZE - num_restarts * 4;
            Ok((b.subrange(0, records_end), b.subrange(records_end, n - BLOCK_TRAILER_SIZE)))
        }
    }
}

/// Law: damage to any one byte of an accepted block is noticed, whatever became
/// of the byte.
pub proof fn law_block_damage_is_noticed(good: Seq<u8>, bad: Seq<u8>, p: int)
    requires
        parse_block(good) is Ok,
        one_byte_off(good, bad, p),
    ensures
        parse_block(bad) matches Err(e) && (e matches ErrorView::ChecksumMismatch {
            context,
            expected,
            found,
        } && context == "sstable data block"@ && expected != found),
        block_entries(bad) is Err,
{
    let n = good.len() as int;
    let (a, b) = (good.subrange(0, n - 4), bad.subrange(0, n - 4));
    let (x, y) = (good.subrange(n - 4, n), bad.subrange(n - 4, n));
    lemma_u32_bytes(x);
    lemma_u32_bytes(y);
    if p < n - 4 {
        assert(one_byte_off(a, b, p));
        law_one_byte_is_noticed(a, b, p);
        assert(x =~= y);
    } else {
        assert(a =~= b);
        assert(x[p - (n - 4)] != y[p - (n - 4)]);
    }
}

/// The records of a block, or why it is not accepted.
pub open spec fn block_entries(b: Seq<u8>) -> core::result::Result<Seq<Entry>, ErrorView> {
    match parse_block(b) {
        Err(e) => Err(e),
        Ok((records, _)) => Ok(parse_entries(records, 0, Seq::empty())),
    }
}

/// The restart array fits the records: restart `j` is where record
/// `starts[j]` stands with its key in full, and the first restart is the
/// first record.
pub open spec fn restarts_fit(
    records: Seq<u8>,
    restarts: Seq<u8>,
    entries: Seq<Entry>,
    starts: Seq<int>,
) -> bool {
    &&& starts.len() == restarts.len() / 4
    &&& entries.len() > 0 ==> starts.len() > 0 && starts[0] == 0
    &&& forall|j: int|
        #![trigger starts[j]]
        0 <= j < starts.len() ==> {
            &&& 0 <= starts[j] < entries.len()
            &&& parse_entries(records, restart_at(restarts, j), Seq::empty()) == entries.subrange(
                starts[j],
                entries.len() as int,
            )
            &&& restart_key(records, restart_at(restarts, j)) == Some(entries[starts[j]].key)
        }
}

/// The first entry whose key is at least `target`.
pub open spec fn first_at_least(entries: Seq<Entry>, target: Seq<u8>) -> Option<Entry>
    decreases entries.len(),
{
    if entries.len() == 0 {
        None
    } else if lex_le(target, entries[0].key) {
        Some(entries[0])
    } else {
        first_at_least(entries.subrange(1, entries.len() as int), target)
    }
}

/// Index of the first entry whose key is at least `target`, or the length
/// where there is none.
pub open spec fn index_at_least(entries: Seq<Entry>, target: Seq<u8>) -> int
    decreases entries.len(),
{
    if entries.len() == 0 {
        0
    } else if lex_le(target, entries[0].key) {
        0
    } else {
        1 + index_at_least(entries.subrange(1, entries.len() as int), target)
    }
}

/// The restart at which a search for `target` between the restarts `lo` and
/// `hi` ends: the interval is halved by the key at its middle. `None` where a
/// key in the middle cannot be read.
pub open spec fn restart_below(
    records: Seq<u8>,
    restarts: Seq<u8>,
    target: Seq<u8>,
    lo: int,
    hi: int,
) -> Option<int>
    decreases hi - lo,
{
    if hi - lo <= 1 {
        Some(lo)
    } else {
        let mid = lo + (hi - lo) / 2;
        match restart_key(records, restart_at(restarts, mid)) {
            None => None,
            Some(k) => if lex_lt(k, target) {
                restart_below(records, restarts, target, mid, hi)
            } else {
                restart_below(records, restarts, target, lo, mid)
            },
        }
    }
}

/// The entries that a search for `target` walks through.
pub open spec fn search_run(records: Seq<u8>, restarts: Seq<u8>, target: Seq<u8>) -> Seq<Entry> {
    if restarts.len() < 4 {
        Seq::empty()
    } else {
        match restart_below(records, restarts, target, 0, restarts.len() as int / 4) {
            None => Seq::empty(),
            Some(j) => parse_entries(records, restart_at(restarts, j), Seq::empty()),
        }
    }
}

/// What a search for `target` finds: the first entry of the walk whose key is
/// at least `target`, and all behind it.
pub open spec fn found_run(records: Seq<u8>, restarts: Seq<u8>, target: Seq<u8>) -> Seq<Entry> {
    let run = search_run(records, restarts, target);
    run.subrange(index_at_least(run, target), run.len() as int)
}

// ----- What the builder writes -----

/// Number of leading bytes, from `i` on, that `a` and `b` have in common.
pub open spec fn common_from(a: Seq<u8>, b: Seq<u8>, i: nat) -> nat
    decreases a.len() - i,
{
    if i < a.len() && i < b.len() && a[i as int] == b[i as int] {
        common_from(a, b, i + 1)
    } else {
        i
    }
}

/// How much of entry `k`'s key is left out: nothing at a restart, else what
/// it shares with the key before.
pub open spec fn shared_at(entries: Seq<Entry>, k: int) -> nat {
    if k % (RESTART_INTERVAL as int) == 0 {
        0
    } else {
        common_from(entries[k - 1].key, entries[k].key, 0)
    }
}

/// One record's bytes, with the first `shared` bytes of its key left out.
#[verifier::opaque]
pub open spec fn entry_bytes(shared: nat, e: Entry) -> Seq<u8> {
    varint(shared) + varint((e.key.len() - shared) as nat) + varint(e.value.len()) + u64_le(e.seqno)
        + seq![e.op.byte()] + e.key.subrange(shared as int, e.key.len() as int) + e.value
}

/// The records one after another.
pub open spec fn encoded_entries(entries: Seq<Entry>) -> Seq<u8>
    decreases entries.len(),
{
    if entries.len() == 0 {
        Seq::empty()
    } else {
        encoded_entries(entries.drop_last()) + entry_bytes(
            shared_at(entries, entries.len() - 1),
            entries.last(),
        )
    }
}

/// Where entry `k` starts.
pub open spec fn entry_offset(entries: Seq<Entry>, k: int) -> nat {
    encoded_entries(entries.subrange(0, k)).len()
}

/// Number of restarts among `n` records.
pub open spec fn restart_count(n: nat) -> nat {
    (n + 15) / 16
}

/// The bytes of a list of restart offsets.
pub open spec fn restart_array(offsets: Seq<nat>) -> Seq<u8>
    decreases offsets.len(),
{
    if offsets.len() == 0 {
        Seq::empty()
    } else {
        restart_array(offsets.drop_last()) + u32_le(offsets.last() as u32)
    }
}

/// The restart offsets of a block.
pub open spec fn restart_offsets(entries: Seq<Entry>) -> Seq<nat> {
    Seq::new(restart_count(entries.len()), |j: int| entry_offset(entries, 16 * j))
}

/// A block without its checksum.
pub open spec fn block_body(entries: Seq<Entry>) -> Seq<u8> {
    encoded_entries(entries) + restart_array(restart_offsets(entries)) + u32_le(
        restart_count(entries.len()) as u32,
    )
}

/// The complete block.
pub open spec fn block_bytes(entries: Seq<Entry>) -> Seq<u8> {
    block_body(entries) + u32_le(crc(block_body(entries)))
}

/// Length of the complete block.
pub open spec fn block_size(entries: Seq<Entry>) -> nat {
    encoded_entries(entries).len() + 4 * restart_count(entries.len()) + 8
}

/// The block's lengths and offsets fit their fields.
pub open spec fn block_fits(entries: Seq<Entry>) -> bool {
    &&& forall|i: int|
        #![trigger entries[i]]
        0 <= i < entries.len() ==> entries[i].key.len() <= u32::MAX && entries[i].value.len()
            <= u32::MAX
    &&& entries.len() > 0 ==> encoded_entries(entries.drop_last()).len() <= u32::MAX
}

// ----- Lemmas and laws -----

proof fn lemma_common(a: Seq<u8>, b: Seq<u8>, i: nat)
    requires
        i <= a.len(),
        i <= b.len(),
        forall|j: int| 0 <= j < i ==> a[j] == b[j],
    ensures
        i <= common_from(a, b, i) <= a.len(),
        common_from(a, b, i) <= b.len(),
        forall|j: int| 0 <= j < common_from(a, b, i) ==> a[j] == b[j],
    decreases a.len() - i,
{
    if i < a.len() && i < b.len() && a[i as int] == b[i as int] {
        lemma_common(a, b, i + 1);
    }
}

/// What the head in front of `e` says.
pub open spec fn head_of(shared: nat, e: Entry) -> Head {
    Head {
        shared,
        unshared: (e.key.len() - shared) as nat,
        value_len: e.value.len(),
        seqno: e.seqno,
        op_byte: e.op.byte(),
        len: varint(shared).len() + varint((e.key.len() - shared) as nat).len() + varint(
            e.value.len(),
        ).len() + 9,
    }
}

/// A record's bytes, taken apart from the front.
proof fn lemma_take_apart(
    v1: Seq<u8>,
    v2: Seq<u8>,
    v3: Seq<u8>,
    tail: Seq<u8>,
    all: Seq<u8>,
)
    requires
        all == v1 + v2 + v3 + tail,
    ensures
        all == v1 + (v2 + (v3 + tail)),
        all.subrange(v1.len() as int, all.len() as int) == v2 + (v3 + tail),
        (v2 + (v3 + tail)).subrange(v2.len() as int, (v2 + (v3 + tail)).len() as int) == v3 + tail,
        (v3 + tail).subrange(v3.len() as int, (v3 + tail).len() as int) == tail,
{
    assert(all =~= v1 + (v2 + (v3 + tail)));
    assert(all.subrange(v1.len() as int, all.len() as int) =~= v2 + (v3 + tail));
    assert((v2 + (v3 + tail)).subrange(v2.len() as int, (v2 + (v3 + tail)).len() as int) =~= v3
        + tail);
    assert((v3 + tail).subrange(v3.len() as int, (v3 + tail).len() as int) =~= tail);
}

/// Joining the last parts of a record first makes no difference.
proof fn lemma_join(a: Seq<u8>, b: Seq<u8>, c: Seq<u8>, d: Seq<u8>, e: Seq<u8>, f: Seq<u8>)
    requires
        b.len() == 8,
        c.len() == 1,
    ensures
        a + b + c + d + e + f == a + (b + c + d + e + f),
        (b + c + d + e + f).subrange(0, 8) == b,
        (b + c + d + e + f)[8] == c[0],
        (b + c + d + e + f).len() == 9 + d.len() + e.len() + f.len(),
{
    assert(a + b + c + d + e + f =~= a + (b + c + d + e + f));
    assert((b + c + d + e + f).subrange(0, 8) =~= b);
}

proof fn lemma_head_reads(shared: nat, e: Entry, rest: Seq<u8>)
    requires
        shared <= e.key.len() <= u32::MAX,
        e.value.len() <= u32::MAX,
    ensures
        parse_head(entry_bytes(shared, e) + rest) == Some(head_of(shared, e)),
        entry_bytes(shared, e).len() == head_of(shared, e).len + (e.key.len() - shared)
            + e.value.len(),
        head_of(shared, e).len >= 12,
{
    reveal(parse_head);
    reveal(entry_bytes);
    let unshared = (e.key.len() - shared) as nat;
    let v1 = varint(shared);
    let v2 = varint(unshared);
    let v3 = varint(e.value.len());
    let seq = u64_le(e.seqno);
    let op = seq![e.op.byte()];
    let suffix = e.key.subrange(shared as int, e.key.len() as int);
    lemma_u64_round_trip(e.seqno);
    lemma_varint_len(shared);
    lemma_varint_len(unshared);
    lemma_varint_len(e.value.len());
    let b3 = seq + op + suffix + e.value + rest;
    let b = entry_bytes(shared, e) + rest;
    lemma_join(v1 + v2 + v3, seq, op, suffix, e.value, rest);
    lemma_take_apart(v1, v2, v3, b3, b);
    law_varint_u32_round_trip(shared as u32, v2 + (v3 + b3));
    law_varint_u32_round_trip(unshared as u32, v3 + b3);
    law_varint_u32_round_trip(e.value.len() as u32, b3);
}

proof fn lemma_entry_reads(pre: Seq<u8>, shared: nat, e: Entry, rest: Seq<u8>, last: Seq<u8>)
    requires
        shared <= e.key.len() <= u32::MAX,
        e.value.len() <= u32::MAX,
        shared <= last.len(),
        last.subrange(0, shared as int) == e.key.subrange(0, shared as int),
    ensures
        parse_entry(pre + entry_bytes(shared, e) + rest, pre.len(), last) == Some(
            (e, pre.len() + entry_bytes(shared, e).len()),
        ),
        shared == 0 ==> restart_key(pre + entry_bytes(shared, e) + rest, pre.len()) == Some(e.key),
        entry_bytes(shared, e).len() >= 12,
{
    reveal(entry_bytes);
    let eb = entry_bytes(shared, e);
    let b = pre + eb + rest;
    let h = head_of(shared, e);
    lemma_head_reads(shared, e, rest);
    assert(b.subrange(pre.len() as int, b.len() as int) =~= eb + rest);
    let suffix = e.key.subrange(shared as int, e.key.len() as int);
    let key_at = pre.len() + h.len;
    let value_at = key_at + h.unshared;
    assert(b.subrange(key_at as int, value_at as int) =~= suffix);
    assert(b.subrange(value_at as int, (value_at + h.value_len) as int) =~= e.value);
    assert(e.key.subrange(0, shared as int) + suffix =~= e.key);
    if shared == 0 {
        assert(suffix =~= e.key);
    }
}

/// Every record takes at least twelve bytes.
pub proof fn lemma_encoded_len(entries: Seq<Entry>)
    requires
        block_fits(entries),
    ensures
        encoded_entries(entries).len() >= 12 * entries.len(),
    decreases entries.len(),
{
    if entries.len() > 0 {
        lemma_fits_front(entries, entries.len() - 1);
        let k = entries.len() - 1;
        assert(entries.drop_last() =~= entries.subrange(0, k));
        lemma_encoded_len(entries.drop_last());
        lemma_shared_fits(entries, k);
        lemma_head_reads(shared_at(entries, k), entries[k], Seq::empty());
    }
}

/// The size of a block rests on its keys and on the lengths of its values
/// alone.
pub proof fn lemma_same_size(a: Seq<Entry>, b: Seq<Entry>)
    requires
        a.len() == b.len(),
        forall|i: int|
            #![trigger a[i]]
            0 <= i < a.len() ==> a[i].key == b[i].key && a[i].value.len() == b[i].value.len(),
    ensures
        block_size(a) == block_size(b),
    decreases a.len(),
{
    if a.len() > 0 {
        let k = a.len() - 1;
        let a0 = a.drop_last();
        let b0 = b.drop_last();
        assert forall|i: int| #![trigger a0[i]] 0 <= i < a0.len() implies a0[i].key == b0[i].key
            && a0[i].value.len() == b0[i].value.len() by {
            assert(a0[i] == a[i]);
        }
        lemma_same_size(a0, b0);
        assert(a[k].key == b[k].key);
        if k > 0 {
            assert(a[k - 1].key == b[k - 1].key);
        }
        assert(shared_at(a, k) == shared_at(b, k));
        lemma_shared_fits(a, k);
        reveal(entry_bytes);
        assert(entry_bytes(shared_at(a, k), a[k]).len() == entry_bytes(
            shared_at(b, k),
            b[k],
        ).len());
    }
}

/// A block is little larger than what it holds.
pub proof fn lemma_size_bound(entries: Seq<Entry>)
    requires
        payload(entries) <= u32::MAX,
    ensures
        encoded_entries(entries).len() <= payload(entries) + 24 * entries.len(),
        block_size(entries) <= payload(entries) + 28 * entries.len() + 8,
    decreases entries.len(),
{
    if entries.len() > 0 {
        let k = entries.len() - 1;
        let e = entries[k];
        lemma_size_bound(entries.drop_last());
        lemma_shared_fits(entries, k);
        lemma_head_reads(shared_at(entries, k), e, Seq::empty());
        lemma_varint_len(shared_at(entries, k));
        lemma_varint_len((e.key.len() - shared_at(entries, k)) as nat);
        lemma_varint_len(e.value.len());
    }
}

/// The front of a block that fits, fits.
pub proof fn lemma_fits_front(entries: Seq<Entry>, k: int)
    requires
        block_fits(entries),
        0 <= k <= entries.len(),
    ensures
        block_fits(entries.subrange(0, k)),
    decreases entries.len() - k,
{
    if k < entries.len() {
        lemma_fits_front(entries, k + 1);
        let more = entries.subrange(0, k + 1);
        let now = entries.subrange(0, k);
        assert(more.drop_last() =~= now);
        if k > 0 {
            assert(encoded_entries(now) == encoded_entries(now.drop_last()) + entry_bytes(
                shared_at(now, k - 1),
                now.last(),
            ));
        }
        assert forall|i: int| #![trigger now[i]] 0 <= i < now.len() implies now[i].key.len()
            <= u32::MAX && now[i].value.len() <= u32::MAX by {
            assert(now[i] == entries[i]);
        }
    } else {
        assert(entries.subrange(0, k) =~= entries);
    }
}

proof fn lemma_shared_fits(entries: Seq<Entry>, k: int)
    requires
        0 <= k < entries.len(),
    ensures
        shared_at(entries, k) <= entries[k].key.len(),
        shared_at(entries, k) > 0 ==> k > 0 && shared_at(entries, k) <= entries[k - 1].key.len()
            && entries[k - 1].key.subrange(0, shared_at(entries, k) as int)
            == entries[k].key.subrange(0, shared_at(entries, k) as int),
{
    if k % 16 != 0 {
        let a = entries[k - 1].key;
        let b = entries[k].key;
        lemma_common(a, b, 0);
        let n = shared_at(entries, k) as int;
        assert(a.subrange(0, n) =~= b.subrange(0, n));
    }
}

/// Record `k` stands behind the records before it.
proof fn lemma_split(entries: Seq<Entry>, k: int)
    requires
        0 <= k < entries.len(),
    ensures
        entry_offset(entries, k + 1) == entry_offset(entries, k) + entry_bytes(
            shared_at(entries, k),
            entries[k],
        ).len(),
        entry_offset(entries, k + 1) <= encoded_entries(entries).len(),
        encoded_entries(entries) == encoded_entries(entries.subrange(0, k)) + entry_bytes(
            shared_at(entries, k),
            entries[k],
        ) + encoded_entries(entries).subrange(
            entry_offset(entries, k + 1) as int,
            encoded_entries(entries).len() as int,
        ),
    decreases entries.len() - k,
{
    let more = entries.subrange(0, k + 1);
    assert(more.drop_last() =~= entries.subrange(0, k));
    assert(shared_at(more, k) == shared_at(entries, k));
    let all = encoded_entries(entries);
    if k + 1 == entries.len() {
        assert(more =~= entries);
        assert(all =~= encoded_entries(entries.subrange(0, k)) + entry_bytes(
            shared_at(entries, k),
            entries[k],
        ) + all.subrange(all.len() as int, all.len() as int));
    } else {
        lemma_split(entries, k + 1);
        let eb1 = entry_bytes(shared_at(entries, k + 1), entries[k + 1]);
        let n2 = entry_offset(entries, k + 2) as int;
        assert(all =~= encoded_entries(more) + eb1 + all.subrange(n2, all.len() as int));
        assert(all.subrange(entry_offset(entries, k + 1) as int, all.len() as int) =~= eb1
            + all.subrange(n2, all.len() as int));
        assert(all =~= encoded_entries(entries.subrange(0, k)) + entry_bytes(
            shared_at(entries, k),
            entries[k],
        ) + all.subrange(entry_offset(entries, k + 1) as int, all.len() as int));
    }
}

/// Reading from the start of record `k` gives the records from there on,
/// where the key before is known or record `k` is a restart.
proof fn lemma_entries_read(entries: Seq<Entry>, k: int, last: Seq<u8>)
    requires
        block_fits(entries),
        0 <= k <= entries.len(),
        k < entries.len() && k % 16 != 0 ==> last == entries[k - 1].key,
    ensures
        parse_entries(encoded_entries(entries), entry_offset(entries, k), last)
            == entries.subrange(k, entries.len() as int),
        k < entries.len() && k % 16 == 0 ==> restart_key(
            encoded_entries(entries),
            entry_offset(entries, k),
        ) == Some(entries[k].key),
    decreases entries.len() - k,
{
    let all = encoded_entries(entries);
    let at = entry_offset(entries, k);
    if k == entries.len() {
        assert(entries.subrange(0, k) =~= entries);
        assert(entries.subrange(k, k) =~= Seq::empty());
    } else {
        let e = entries[k];
        let shared = shared_at(entries, k);
        let pre = encoded_entries(entries.subrange(0, k));
        let rest = all.subrange(entry_offset(entries, k + 1) as int, all.len() as int);
        lemma_split(entries, k);
        lemma_shared_fits(entries, k);
        assert(last.subrange(0, shared as int) == e.key.subrange(0, shared as int)) by {
            if shared == 0 {
                assert(last.subrange(0, 0) =~= e.key.subrange(0, 0));
            }
        }
        lemma_entry_reads(pre, shared, e, rest, last);
        lemma_entries_read(entries, k + 1, e.key);
        assert(seq![e] + entries.subrange(k + 1, entries.len() as int) =~= entries.subrange(
            k,
            entries.len() as int,
        ));
    }
}

proof fn lemma_restart_array(offsets: Seq<nat>)
    ensures
        restart_array(offsets).len() == 4 * offsets.len(),
        forall|j: int|
            #![trigger offsets[j]]
            0 <= j < offsets.len() && offsets[j] <= u32::MAX ==> restart_at(
                restart_array(offsets),
                j,
            ) == offsets[j],
    decreases offsets.len(),
{
    if offsets.len() > 0 {
        let before = offsets.drop_last();
        let x = u32_le(offsets.last() as u32);
        lemma_restart_array(before);
        lemma_u32_round_trip(offsets.last() as u32);
        let all = restart_array(offsets);
        assert forall|j: int|
            #![trigger offsets[j]]
            0 <= j < offsets.len() && offsets[j] <= u32::MAX implies restart_at(all, j)
            == offsets[j] by {
            if j < before.len() {
                assert(before[j] == offsets[j]);
                assert(all.subrange(j * 4, j * 4 + 4) =~= restart_array(before).subrange(
                    j * 4,
                    j * 4 + 4,
                ));
            } else {
                assert(all.subrange(j * 4, j * 4 + 4) =~= x);
            }
        }
    }
}

/// The records that stand at the restarts.
pub open spec fn restart_starts(n: nat) -> Seq<int> {
    Seq::new(restart_count(n), |j: int| 16 * j)
}

/// Offsets never descend, and all but the end lie before the last record.
proof fn lemma_offset_bound(entries: Seq<Entry>, k: int)
    requires
        block_fits(entries),
        0 <= k < entries.len(),
    ensures
        entry_offset(entries, k) <= u32::MAX,
        entry_offset(entries, k) <= encoded_entries(entries).len(),
    decreases entries.len() - k,
{
    lemma_split(entries, k);
    if k + 1 == entries.len() {
        assert(entries.drop_last() =~= entries.subrange(0, k));
    } else {
        lemma_offset_bound(entries, k + 1);
    }
}

/// Law: the restart array that a builder writes fits its records.
pub proof fn law_restarts_fit(entries: Seq<Entry>)
    requires
        block_fits(entries),
    ensures
        restarts_fit(
            encoded_entries(entries),
            restart_array(restart_offsets(entries)),
            entries,
            restart_starts(entries.len()),
        ),
{
    let offsets = restart_offsets(entries);
    let starts = restart_starts(entries.len());
    let records = encoded_entries(entries);
    let restarts = restart_array(offsets);
    lemma_restart_array(offsets);
    assert forall|j: int| #![trigger starts[j]] 0 <= j < starts.len() implies {
        &&& 0 <= starts[j] < entries.len()
        &&& parse_entries(records, restart_at(restarts, j), Seq::empty()) == entries.subrange(
            starts[j],
            entries.len() as int,
        )
        &&& restart_key(records, restart_at(restarts, j)) == Some(entries[starts[j]].key)
    } by {
        let k = 16 * j;
        assert(k % 16 == 0);
        lemma_offset_bound(entries, k);
        assert(offsets[j] == entry_offset(entries, k));
        lemma_entries_read(entries, k, Seq::empty());
    }
}

/// Law: a block read back from the builder's bytes holds the entries that
/// were added, in order.
pub proof fn law_block_round_trip(entries: Seq<Entry>)
    requires
        block_fits(entries),
    ensures
        parse_block(block_bytes(entries)) == Ok::<(Seq<u8>, Seq<u8>), ErrorView>(
            (encoded_entries(entries), restart_array(restart_offsets(entries))),
        ),
        block_entries(block_bytes(entries)) == Ok::<Seq<Entry>, ErrorView>(entries),
        block_bytes(entries).len() == block_size(entries),
        restart_count(entries.len()) <= u32::MAX,
{
    let b = block_bytes(entries);
    let body = block_body(entries);
    let records = encoded_entries(entries);
    let restarts = restart_array(restart_offsets(entries));
    let count = restart_count(entries.len());
    lemma_restart_array(restart_offsets(entries));
    lemma_restart_count_fits(entries);
    lemma_u32_round_trip(crc(body));
    lemma_u32_round_trip(count as u32);
    let n = b.len() as int;
    assert(b.subrange(n - 4, n) =~= u32_le(crc(body)));
    assert(b.subrange(0, n - 4) =~= body);
    assert(b.subrange(n - 8, n - 4) =~= u32_le(count as u32));
    assert(b.subrange(0, n - 8 - count * 4) =~= records);
    assert(b.subrange(n - 8 - count * 4, n - 8) =~= restarts);
    lemma_entries_read(entries, 0, Seq::empty());
    assert(entries.subrange(0, 0) =~= Seq::empty());
    assert(entries.subrange(0, entries.len() as int) =~= entries);
}

proof fn lemma_restart_count_fits(entries: Seq<Entry>)
    requires
        block_fits(entries),
    ensures
        restart_count(entries.len()) <= 0x8000_0000,
{
    if entries.len() > 0 {
        lemma_fits_front(entries, entries.len() - 1);
        assert(entries.drop_last() =~= entries.subrange(0, entries.len() - 1));
        lemma_encoded_len(entries.drop_last());
    }
}

/// The first entry at least as large as the target, by its index.
pub proof fn lemma_first_at(entries: Seq<Entry>, target: Seq<u8>) -> (i: int)
    ensures
        i == index_at_least(entries, target),
        0 <= i <= entries.len(),
        forall|j: int| 0 <= j < i ==> !lex_le(target, (#[trigger] entries[j]).key),
        i < entries.len() ==> lex_le(target, entries[i].key) && first_at_least(entries, target)
            == Some(entries[i]),
        i == entries.len() ==> first_at_least(entries, target) is None,
    decreases entries.len(),
{
    if entries.len() == 0 {
        0
    } else if lex_le(target, entries[0].key) {
        0
    } else {
        let rest = entries.subrange(1, entries.len() as int);
        let k = lemma_first_at(rest, target);
        assert forall|j: int| 0 <= j < k + 1 implies !lex_le(
            target,
            (#[trigger] entries[j]).key,
        ) by {
            if j > 0 {
                assert(rest[j - 1] == entries[j]);
            }
        }
        k + 1
    }
}

// ----- The builder -----

/// Builds one data block in memory. Its view is the entries added so far.
///
/// Call [`add`](Self::add) for each `(key, value, seqno, op)` in ascending
/// order, then [`finish`](Self::finish) to emit the complete block bytes.
pub struct BlockBuilder {
    buffer: Vec<u8>,
    restarts: Vec<u32>,
    last_key: Vec<u8>,
    /// Records appended since the last restart point.
    counter: usize,
    entries: Ghost<Seq<Entry>>,
}

impl View for BlockBuilder {
    type V = Seq<Entry>;

    closed spec fn view(&self) -> Seq<Entry> {
        self.entries@
    }
}

fn shared_prefix_len(a: &[u8], b: &[u8]) -> (n: usize)
    ensures
        n == common_from(a@, b@, 0),
        n <= a@.len(),
        n <= b@.len(),
{
    let limit: usize = if a.len() < b.len() { a.len() } else { b.len() };
    let mut i: usize = 0;
    while i < limit && a[i] == b[i]
        invariant
            i <= limit,
            limit <= a@.len(),
            limit <= b@.len(),
            limit == a@.len() || limit == b@.len(),
            common_from(a@, b@, 0) == common_from(a@, b@, i as nat),
        decreases limit - i,
    {
        i += 1;
    }
    i
}

impl BlockBuilder {
    /// The bytes, restarts and counters are those of the entries added.
    pub closed spec fn wf(&self) -> bool {
        let n = self.entries@.len();
        &&& block_fits(self.entries@)
        &&& self.buffer@ == encoded_entries(self.entries@)
        &&& self.restarts@.len() == restart_count(n)
        &&& forall|j: int|
            #![trigger self.restarts@[j]]
            0 <= j < self.restarts@.len() ==> self.restarts@[j] == entry_offset(
                self.entries@,
                16 * j,
            )
        &&& n > 0 ==> self.last_key@ == self.entries@[n - 1].key
        &&& self.counter == (if n == 0 {
            16int
        } else {
            (n - 1) % 16 + 1
        })
    }

    /// A builder that is well formed holds a block that fits.
    pub proof fn lemma_fits(&self)
        requires
            self.wf(),
        ensures
            block_fits(self@),
    {
    }

    /// Construct an empty builder.
    pub fn new() -> (b: BlockBuilder)
        ensures
            b.wf(),
            b@ == Seq::<Entry>::empty(),
    {
        BlockBuilder {
            buffer: Vec::new(),
            restarts: Vec::new(),
            last_key: Vec::new(),
            counter: RESTART_INTERVAL,
            entries: Ghost(Seq::empty()),
        }
    }

    /// `true` if no records have been appended yet.
    pub fn is_empty(&self) -> (r: bool)
        requires
            self.wf(),
        ensures
            r == (self@.len() == 0),
    {
        proof {
            lemma_encoded_len(self@);
        }
        self.buffer.is_empty()
    }

    /// Finished-block size in bytes (records + restart array + trailer).
    pub fn estimated_size(&self) -> (n: usize)
        requires
            self.wf(),
        ensures
            n == (if block_size(self@) <= usize::MAX {
                block_size(self@)
            } else {
                usize::MAX as nat
            }),
    {
        let total: u128 = self.buffer.len() as u128 + self.restarts.len() as u128 * 4
            + BLOCK_TRAILER_SIZE as u128;
        if total <= usize::MAX as u128 {
            total as usize
        } else {
            usize::MAX
        }
    }

    /// `true` while the records take no more bytes than an offset can say, so
    /// that one more can be added.
    pub fn has_room(&self) -> (r: bool)
        requires
            self.wf(),
        ensures
            r == (encoded_entries(self@).len() <= u32::MAX),
    {
        self.buffer.len() as u64 <= u32::MAX as u64
    }

    /// Append a record. Keys are expected in ascending order; equal keys with
    /// distinct seqnos sort by seqno descending.
    pub fn add(&mut self, key: &[u8], value: &[u8], seqno: u64, op: RecordOp)
        requires
            old(self).wf(),
            key@.len() <= u32::MAX,
            value@.len() <= u32::MAX,
            encoded_entries(old(self)@).len() <= u32::MAX,
        ensures
            final(self).wf(),
            final(self)@ == old(self)@.push(Entry { key: key@, seqno, op, value: value@ }),
    {
        let ghost before = self.entries@;
        let ghost n = before.len() as int;
        let ghost e = Entry { key: key@, seqno, op, value: value@ };
        let ghost after = before.push(e);
        let ghost old_restarts = self.restarts@;
        assert(after.drop_last() =~= before);
        assert(after.subrange(0, n) =~= before);
        let shared: usize = if self.counter < RESTART_INTERVAL {
            shared_prefix_len(self.last_key.as_slice(), key)
        } else {
            self.restarts.push(self.buffer.len() as u32);
            self.counter = 0;
            0
        };
        assert(shared == shared_at(after, n));
        push_entry(&mut self.buffer, shared, key, value, seqno, op);
        self.last_key = slice_to_vec(key);
        self.counter = self.counter + 1;
        self.entries = Ghost(after);
        proof {
            assert forall|i: int| #![trigger after[i]] 0 <= i < after.len() implies after[i].key.len()
                <= u32::MAX && after[i].value.len() <= u32::MAX by {
                if i < n {
                    assert(after[i] == before[i]);
                }
            }
            assert forall|j: int|
                #![trigger self.restarts@[j]]
                0 <= j < self.restarts@.len() implies self.restarts@[j] == entry_offset(
                after,
                16 * j,
            ) by {
                assert(16 * j <= n);
                assert(after.subrange(0, 16 * j) =~= before.subrange(0, 16 * j));
                if j < old_restarts.len() {
                    assert(self.restarts@[j] == old_restarts[j]);
                } else {
                    assert(before.subrange(0, n) =~= before);
                }
            }
        }
    }

    /// Emit the complete block bytes and reset the builder.
    pub fn finish(&mut self) -> (out: Vec<u8>)
        requires
            old(self).wf(),
        ensures
            out@ == block_bytes(old(self)@),
            final(self).wf(),
            final(self)@ == Seq::<Entry>::empty(),
    {
        let ghost entries = self.entries@;
        let ghost offsets = restart_offsets(entries);
        proof {
            lemma_restart_count_fits(entries);
        }
        let mut out: Vec<u8> = Vec::new();
        std::mem::swap(&mut out, &mut self.buffer);
        let n: usize = self.restarts.len();
        let mut i: usize = 0;
        assert(out@ + restart_array(offsets.subrange(0, 0)) =~= out@);
        while i < n
            invariant
                i <= n,
                n == self.restarts@.len(),
                n == offsets.len(),
                self.entries@ == entries,
                offsets == restart_offsets(entries),
                forall|j: int|
                    #![trigger self.restarts@[j]]
                    0 <= j < n ==> self.restarts@[j] == offsets[j],
                out@ == encoded_entries(entries) + restart_array(offsets.subrange(0, i as int)),
            decreases n - i,
        {
            let r: u32 = self.restarts[i];
            let ghost done = out@;
            push_u32(&mut out, r);
            proof {
                let now = offsets.subrange(0, i + 1);
                assert(now.drop_last() =~= offsets.subrange(0, i as int));
                assert(now.last() as u32 == r);
                assert(out@ =~= encoded_entries(entries) + restart_array(now));
            }
            i += 1;
        }
        assert(offsets.subrange(0, n as int) =~= offsets);
        push_u32(&mut out, n as u32);
        let sum: u32 = crc32c::hash(out.as_slice());
        push_u32(&mut out, sum);
        self.buffer = Vec::new();
        self.restarts = Vec::new();
        self.last_key = Vec::new();
        self.counter = RESTART_INTERVAL;
        self.entries = Ghost(Seq::empty());
        out
    }
}

/// Append one record's bytes, leaving out the first `shared` bytes of its key.
fn push_entry(
    buffer: &mut Vec<u8>,
    shared: usize,
    key: &[u8],
    value: &[u8],
    seqno: u64,
    op: RecordOp,
)
    requires
        shared <= key@.len(),
    ensures
        final(buffer)@ == old(buffer)@ + entry_bytes(
            shared as nat,
            Entry { key: key@, seqno, op, value: value@ },
        ),
{
    let ghost enc = buffer@;
    let unshared: usize = key.len() - shared;
    let suffix: &[u8] = slice_subrange(key, shared, key.len());
    push_varint(buffer, shared as u64);
    push_varint(buffer, unshared as u64);
    push_varint(buffer, value.len() as u64);
    push_u64(buffer, seqno);
    let ghost part = buffer@;
    buffer.push(op.as_byte());
    assert(buffer@ =~= part + seq![op.byte()]);
    push_bytes(buffer, suffix);
    push_bytes(buffer, value);
    proof {
        reveal(entry_bytes);
        lemma_flatten(
            enc,
            varint(shared as nat),
            varint(unshared as nat),
            varint(value@.len()),
            u64_le(seqno),
            seq![op.byte()],
            suffix@,
            value@,
        );
    }
}

/// Parts appended one by one are the parts appended together.
proof fn lemma_flatten(
    a: Seq<u8>,
    b: Seq<u8>,
    c: Seq<u8>,
    d: Seq<u8>,
    e: Seq<u8>,
    f: Seq<u8>,
    g: Seq<u8>,
    h: Seq<u8>,
)
    ensures
        a + b + c + d + e + f + g + h == a + (b + c + d + e + f + g + h),
{
    assert(a + b + c + d + e + f + g + h =~= a + (b + c + d + e + f + g + h));
}

impl Default for BlockBuilder {
    fn default() -> (b: BlockBuilder)
        ensures
            b.wf(),
            b@ == Seq::<Entry>::empty(),
    {
        BlockBuilder::new()
    }
}

// ----- The reader -----

/// Read-only view over a complete block in memory.
#[derive(Clone, Copy)]
pub struct BlockReader<'a> {
    /// Records slice (excludes the trailing restart array and trailer).
    records: &'a [u8],
    /// Restart array as raw bytes (each entry is a `u32` LE).
    restart_bytes: &'a [u8],
}

/// One decoded record exposed by [`BlockIter`].
#[derive(Debug, Clone)]
pub struct RecordView<'a> {
    /// Full user key, reassembled.
    pub key: Vec<u8>,
    /// Inline value bytes (empty for tombstones). Borrowed from the block.
    pub value: &'a [u8],
    /// Sequence number stored on the record.
    pub seqno: u64,
    /// Operation tag.
    pub op: RecordOp,
}

impl<'a> View for RecordView<'a> {
    type V = Entry;

    open spec fn view(&self) -> Entry {
        Entry { key: self.key@, seqno: self.seqno, op: self.op, value: self.value@ }
    }
}

/// The entry that an optional record stands for.
pub open spec fn entry_of(r: Option<RecordView>) -> Option<Entry> {
    match r {
        Some(v) => Some(v@),
        None => None,
    }
}

/// Forward iterator over a [`BlockReader`].
pub struct BlockIter<'a> {
    records: &'a [u8],
    cursor: usize,
    last_key: Vec<u8>,
}

/// A decoded [`Head`].
struct HeadFields {
    shared: u32,
    unshared: u32,
    value_len: u32,
    seqno: u64,
    op_byte: u8,
    len: usize,
}

impl HeadFields {
    spec fn says(self, h: Head) -> bool {
        &&& self.shared == h.shared
        &&& self.unshared == h.unshared
        &&& self.value_len == h.value_len
        &&& self.seqno == h.seqno
        &&& self.op_byte == h.op_byte
        &&& self.len == h.len
    }
}

fn decode_head(b: &[u8]) -> (r: Option<HeadFields>)
    ensures
        match parse_head(b@) {
            Some(h) => r matches Some(f) && f.says(h) && h.len <= b@.len() && h.len >= 12,
            None => r is None,
        },
{
    proof {
        reveal(parse_head);
    }
    let (shared, c1): (u32, usize) = match decode_u32(b) {
        Ok(p) => p,
        Err(_) => {
            return None;
        },
    };
    let b1: &[u8] = slice_subrange(b, c1, b.len());
    let (unshared, c2): (u32, usize) = match decode_u32(b1) {
        Ok(p) => p,
        Err(_) => {
            return None;
        },
    };
    let b2: &[u8] = slice_subrange(b1, c2, b1.len());
    let (value_len, c3): (u32, usize) = match decode_u32(b2) {
        Ok(p) => p,
        Err(_) => {
            return None;
        },
    };
    let b3: &[u8] = slice_subrange(b2, c3, b2.len());
    if b3.len() < 9 {
        return None;
    }
    Some(
        HeadFields {
            shared,
            unshared,
            value_len,
            seqno: read_u64(b3, 0),
            op_byte: b3[8],
            len: c1 + c2 + c3 + 9,
        },
    )
}

/// Extract the full key of the record stored at offset `off` (which must be a
/// restart, so nothing of its key is left out).
fn key_at_restart<'a>(records: &'a [u8], off: usize) -> (r: Option<&'a [u8]>)
    ensures
        match restart_key(records@, off as nat) {
            Some(k) => r matches Some(s) && s@ == k,
            None => r is None,
        },
{
    if off >= records.len() {
        return None;
    }
    let rest: &[u8] = slice_subrange(records, off, records.len());
    match decode_head(rest) {
        None => None,
        Some(h) => {
            if h.shared != 0 {
                return None;
            }
            if h.unshared as usize > rest.len() - h.len {
                return None;
            }
            let key: &[u8] = slice_subrange(rest, h.len, h.len + h.unshared as usize);
            assert(key@ =~= records@.subrange(
                off + h.len as int,
                off + h.len + h.unshared as int,
            ));
            Some(key)
        },
    }
}

impl<'a> BlockIter<'a> {
    /// The entries still to come.
    pub closed spec fn remaining(&self) -> Seq<Entry> {
        parse_entries(self.records@, self.cursor as nat, self.last_key@)
    }

    /// Advance to the next record.
    pub fn next(&mut self) -> (r: Option<RecordView<'a>>)
        ensures
            old(self).remaining().len() == 0 ==> r is None && final(self).remaining() == old(self).remaining(),
            old(self).remaining().len() > 0 ==> (r matches Some(v) && v@ == old(self).remaining()[0]) && final(self).remaining() == old(self).remaining().subrange(
                1,
                old(self).remaining().len() as int,
            ),
    {
        let ghost b = self.records@;
        let ghost c = self.cursor as nat;
        let ghost last = self.last_key@;
        let ghost before = self.remaining();
        if self.cursor >= self.records.len() {
            return None;
        }
        let rest: &'a [u8] = slice_subrange(self.records, self.cursor, self.records.len());
        let h: HeadFields = match decode_head(rest) {
            None => {
                return None;
            },
            Some(h) => h,
        };
        let op: RecordOp = match RecordOp::from_byte(h.op_byte) {
            None => {
                return None;
            },
            Some(op) => op,
        };
        let left: usize = rest.len() - h.len;
        if h.unshared as usize > left || h.value_len as usize > left - h.unshared as usize {
            return None;
        }
        let key_at: usize = self.cursor + h.len;
        let value_at: usize = key_at + h.unshared as usize;
        let end: usize = value_at + h.value_len as usize;
        let suffix: &'a [u8] = slice_subrange(self.records, key_at, value_at);
        let value: &'a [u8] = slice_subrange(self.records, value_at, end);
        self.last_key.truncate(h.shared as usize);
        assert(self.last_key@ =~= front(last, h.shared as nat));
        push_bytes(&mut self.last_key, suffix);
        let key: Vec<u8> = slice_to_vec(self.last_key.as_slice());
        self.cursor = end;
        let v = RecordView { key, value, seqno: h.seqno, op };
        proof {
            assert(parse_entry(b, c, last) == Some((v@, end as nat)));
            assert(before == seq![v@] + self.remaining());
            assert(before.subrange(1, before.len() as int) =~= self.remaining());
        }
        Some(v)
    }
}

impl<'a> BlockReader<'a> {
    /// The bytes of the records.
    pub closed spec fn record_bytes(&self) -> Seq<u8> {
        self.records@
    }

    /// The bytes of the restart array.
    pub closed spec fn restarts(&self) -> Seq<u8> {
        self.restart_bytes@
    }

    /// The records in order.
    pub open spec fn entries(&self) -> Seq<Entry> {
        parse_entries(self.record_bytes(), 0, Seq::empty())
    }

    /// The restart array is a whole number of offsets.
    pub closed spec fn wf(&self) -> bool {
        self.restart_bytes@.len() % 4 == 0
    }

    /// Open `bytes` as a complete block, validating the CRC32C.
    pub fn open(bytes: &'a [u8]) -> (r: Result<BlockReader<'a>>)
        ensures
            match parse_block(bytes@) {
                Ok((records, restarts)) => r matches Ok(reader) && reader.record_bytes() == records
                    && reader.restarts() == restarts && reader.wf(),
                Err(e) => r matches Err(x) && x@ == e,
            },
    {
        if bytes.len() < BLOCK_TRAILER_SIZE {
            return Err(
                Error::invalid_format_static("sstable data block", "shorter than block trailer"),
            );
        }
        let n: usize = bytes.len();
        let stored: u32 = read_u32(bytes, n - 4);
        let computed: u32 = crc32c::hash(slice_subrange(bytes, 0, n - 4));
        if stored != computed {
            return Err(
                Error::ChecksumMismatch {
                    context: "sstable data block",
                    expected: stored as u64,
                    found: computed as u64,
                },
            );
        }
        let num_restarts: u32 = read_u32(bytes, n - 8);
        if num_restarts as u64 * 4 + BLOCK_TRAILER_SIZE as u64 > n as u64 {
            return Err(
                Error::invalid_format_static("sstable data block", "restart array overflows block"),
            );
        }
        let records_end: usize = n - BLOCK_TRAILER_SIZE - num_restarts as usize * 4;
        Ok(
            BlockReader {
                records: slice_subrange(bytes, 0, records_end),
                restart_bytes: slice_subrange(bytes, records_end, n - BLOCK_TRAILER_SIZE),
            },
        )
    }

    /// Number of restart points in this block.
    pub fn num_restarts(&self) -> (n: usize)
        ensures
            n == self.restarts().len() / 4,
    {
        self.restart_bytes.len() / 4
    }

    /// Iterate every record in order.
    pub fn iter(&self) -> (it: BlockIter<'a>)
        ensures
            it.remaining() == self.entries(),
    {
        BlockIter { records: self.records, cursor: 0, last_key: Vec::new() }
    }

    /// Restart offset at index `i`.
    fn restart_offset(&self, i: usize) -> (off: usize)
        requires
            i < self.restart_bytes@.len() / 4,
        ensures
            off == restart_at(self.restart_bytes@, i as int),
    {
        assert(self.restart_bytes.len() == self.restart_bytes@.len());
        read_u32(self.restart_bytes, i * 4) as usize
    }

    /// Position on the first record whose key is `>= target`, or `None` if no
    /// such record exists in this block.
    pub fn seek(&self, target: &[u8]) -> (r: Option<RecordView<'a>>)
        ensures
            ({
                let found = found_run(self.record_bytes(), self.restarts(), target@);
                entry_of(r) == (if found.len() > 0 {
                    Some(found[0])
                } else {
                    None
                })
            }),
            forall|entries: Seq<Entry>, starts: Seq<int>|
                #[trigger] restarts_fit(self.record_bytes(), self.restarts(), entries, starts)
                    && sorted(entries) ==> entry_of(r) == first_at_least(entries, target@),
    {
        let (r, _) = self.seek_from(target);
        proof {
            assert forall|entries: Seq<Entry>, starts: Seq<int>|
                #[trigger] restarts_fit(self.record_bytes(), self.restarts(), entries, starts)
                    && sorted(entries) implies entry_of(r) == first_at_least(entries, target@) by {
                let i = lemma_first_at(entries, target@);
                lemma_found_run(
                    self.record_bytes(),
                    self.restarts(),
                    entries,
                    starts,
                    target@,
                );
            }
        }
        r
    }

    /// The first record whose key is `>= target`, and an iterator over the
    /// records behind it.
    pub fn seek_from(&self, target: &[u8]) -> (r: (Option<RecordView<'a>>, BlockIter<'a>))
        ensures
            ({
                let found = found_run(self.record_bytes(), self.restarts(), target@);
                if found.len() > 0 {
                    entry_of(r.0) == Some(found[0]) && r.1.remaining() == found.subrange(
                        1,
                        found.len() as int,
                    )
                } else {
                    r.0 is None && r.1.remaining() == found
                }
            }),
    {
        let n: usize = self.num_restarts();
        let end = BlockIter {
            records: self.records,
            cursor: self.records.len(),
            last_key: Vec::new(),
        };
        assert(end.remaining() =~= Seq::empty());
        if n == 0 {
            assert(found_run(self.record_bytes(), self.restarts(), target@) =~= Seq::empty());
            return (None, end);
        }
        // Find a restart below the target with none such behind it.
        let mut lo: usize = 0;
        let mut hi: usize = n;
        while hi - lo > 1
            invariant
                lo < hi <= n,
                n == self.restart_bytes@.len() / 4,
                end.remaining() == Seq::<Entry>::empty(),
                restart_below(self.records@, self.restart_bytes@, target@, 0, n as int)
                    == restart_below(
                    self.records@,
                    self.restart_bytes@,
                    target@,
                    lo as int,
                    hi as int,
                ),
            decreases hi - lo,
        {
            let mid: usize = lo + (hi - lo) / 2;
            let mid_off: usize = self.restart_offset(mid);
            match key_at_restart(self.records, mid_off) {
                Some(k) => {
                    match compare_bytes(k, target) {
                        Order::Less => {
                            lo = mid;
                        },
                        Order::Equal => {
                            proof {
                                lemma_lex_irreflexive(target@);
                            }
                            hi = mid;
                        },
                        Order::Greater => {
                            proof {
                                lemma_lex_asymmetric(target@, k@);
                            }
                            hi = mid;
                        },
                    }
                },
                None => {
                    assert(found_run(self.record_bytes(), self.restarts(), target@)
                        =~= Seq::empty());
                    return (None, end);
                },
            }
        }
        let start_off: usize = self.restart_offset(lo);
        let mut iter = BlockIter { records: self.records, cursor: start_off, last_key: Vec::new() };
        assert(iter.remaining() == search_run(self.record_bytes(), self.restarts(), target@)) by {
            assert(iter.last_key@ =~= Seq::empty());
        }
        let ghost from = iter.remaining();
        let ghost mut skipped: int = 0;
        assert(from.subrange(0, from.len() as int) =~= from);
        loop
            invariant
                from == search_run(self.record_bytes(), self.restarts(), target@),
                0 <= skipped <= from.len(),
                iter.remaining() == from.subrange(skipped, from.len() as int),
                forall|i: int|
                    0 <= i < skipped ==> !lex_le(target@, (#[trigger] from[i]).key),
            decreases iter.remaining().len(),
        {
            match iter.next() {
                None => {
                    proof {
                        lemma_index_skip(from, target@, skipped);
                        assert(from.subrange(index_at_least(from, target@), from.len() as int)
                            =~= iter.remaining());
                    }
                    return (None, iter);
                },
                Some(v) => {
                    assert(v@ == from[skipped]);
                    match compare_bytes(target, v.key.as_slice()) {
                        Order::Less | Order::Equal => {
                            proof {
                                lemma_index_skip(from, target@, skipped);
                                let rest = from.subrange(skipped, from.len() as int);
                                assert(rest[0] == from[skipped]);
                                assert(index_at_least(rest, target@) == 0);
                                assert(iter.remaining() =~= rest.subrange(1, rest.len() as int));
                            }
                            return (Some(v), iter);
                        },
                        Order::Greater => {
                            proof {
                                lemma_lex_asymmetric(v.key@, target@);
                                assert(iter.remaining() =~= from.subrange(
                                    skipped + 1,
                                    from.len() as int,
                                ));
                                skipped = skipped + 1;
                            }
                        },
                    }
                },
            }
        }
    }
}

/// A search over restarts that fit sorted records ends at one of them, whose
/// key is below the target unless it is where the search began.
proof fn lemma_restart_below(
    records: Seq<u8>,
    restarts: Seq<u8>,
    entries: Seq<Entry>,
    starts: Seq<int>,
    target: Seq<u8>,
    lo: int,
    hi: int,
)
    requires
        restarts_fit(records, restarts, entries, starts),
        0 <= lo < hi <= starts.len(),
    ensures
        restart_below(records, restarts, target, lo, hi) matches Some(j) && lo <= j < hi && (j == lo
            || lex_lt(entries[starts[j]].key, target)),
    decreases hi - lo,
{
    if hi - lo > 1 {
        let mid = lo + (hi - lo) / 2;
        let s = starts[mid];
        lemma_restart_below(records, restarts, entries, starts, target, mid, hi);
        lemma_restart_below(records, restarts, entries, starts, target, lo, mid);
    }
}

/// Where the restarts fit sorted records, a search finds the records from the
/// first one on whose key is at least the target.
pub proof fn lemma_found_run(
    records: Seq<u8>,
    restarts: Seq<u8>,
    entries: Seq<Entry>,
    starts: Seq<int>,
    target: Seq<u8>,
)
    requires
        restarts_fit(records, restarts, entries, starts),
        sorted(entries),
    ensures
        0 <= index_at_least(entries, target) <= entries.len(),
        found_run(records, restarts, target) == entries.subrange(
            index_at_least(entries, target),
            entries.len() as int,
        ),
{
    let n = starts.len() as int;
    let run = search_run(records, restarts, target);
    let end = entries.len() as int;
    lemma_first_at(entries, target);
    lemma_first_at(run, target);
    if n == 0 {
        assert(run =~= Seq::empty());
        assert(entries =~= Seq::empty());
    } else {
        lemma_restart_below(records, restarts, entries, starts, target, 0, n);
        let j = restart_below(records, restarts, target, 0, n)->Some_0;
        let k = starts[j];
        assert(run == entries.subrange(k, end));
        if j > 0 {
            assert forall|i: int| 0 <= i < k implies !lex_le(
                target,
                (#[trigger] entries[i]).key,
            ) by {
                crate::model::lemma_sorted_keys(entries, i, k);
                let a = entries[i].key;
                if a != entries[k].key {
                    lemma_lex_transitive(a, entries[k].key, target);
                }
                lemma_lex_asymmetric(a, target);
            }
        } else {
            assert(starts[0] == 0);
        }
        lemma_index_skip(entries, target, k);
    }
    assert(found_run(records, restarts, target) =~= entries.subrange(
        index_at_least(entries, target),
        end,
    ));
}

/// Entries below the target only shift the index of the first at least as
/// large.
pub proof fn lemma_index_skip(entries: Seq<Entry>, target: Seq<u8>, n: int)
    requires
        0 <= n <= entries.len(),
        forall|i: int| 0 <= i < n ==> !lex_le(target, (#[trigger] entries[i]).key),
    ensures
        index_at_least(entries, target) == n + index_at_least(
            entries.subrange(n, entries.len() as int),
            target,
        ),
    decreases n,
{
    if n == 0 {
        assert(entries.subrange(0, entries.len() as int) =~= entries);
    } else {
        assert(!lex_le(target, entries[0].key));
        let rest = entries.subrange(1, entries.len() as int);
        assert forall|i: int| 0 <= i < n - 1 implies !lex_le(target, (#[trigger] rest[i]).key) by {
            assert(rest[i] == entries[i + 1]);
        }
        lemma_index_skip(rest, target, n - 1);
        assert(rest.subrange(n - 1, rest.len() as int) =~= entries.subrange(
            n,
            entries.len() as int,
        ));
    }
}

/// Law: a search in a block finds its records from the first on whose key is not
/// below the target, and all of them.
pub proof fn law_search_finds_the_first(
    records: Seq<u8>,
    restarts: Seq<u8>,
    entries: Seq<Entry>,
    starts: Seq<int>,
    target: Seq<u8>,
)
    requires
        restarts_fit(records, restarts, entries, starts),
        sorted(entries),
    ensures
        ({
            let found = found_run(records, restarts, target);
            let p = entries.len() - found.len();
            &&& p >= 0
            &&& found == entries.subrange(p, entries.len() as int)
            &&& forall|i: int|
                0 <= i < entries.len() ==> (i < p <==> lex_lt((#[trigger] entries[i]).key, target))
        }),
{
    lemma_found_run(records, restarts, entries, starts, target);
    let p = lemma_first_at(entries, target);
    let found = found_run(records, restarts, target);
    assert(entries.len() - found.len() == p);
    assert forall|i: int| 0 <= i < entries.len() implies (i < p <==> lex_lt(
        (#[trigger] entries[i]).key,
        target,
    )) by {
        lemma_lex_total(entries[i].key, target);
        if i >= p {
            assert(lex_le(target, entries[p].key));
            if i > p {
                assert(entry_le(entries[p], entries[i]));
            }
            if lex_lt(entries[i].key, target) {
                if entries[i].key != entries[p].key {
                    lemma_lex_transitive(entries[p].key, entries[i].key, target);
                }
                if target != entries[p].key {
                    lemma_lex_asymmetric(target, entries[p].key);
                } else {
                    lemma_lex_irreflexive(target);
                }
            }
        }
    }
}

/// Law: what a record leaves out of its key is all that it shares with the key
/// before it, up to the first byte that differs; but every sixteenth record, from
/// the first on, leaves out nothing.
pub proof fn law_shared_prefix_is_the_longest(entries: Seq<Entry>, k: int)
    requires
        0 <= k < entries.len(),
    ensures
        k % 16 == 0 ==> shared_at(entries, k) == 0,
        k % 16 != 0 ==> ({
            let (a, b) = (entries[k - 1].key, entries[k].key);
            let n = shared_at(entries, k) as int;
            &&& n <= a.len() && n <= b.len()
            &&& forall|j: int| 0 <= j < n ==> a[j] == #[trigger] b[j]
            &&& n == a.len() || n == b.len() || a[n] != b[n]
        }),
{
    if k % 16 != 0 {
        lemma_common(entries[k - 1].key, entries[k].key, 0);
        lemma_common_ends(entries[k - 1].key, entries[k].key, 0);
    }
}

proof fn lemma_common_ends(a: Seq<u8>, b: Seq<u8>, i: nat)
    requires
        i <= a.len(),
        i <= b.len(),
    ensures
        ({
            let n = common_from(a, b, i) as int;
            n == a.len() || n == b.len() || a[n] != b[n]
        }),
    decreases a.len() - i,
{
    if i < a.len() && i < b.len() && a[i as int] == b[i as int] {
        lemma_common_ends(a, b, i + 1);
    }
}

/// Law: a block is accepted where its last four bytes are the checksum of all before
/// them, and there is room for the restarts that it counts; a mismatch tells the
/// checksum that is stored and the one that was found.
pub proof fn law_accepted_block(b: Seq<u8>)
    requires
        b.len() >= 8,
    ensures
        ({
            let n = b.len() as int;
            let stored = u32_from(b.subrange(n - 4, n));
            let found = crc(b.subrange(0, n - 4));
            let restarts = u32_from(b.subrange(n - 8, n - 4));
            &&& parse_block(b) is Ok <==> stored == found && 4 * restarts + 8 <= n
            &&& stored != found ==> parse_block(b) == Err::<(Seq<u8>, Seq<u8>), ErrorView>(
                ErrorView::ChecksumMismatch {
                    context: "sstable data block"@,
                    expected: stored as u64,
                    found: found as u64,
                },
            )
            &&& parse_block(b) matches Ok((records, offsets)) ==> records + offsets
                == b.subrange(0, n - 8) && offsets.len() == 4 * restarts
        }),
{
    let n = b.len() as int;
    if let Ok((records, offsets)) = parse_block(b) {
        assert(records + offsets =~= b.subrange(0, n - 8));
    }
}

/// Law: a block has one restart for every sixteen records, of which the last may be
/// fewer.
pub proof fn law_restarts_are_sixteen_apart(n: nat)
    ensures
        16 * restart_count(n) >= n,
        n > 0 ==> 16 * (restart_count(n) - 1) < n,
        n == 0 ==> restart_count(n) == 0,
{
}

} // verus!
