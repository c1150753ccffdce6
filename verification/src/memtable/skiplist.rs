//! Pugh skip list: the engine's in-memory write buffer.
//!
//! Entries are ordered by `(key ascending, sequence number descending)`, so a
//! walk along the bottom level meets the newest version of a key first.
//!
//! Nodes live in a table and link to each other by index; the node at index
//! zero is the head, which stays at the front of every level and stands for
//! "nothing" as a link. Keys and values live in an [`Arena`]. Each node takes
//! one allocation there, with room in front of the key for what the node's
//! header and links take.
use vstd::prelude::*;

use crate::encoding::order::{
    compare_bytes, lemma_lex_asymmetric, lemma_lex_irreflexive, lemma_lex_total,
    lemma_lex_transitive, lex_lt, Order,
};
use crate::io::aligned_buf::power_of_two;
use crate::memtable::arena::{capped, taken, Arena, Region};
use crate::model::{
    before, entry_le, lemma_lookup_first, lemma_lookup_none, lemma_sorted_keys, lookup, sorted, visible,
    Entry,
};
use crate::sstable::format::RecordOp;

verus! {

/// Maximum number of levels in any skip-list node.
pub const MAX_HEIGHT: usize = 12;

/// Branching factor: at each level the probability of promoting to the next
/// level higher is one in this many.
const BRANCH: u32 = 4;

/// Bytes that the header of a node takes.
pub const NODE_HEADER_SIZE: usize = 24;

/// Bytes that a link takes.
pub const LINK_SIZE: usize = 8;

/// Logical op type stored on each node.
#[derive(Debug, Clone, Copy, PartialEq, Eq, Hash, Structural)]
pub enum OpType {
    /// Insert or overwrite.
    Put,
    /// Tombstone for a key.
    Tombstone,
}

impl OpType {
    /// The same operation as a table record has it.
    pub open spec fn record_op(self) -> RecordOp {
        match self {
            OpType::Put => RecordOp::Put,
            OpType::Tombstone => RecordOp::Tombstone,
        }
    }

    /// Parse from the byte stored on disk.
    pub fn from_byte(b: u8) -> (r: Option<OpType>)
        ensures
            r == (match b {
                0u8 => Some(OpType::Put),
                1u8 => Some(OpType::Tombstone),
                _ => None,
            }),
    {
        match b {
            0 => Some(OpType::Put),
            1 => Some(OpType::Tombstone),
            _ => None,
        }
    }

    /// The operation as a table record has it.
    pub fn to_record_op(self) -> (op: RecordOp)
        ensures
            op == self.record_op(),
    {
        match self {
            OpType::Put => RecordOp::Put,
            OpType::Tombstone => RecordOp::Tombstone,
        }
    }
}

// ----- Order -----

/// Where `(key, seqno)` belongs in a run: behind everything strictly before
/// it, and in front of an equal one.
pub open spec fn slot(entries: Seq<Entry>, key: Seq<u8>, seqno: u64) -> int
    decreases entries.len(),
{
    if entries.len() > 0 && before(entries[0], key, seqno) {
        1 + slot(entries.subrange(1, entries.len() as int), key, seqno)
    } else {
        0
    }
}

proof fn lemma_slot(entries: Seq<Entry>, key: Seq<u8>, seqno: u64, p: int)
    requires
        0 <= p <= entries.len(),
        forall|r: int| 0 <= r < p ==> before(#[trigger] entries[r], key, seqno),
        p < entries.len() ==> !before(entries[p], key, seqno),
    ensures
        slot(entries, key, seqno) == p,
    decreases p,
{
    if p > 0 {
        assert(before(entries[0], key, seqno));
        let rest = entries.subrange(1, entries.len() as int);
        assert forall|r: int| 0 <= r < p - 1 implies before(#[trigger] rest[r], key, seqno) by {
            assert(rest[r] == entries[r + 1]);
        }
        lemma_slot(rest, key, seqno, p - 1);
    }
}

/// What stands before an entry that is before a place, is before it too.
proof fn lemma_before_mono(a: Entry, b: Entry, key: Seq<u8>, seqno: u64)
    requires
        entry_le(a, b),
        before(b, key, seqno),
    ensures
        before(a, key, seqno),
{
    if lex_lt(a.key, b.key) && lex_lt(b.key, key) {
        lemma_lex_transitive(a.key, b.key, key);
    }
}

/// A run with an entry put in its place.
pub open spec fn inserted(entries: Seq<Entry>, e: Entry) -> Seq<Entry> {
    entries.insert(slot(entries, e.key, e.seqno), e)
}

/// The place of an entry in a sorted run.
pub proof fn lemma_slot_splits(entries: Seq<Entry>, key: Seq<u8>, seqno: u64)
    requires
        sorted(entries),
    ensures
        0 <= slot(entries, key, seqno) <= entries.len(),
        forall|r: int|
            0 <= r < slot(entries, key, seqno) ==> before(#[trigger] entries[r], key, seqno),
        forall|r: int|
            slot(entries, key, seqno) <= r < entries.len() ==> !before(
                #[trigger] entries[r],
                key,
                seqno,
            ),
    decreases entries.len(),
{
    if entries.len() > 0 && before(entries[0], key, seqno) {
        let rest = entries.subrange(1, entries.len() as int);
        crate::model::lemma_sorted_subrange(entries, 1, entries.len() as int);
        lemma_slot_splits(rest, key, seqno);
        assert forall|r: int| 0 <= r < slot(entries, key, seqno) implies before(
            #[trigger] entries[r],
            key,
            seqno,
        ) by {
            if r > 0 {
                assert(rest[r - 1] == entries[r]);
            }
        }
        assert forall|r: int| slot(entries, key, seqno) <= r < entries.len() implies !before(
            #[trigger] entries[r],
            key,
            seqno,
        ) by {
            assert(rest[r - 1] == entries[r]);
        }
    } else {
        assert forall|r: int| 0 <= r < entries.len() implies !before(
            #[trigger] entries[r],
            key,
            seqno,
        ) by {
            if r > 0 && before(entries[r], key, seqno) {
                lemma_before_mono(entries[0], entries[r], key, seqno);
            }
        }
    }
}

/// Law: putting an entry in its place keeps a run sorted.
pub proof fn law_insert_keeps_order(entries: Seq<Entry>, e: Entry)
    requires
        sorted(entries),
    ensures
        sorted(inserted(entries, e)),
{
    lemma_slot_splits(entries, e.key, e.seqno);
    let p = slot(entries, e.key, e.seqno);
    let all = inserted(entries, e);
    assert forall|i: int, j: int|
        #![trigger all[i], all[j]]
        0 <= i < j < all.len() implies entry_le(all[i], all[j]) by {
        if i == p {
            assert(all[j] == entries[j - 1]);
            lemma_lex_total(e.key, entries[j - 1].key);
        } else if j == p {
            assert(all[i] == entries[i]);
        } else {
            let i0 = if i < p { i } else { i - 1 };
            let j0 = if j < p { j } else { j - 1 };
            assert(all[i] == entries[i0]);
            assert(all[j] == entries[j0]);
        }
    }
}

/// Law: an entry that is the newest of its key answers lookups as if it had
/// been put in front of the whole run.
pub proof fn law_newest_entry_answers_first(
    entries: Seq<Entry>,
    e: Entry,
    key: Seq<u8>,
    snapshot: u64,
)
    requires
        sorted(entries),
        forall|i: int|
            #![trigger entries[i]]
            0 <= i < entries.len() && entries[i].key == e.key ==> entries[i].seqno <= e.seqno,
    ensures
        lookup(inserted(entries, e), key, snapshot) == lookup(seq![e] + entries, key, snapshot),
{
    lemma_slot_splits(entries, e.key, e.seqno);
    let p = slot(entries, e.key, e.seqno);
    let a = entries.subrange(0, p);
    let b = entries.subrange(p, entries.len() as int);
    assert(entries =~= a + b);
    assert(inserted(entries, e) =~= a + (seq![e] + b));
    crate::model::lemma_lookup_concat(a, seq![e] + b, key, snapshot);
    crate::model::lemma_lookup_concat(seq![e], b, key, snapshot);
    crate::model::lemma_lookup_concat(seq![e], entries, key, snapshot);
    crate::model::lemma_lookup_concat(a, b, key, snapshot);
    if visible(e, key, snapshot) {
        assert(seq![e][0] == e);
        lemma_lookup_first(seq![e], key, snapshot, 0);
        assert forall|j: int| 0 <= j < a.len() implies !visible(
            #[trigger] a[j],
            key,
            snapshot,
        ) by {
            assert(a[j] == entries[j]);
            assert(before(entries[j], e.key, e.seqno));
            if a[j].key == key {
                lemma_lex_irreflexive(key);
            }
        }
        lemma_lookup_none(a, key, snapshot);
    } else {
        assert(seq![e][0] == e);
        lemma_lookup_none(seq![e], key, snapshot);
    }
}

// ----- A list of inserts -----

/// What a skip list holds after inserting the entries of a list, one after the
/// other.
pub open spec fn after_inserts(list: Seq<Entry>) -> Seq<Entry>
    decreases list.len(),
{
    if list.len() == 0 {
        Seq::empty()
    } else {
        inserted(after_inserts(list.drop_last()), list.last())
    }
}

/// Law: a skip list holds exactly what was inserted, each entry as often as it
/// was, keys ascending and the versions of one key descending.
pub proof fn law_inserts_are_kept_in_order(list: Seq<Entry>)
    ensures
        after_inserts(list).len() == list.len(),
        sorted(after_inserts(list)),
        after_inserts(list).to_multiset() == list.to_multiset(),
    decreases list.len(),
{
    broadcast use vstd::seq_lib::group_to_multiset_ensures;

    if list.len() > 0 {
        let less = list.drop_last();
        let e = list.last();
        law_inserts_are_kept_in_order(less);
        let entries = after_inserts(less);
        lemma_slot_splits(entries, e.key, e.seqno);
        law_insert_keeps_order(entries, e);
        vstd::seq_lib::to_multiset_insert(entries, slot(entries, e.key, e.seqno), e);
        assert(list =~= less.push(e));
    } else {
        assert(after_inserts(list) =~= list);
    }
}

/// What one insert does to a lookup.
proof fn lemma_lookup_inserted(entries: Seq<Entry>, e: Entry, key: Seq<u8>, snapshot: u64)
    requires
        sorted(entries),
    ensures
        lookup(inserted(entries, e), key, snapshot) == (match lookup(entries, key, snapshot) {
            None => if visible(e, key, snapshot) {
                Some(e)
            } else {
                None
            },
            Some(x) => if visible(e, key, snapshot) && x.seqno <= e.seqno {
                Some(e)
            } else {
                Some(x)
            },
        }),
{
    lemma_slot_splits(entries, e.key, e.seqno);
    let p = slot(entries, e.key, e.seqno);
    let a = entries.subrange(0, p);
    let b = entries.subrange(p, entries.len() as int);
    assert(entries =~= a + b);
    assert(inserted(entries, e) =~= a + (seq![e] + b));
    crate::model::lemma_lookup_concat(a, seq![e] + b, key, snapshot);
    crate::model::lemma_lookup_concat(seq![e], b, key, snapshot);
    crate::model::lemma_lookup_concat(a, b, key, snapshot);
    assert(seq![e][0] == e);
    let i = crate::model::lemma_lookup_sound(a, key, snapshot);
    let j = crate::model::lemma_lookup_sound(b, key, snapshot);
    if visible(e, key, snapshot) {
        lemma_lookup_first(seq![e], key, snapshot, 0);
        lemma_lex_irreflexive(key);
        if lookup(a, key, snapshot) is Some {
            assert(before(entries[i], key, e.seqno));
        } else if lookup(b, key, snapshot) is Some {
            assert(b[j] == entries[p + j]);
            assert(!before(entries[p + j], key, e.seqno));
        }
    } else {
        lemma_lookup_none(seq![e], key, snapshot);
    }
}

/// Law: after any list of inserts, in whatever order, a lookup finds nothing if
/// and only if no insert is visible; otherwise it finds the visible insert with
/// the greatest sequence number, of several the latest. Its place in the list
/// is `i`.
pub proof fn law_lookup_after_inserts(list: Seq<Entry>, key: Seq<u8>, snapshot: u64) -> (i: int)
    ensures
        match lookup(after_inserts(list), key, snapshot) {
            None => forall|j: int|
                0 <= j < list.len() ==> !visible(#[trigger] list[j], key, snapshot),
            Some(e) => 0 <= i < list.len() && list[i] == e && visible(e, key, snapshot) && forall|
                j: int,
            |
                0 <= j < list.len() && visible(#[trigger] list[j], key, snapshot) ==> list[j].seqno
                    < e.seqno || (list[j].seqno == e.seqno && j <= i),
        },
    decreases list.len(),
{
    if list.len() == 0 {
        0
    } else {
        let less = list.drop_last();
        let n = less.len() as int;
        law_inserts_are_kept_in_order(less);
        lemma_lookup_inserted(after_inserts(less), list[n], key, snapshot);
        let k = law_lookup_after_inserts(less, key, snapshot);
        assert forall|j: int| 0 <= j < n implies #[trigger] list[j] == less[j] by {}
        if lookup(after_inserts(list), key, snapshot) == lookup(after_inserts(less), key, snapshot)
            && lookup(after_inserts(less), key, snapshot) is Some && !(visible(
            list[n],
            key,
            snapshot,
        ) && lookup(after_inserts(less), key, snapshot)->0.seqno <= list[n].seqno) {
            k
        } else {
            n
        }
    }
}

/// What one insert is given.
pub struct Insert {
    pub key: Seq<u8>,
    pub value: Seq<u8>,
    pub seqno: u64,
    pub op: OpType,
}

impl Insert {
    /// The entry that it leaves: a tombstone has no value.
    pub open spec fn entry(self) -> Entry {
        Entry {
            key: self.key,
            seqno: self.seqno,
            op: self.op.record_op(),
            value: if self.op == OpType::Put {
                self.value
            } else {
                Seq::empty()
            },
        }
    }

    /// A lookup of `key` at `snapshot` may find it.
    pub open spec fn found_by(self, key: Seq<u8>, snapshot: u64) -> bool {
        self.key == key && self.seqno <= snapshot
    }
}

/// The entries that inserts leave.
pub open spec fn entries_of(inserts: Seq<Insert>) -> Seq<Entry> {
    inserts.map_values(|i: Insert| i.entry())
}

/// `lists` are the states of a skip list: empty, and after each insert.
pub open spec fn grown_by(lists: Seq<SkipList>, inserts: Seq<Insert>) -> bool {
    &&& lists.len() == inserts.len() + 1
    &&& lists[0]@ == Seq::<Entry>::empty()
    &&& forall|i: int|
        0 <= i < inserts.len() ==> lists[i + 1]@ == inserted(
            lists[i]@,
            (#[trigger] inserts[i]).entry(),
        )
}

proof fn lemma_grown_by(lists: Seq<SkipList>, inserts: Seq<Insert>)
    requires
        grown_by(lists, inserts),
    ensures
        lists.last()@ == after_inserts(entries_of(inserts)),
    decreases inserts.len(),
{
    if inserts.len() > 0 {
        let less = inserts.drop_last();
        let n = inserts.len() - 1;
        assert(grown_by(lists.drop_last(), less)) by {
            assert forall|i: int| 0 <= i < less.len() implies lists.drop_last()[i + 1]@ == inserted(
                lists.drop_last()[i]@,
                (#[trigger] less[i]).entry(),
            ) by {
                assert(less[i] == inserts[i]);
            }
        }
        lemma_grown_by(lists.drop_last(), less);
        assert(entries_of(inserts).drop_last() =~= entries_of(less));
        assert(entries_of(inserts).last() == inserts[n].entry());
        assert(lists[n + 1]@ == inserted(lists[n]@, inserts[n].entry()));
    }
}

/// Law: a skip list that grew by inserts, in whatever order, has as many
/// entries as there were, exactly those, sorted. A lookup finds nothing if and
/// only if no insert is visible to it. Otherwise it finds what the visible
/// insert with the greatest sequence number left, of several the latest, whose
/// place among the inserts is `i`.
pub proof fn law_skip_list_of_inserts(
    lists: Seq<SkipList>,
    inserts: Seq<Insert>,
    key: Seq<u8>,
    snapshot: u64,
) -> (i: int)
    requires
        grown_by(lists, inserts),
    ensures
        lists.last()@.len() == inserts.len(),
        sorted(lists.last()@),
        lists.last()@.to_multiset() == entries_of(inserts).to_multiset(),
        match lookup(lists.last()@, key, snapshot) {
            None => forall|j: int|
                0 <= j < inserts.len() ==> !(#[trigger] inserts[j]).found_by(key, snapshot),
            Some(e) => 0 <= i < inserts.len() && inserts[i].found_by(key, snapshot) && e
                == inserts[i].entry() && forall|j: int|
                0 <= j < inserts.len() && (#[trigger] inserts[j]).found_by(key, snapshot)
                    ==> inserts[j].seqno < inserts[i].seqno || (inserts[j].seqno
                    == inserts[i].seqno && j <= i),
        },
{
    let list = entries_of(inserts);
    lemma_grown_by(lists, inserts);
    law_inserts_are_kept_in_order(list);
    let i = law_lookup_after_inserts(list, key, snapshot);
    assert forall|j: int| 0 <= j < inserts.len() implies (#[trigger] inserts[j]).found_by(
        key,
        snapshot,
    ) == visible(list[j], key, snapshot) by {
        assert(list[j] == inserts[j].entry());
    }
    i
}

// ----- Height -----

/// The next state of the level generator (xorshift).
pub open spec fn next_rng(s: u32) -> u32 {
    let a = s ^ (s << 13u32);
    let b = a ^ (a >> 17u32);
    b ^ (b << 5u32)
}

/// The height that a generator state stands for, from `h` levels on.
pub open spec fn height_from(s: u32, h: nat) -> nat
    decreases 12 - h,
{
    if h < 12 && s % 4 == 0 {
        height_from(((s * 0x9E37_79B9) % 0x1_0000_0000) as u32, h + 1)
    } else {
        h
    }
}

/// Law: a node has one level at least and twelve at most, and more than one where
/// the generator's two low bits are zero: one time in four.
pub proof fn law_heights_are_bounded(s: u32, h: nat)
    requires
        1 <= h <= 12,
    ensures
        h <= height_from(s, h) <= 12,
        h < 12 ==> (height_from(s, h) > h <==> s % 4 == 0),
    decreases 12 - h,
{
    if h < 12 && s % 4 == 0 {
        law_heights_are_bounded(((s * 0x9E37_79B9) % 0x1_0000_0000) as u32, h + 1);
    }
}

/// Law: the generator does not get stuck at zero, and no two of its states have
/// the same successor.
pub proof fn law_generator_keeps_going(s: u32, t: u32)
    ensures
        next_rng(s) == next_rng(t) ==> s == t,
        s != 0 ==> next_rng(s) != 0,
{
    let (a, b) = (s ^ (s << 13u32), t ^ (t << 13u32));
    assert(a == b ==> s == t) by (bit_vector)
        requires
            a == s ^ (s << 13u32),
            b == t ^ (t << 13u32),
    ;
    let (c, d) = (a ^ (a >> 17u32), b ^ (b >> 17u32));
    assert(c == d ==> a == b) by (bit_vector)
        requires
            c == a ^ (a >> 17u32),
            d == b ^ (b >> 17u32),
    ;
    let (e, f) = (c ^ (c << 5u32), d ^ (d << 5u32));
    assert(e == f ==> c == d) by (bit_vector)
        requires
            e == c ^ (c << 5u32),
            f == d ^ (d << 5u32),
    ;
    assert(s != 0 ==> a != 0) by (bit_vector)
        requires
            a == s ^ (s << 13u32),
    ;
    assert(a != 0 ==> c != 0) by (bit_vector)
        requires
            c == a ^ (a >> 17u32),
    ;
    assert(c != 0 ==> e != 0) by (bit_vector)
        requires
            e == c ^ (c << 5u32),
    ;
}

// ----- Links -----

/// One node. Its height is the number of its links.
struct Node {
    key: Region,
    value: Region,
    seqno: u64,
    op: OpType,
    next: Vec<usize>,
}

spec fn height(nodes: Seq<Node>, x: int) -> int {
    nodes[x].next@.len() as int
}

/// The link at level `l` of the node at position `p` leads to the next node
/// that reaches that level, or nowhere if there is none.
spec fn link_ok(nodes: Seq<Node>, order: Seq<int>, pos: Seq<int>, p: int, l: int) -> bool {
    let t = nodes[order[p]].next@[l] as int;
    &&& t < nodes.len()
    &&& t == 0 ==> forall|r: int|
        p < r < nodes.len() ==> height(nodes, #[trigger] order[r]) <= l
    &&& t != 0 ==> p < pos[t] && height(nodes, t) > l && forall|r: int|
        p < r < pos[t] ==> height(nodes, #[trigger] order[r]) <= l
}

/// `order` lists the nodes from the head on, and `pos` is its inverse.
spec fn listed(nodes: Seq<Node>, order: Seq<int>, pos: Seq<int>) -> bool {
    &&& nodes.len() >= 1
    &&& order.len() == nodes.len()
    &&& pos.len() == nodes.len()
    &&& order[0] == 0
    &&& pos[0] == 0
    &&& forall|p: int|
        #![trigger order[p]]
        0 <= p < nodes.len() ==> 0 <= order[p] < nodes.len() && pos[order[p]] == p
    &&& forall|x: int|
        #![trigger pos[x]]
        0 <= x < nodes.len() ==> 0 <= pos[x] < nodes.len() && order[pos[x]] == x
}

/// Heights are in range, and the head has them all.
spec fn heights_ok(nodes: Seq<Node>, max_height: int) -> bool {
    &&& 1 <= max_height <= MAX_HEIGHT
    &&& height(nodes, 0) == MAX_HEIGHT
    &&& forall|x: int|
        #![trigger nodes[x]]
        1 <= x < nodes.len() ==> 1 <= height(nodes, x) <= max_height
}

/// Every link leads where it should.
spec fn linked(nodes: Seq<Node>, order: Seq<int>, pos: Seq<int>) -> bool {
    forall|p: int, l: int|
        #![trigger link_ok(nodes, order, pos, p, l)]
        0 <= p < nodes.len() && 0 <= l < height(nodes, order[p]) ==> link_ok(
            nodes,
            order,
            pos,
            p,
            l,
        )
}

/// The node `prev[l]` is the last one at or before position `p` that reaches
/// level `l`.
spec fn last_reaching(
    nodes: Seq<Node>,
    order: Seq<int>,
    pos: Seq<int>,
    x: int,
    p: int,
    l: int,
) -> bool {
    &&& 0 <= x < nodes.len()
    &&& pos[x] <= p
    &&& height(nodes, x) > l
    &&& forall|r: int| pos[x] < r <= p ==> height(nodes, #[trigger] order[r]) <= l
}

/// `pos` after a node was put behind position `p`.
spec fn moved(pos: Seq<int>, p: int) -> Seq<int> {
    Seq::new(
        (pos.len() + 1) as nat,
        |x: int|
            if x == pos.len() {
                p + 1
            } else if pos[x] <= p {
                pos[x]
            } else {
                pos[x] + 1
            },
    )
}

/// The links after a node of height `h` was put behind `prev` at its levels.
spec fn spliced(before: Seq<Node>, after: Seq<Node>, prev: Seq<usize>, h: int) -> bool {
    &&& after.len() == before.len() + 1
    &&& height(after, before.len() as int) == h
    &&& forall|l: int|
        #![trigger after[before.len() as int].next@[l]]
        0 <= l < h ==> after[before.len() as int].next@[l] == before[prev[l] as int].next@[l]
    &&& forall|x: int|
        #![trigger after[x]]
        0 <= x < before.len() ==> after[x].next@.len() == before[x].next@.len()
    &&& forall|x: int, l: int|
        #![trigger after[x].next@[l]]
        0 <= x < before.len() && 0 <= l < before[x].next@.len() ==> after[x].next@[l] == (if l < h
            && x == prev[l] {
            before.len() as usize
        } else {
            before[x].next@[l]
        })
}

proof fn lemma_listed_insert(nodes: Seq<Node>, after: Seq<Node>, order: Seq<int>, pos: Seq<int>, p: int)
    requires
        listed(nodes, order, pos),
        after.len() == nodes.len() + 1,
        0 <= p < nodes.len(),
    ensures
        listed(after, order.insert(p + 1, nodes.len() as int), moved(pos, p)),
{
    let n = nodes.len() as int;
    let order2 = order.insert(p + 1, n);
    let pos2 = moved(pos, p);
    assert forall|q: int| #![trigger order2[q]] 0 <= q < after.len() implies 0 <= order2[q]
        < after.len() && pos2[order2[q]] == q by {
        if q <= p {
            assert(order2[q] == order[q]);
        } else if q > p + 1 {
            assert(order2[q] == order[q - 1]);
        }
    }
    assert forall|x: int| #![trigger pos2[x]] 0 <= x < after.len() implies 0 <= pos2[x]
        < after.len() && order2[pos2[x]] == x by {
        if x < n {
            assert(order[pos[x]] == x);
        }
    }
}

/// Splicing a node in keeps every link right.
proof fn lemma_links_insert(
    nodes: Seq<Node>,
    after: Seq<Node>,
    order: Seq<int>,
    pos: Seq<int>,
    prev: Seq<usize>,
    p: int,
    h: int,
)
    requires
        listed(nodes, order, pos),
        linked(nodes, order, pos),
        0 <= p < nodes.len(),
        nodes.len() <= usize::MAX,
        1 <= h <= MAX_HEIGHT,
        prev.len() >= h,
        forall|l: int|
            #![trigger prev[l]]
            0 <= l < h ==> last_reaching(nodes, order, pos, prev[l] as int, p, l),
        spliced(nodes, after, prev, h),
    ensures
        linked(after, order.insert(p + 1, nodes.len() as int), moved(pos, p)),
{
    let n = nodes.len() as int;
    let order2 = order.insert(p + 1, n);
    let pos2 = moved(pos, p);
    lemma_listed_insert(nodes, after, order, pos, p);
    assert forall|q: int, l: int|
        #![trigger link_ok(after, order2, pos2, q, l)]
        0 <= q < after.len() && 0 <= l < height(after, order2[q]) implies link_ok(
        after,
        order2,
        pos2,
        q,
        l,
    ) by {
        let heights_same = forall|x: int| 0 <= x < n ==> height(after, x) == #[trigger] height(nodes, x);
        assert(heights_same) by {
            assert forall|x: int| 0 <= x < n implies height(after, x) == #[trigger] height(
                nodes,
                x,
            ) by {
                assert(after[x].next@.len() == nodes[x].next@.len());
            }
        }
        if q == p + 1 {
            let y = prev[l] as int;
            let py = pos[y];
            assert(last_reaching(nodes, order, pos, y, p, l));
            assert(order[py] == y);
            assert(link_ok(nodes, order, pos, py, l));
            let t = after[n].next@[l] as int;
            assert(t == nodes[y].next@[l]);
            if t == 0 {
                assert forall|r: int| q < r < after.len() implies height(
                    after,
                    #[trigger] order2[r],
                ) <= l by {
                    assert(order2[r] == order[r - 1]);
                }
            } else {
                assert(order[pos[t]] == t);
                assert(pos[t] > p);
                assert forall|r: int| q < r < pos2[t] implies height(
                    after,
                    #[trigger] order2[r],
                ) <= l by {
                    assert(order2[r] == order[r - 1]);
                }
            }
        } else if q <= p {
            let x = order[q];
            assert(order2[q] == x);
            assert(link_ok(nodes, order, pos, q, l));
            let t = after[x].next@[l] as int;
            if l < h && x == prev[l] {
                assert(last_reaching(nodes, order, pos, x, p, l));
                assert(t == n);
                assert forall|r: int| q < r < pos2[n] implies height(
                    after,
                    #[trigger] order2[r],
                ) <= l by {
                    assert(order2[r] == order[r]);
                }
            } else {
                assert(t == nodes[x].next@[l]);
                if l < h {
                    let y = prev[l] as int;
                    let py = pos[y];
                    assert(last_reaching(nodes, order, pos, y, p, l));
                    assert(order[py] == y);
                    assert(q != py);
                    assert(q < py);
                    assert(height(nodes, order[py]) > l);
                    assert(t != 0);
                    assert(order[pos[t]] == t);
                    assert(pos[t] <= py);
                    assert forall|r: int| q < r < pos2[t] implies height(
                        after,
                        #[trigger] order2[r],
                    ) <= l by {
                        assert(order2[r] == order[r]);
                    }
                } else {
                    if t == 0 {
                        assert forall|r: int| q < r < after.len() implies height(
                            after,
                            #[trigger] order2[r],
                        ) <= l by {
                            if r <= p {
                                assert(order2[r] == order[r]);
                            } else if r > p + 1 {
                                assert(order2[r] == order[r - 1]);
                            }
                        }
                    } else {
                        assert(order[pos[t]] == t);
                        assert forall|r: int| q < r < pos2[t] implies height(
                            after,
                            #[trigger] order2[r],
                        ) <= l by {
                            if r <= p {
                                assert(order2[r] == order[r]);
                            } else if r > p + 1 {
                                assert(order2[r] == order[r - 1]);
                            }
                        }
                    }
                }
            }
        } else {
            let x = order[q - 1];
            assert(order2[q] == x);
            assert(link_ok(nodes, order, pos, q - 1, l));
            let t = after[x].next@[l] as int;
            if l < h {
                assert(last_reaching(nodes, order, pos, prev[l] as int, p, l));
                assert(pos[x] == q - 1);
            }
            assert(t == nodes[x].next@[l]);
            if t == 0 {
                assert forall|r: int| q < r < after.len() implies height(
                    after,
                    #[trigger] order2[r],
                ) <= l by {
                    assert(order2[r] == order[r - 1]);
                }
            } else {
                assert(order[pos[t]] == t);
                assert forall|r: int| q < r < pos2[t] implies height(
                    after,
                    #[trigger] order2[r],
                ) <= l by {
                    assert(order2[r] == order[r - 1]);
                }
            }
        }
    }
}

// ----- The list -----

/// Pugh skip list. Its view is the entries in order.
pub struct SkipList {
    arena: Arena,
    nodes: Vec<Node>,
    /// Highest currently occupied level.
    max_height: usize,
    /// State of the generator that picks heights.
    rng_state: u32,
    order: Ghost<Seq<int>>,
    pos: Ghost<Seq<int>>,
}

impl View for SkipList {
    type V = Seq<Entry>;

    closed spec fn view(&self) -> Seq<Entry> {
        Seq::new((self.nodes@.len() - 1) as nat, |p: int| self.entry(self.order@[p + 1]))
    }
}

/// The entry of a node.
spec fn node_entry(arena: &Arena, node: Node) -> Entry {
    Entry {
        key: arena.at(node.key),
        seqno: node.seqno,
        op: node.op.record_op(),
        value: arena.at(node.value),
    }
}

/// Every node's bytes are in the arena.
spec fn stored(arena: &Arena, nodes: Seq<Node>) -> bool {
    forall|x: int|
        #![trigger nodes[x]]
        1 <= x < nodes.len() ==> arena.holds(nodes[x].key) && arena.holds(nodes[x].value)
}

impl SkipList {
    spec fn entry(&self, x: int) -> Entry {
        node_entry(&self.arena, self.nodes@[x])
    }

    /// The links are those of a skip list over sorted entries.
    pub closed spec fn wf(&self) -> bool {
        &&& self.arena.wf()
        &&& listed(self.nodes@, self.order@, self.pos@)
        &&& heights_ok(self.nodes@, self.max_height as int)
        &&& linked(self.nodes@, self.order@, self.pos@)
        &&& stored(&self.arena, self.nodes@)
        &&& sorted(self@)
    }

    /// The entries of a list are sorted.
    pub proof fn lemma_sorted(&self)
        requires
            self.wf(),
        ensures
            sorted(self@),
    {
    }

    /// Bytes of the arena in use.
    pub closed spec fn used(&self) -> usize {
        self.arena.used()
    }

    /// State of the generator that picks heights.
    pub closed spec fn rng(&self) -> u32 {
        self.rng_state
    }

    /// Construct an empty skip list with a fresh arena.
    pub fn new() -> (s: SkipList)
        ensures
            s.wf(),
            s@ == Seq::<Entry>::empty(),
            s.used() == NODE_HEADER_SIZE + MAX_HEIGHT * LINK_SIZE,
            s.rng() == 0x9E37_79B9,
    {
        let mut arena = Arena::new();
        proof {
            reveal_with_fuel(power_of_two, 4);
        }
        let room: Region = arena.allocate(NODE_HEADER_SIZE + MAX_HEIGHT * LINK_SIZE, 8);
        let mut next: Vec<usize> = Vec::new();
        let mut l: usize = 0;
        while l < MAX_HEIGHT
            invariant
                l <= MAX_HEIGHT,
                next@.len() == l,
                forall|j: int| 0 <= j < l ==> next@[j] == 0,
            decreases MAX_HEIGHT - l,
        {
            next.push(0);
            l += 1;
        }
        let nothing = Region { slab: room.slab, start: room.start, len: 0 };
        let mut nodes: Vec<Node> = Vec::new();
        nodes.push(Node { key: nothing, value: nothing, seqno: 0, op: OpType::Put, next });
        let ghost only: Seq<int> = seq![0int];
        let s = SkipList {
            arena,
            nodes,
            max_height: 1,
            rng_state: 0x9E37_79B9,
            order: Ghost(only),
            pos: Ghost(only),
        };
        proof {
            assert(s@ =~= Seq::<Entry>::empty());
            assert forall|p: int, k: int|
                #![trigger link_ok(s.nodes@, s.order@, s.pos@, p, k)]
                0 <= p < s.nodes@.len() && 0 <= k < height(s.nodes@, s.order@[p]) implies link_ok(
                s.nodes@,
                s.order@,
                s.pos@,
                p,
                k,
            ) by {
                assert(s.nodes@[0].next@[k] == 0);
            }
        }
        s
    }

    /// Number of entries inserted, tombstones among them.
    pub fn len(&self) -> (n: usize)
        requires
            self.wf(),
        ensures
            n == self@.len(),
    {
        self.nodes.len() - 1
    }

    /// `true` if no entries have been inserted.
    pub fn is_empty(&self) -> (r: bool)
        requires
            self.wf(),
        ensures
            r == (self@.len() == 0),
    {
        self.len() == 0
    }

    /// Total bytes consumed from the arena.
    pub fn bytes_used(&self) -> (n: usize)
        ensures
            n == self.used(),
    {
        self.arena.bytes_used()
    }

    /// The node at `x` stands strictly before the place of `(key, seqno)`.
    fn is_before(&self, x: usize, key: &[u8], seqno: u64) -> (r: bool)
        requires
            self.wf(),
            1 <= x < self.nodes@.len(),
        ensures
            r == before(self.entry(x as int), key@, seqno),
    {
        proof {
            assert(self.arena.holds(self.nodes@[x as int].key));
        }
        let k: &[u8] = self.arena.read(self.nodes[x].key);
        match compare_bytes(k, key) {
            Order::Less => true,
            Order::Equal => {
                proof {
                    lemma_lex_irreflexive(key@);
                }
                self.nodes[x].seqno > seqno
            },
            Order::Greater => {
                proof {
                    lemma_lex_asymmetric(key@, k@);
                    lemma_lex_irreflexive(key@);
                }
                false
            },
        }
    }

    /// Everything up to the node `x`, and nothing behind it, stands strictly
    /// before the place.
    spec fn splits_at(&self, x: int, key: Seq<u8>, seqno: u64) -> bool {
        &&& 0 <= x < self.nodes@.len()
        &&& forall|r: int|
            1 <= r <= self.pos@[x] ==> before(
                self.entry(#[trigger] self.order@[r]),
                key,
                seqno,
            )
        &&& forall|r: int|
            self.pos@[x] < r < self.nodes@.len() ==> !before(
                self.entry(#[trigger] self.order@[r]),
                key,
                seqno,
            )
    }

    /// If the successor of `x` on the bottom level is not before the place,
    /// nothing behind `x` is.
    proof fn lemma_splits(&self, x: int, key: Seq<u8>, seqno: u64)
        requires
            self.wf(),
            0 <= x < self.nodes@.len(),
            forall|r: int|
                1 <= r <= self.pos@[x] ==> before(
                    self.entry(#[trigger] self.order@[r]),
                    key,
                    seqno,
                ),
            ({
                let t = self.nodes@[x].next@[0] as int;
                t != 0 ==> !before(self.entry(t), key, seqno)
            }),
        ensures
            self.splits_at(x, key, seqno),
            ({
                let t = self.nodes@[x].next@[0] as int;
                if t == 0 {
                    self.pos@[x] == self.nodes@.len() - 1
                } else {
                    0 < t < self.nodes@.len() && self.pos@[t] == self.pos@[x] + 1
                }
            }),
    {
        let n = self.nodes@.len() as int;
        let p = self.pos@[x];
        let t = self.nodes@[x].next@[0] as int;
        assert(self.order@[p] == x);
        assert(height(self.nodes@, x) >= 1) by {
            if x > 0 {
                assert(1 <= height(self.nodes@, x));
            }
        }
        assert(link_ok(self.nodes@, self.order@, self.pos@, p, 0));
        if p + 1 < n {
            let y = self.order@[p + 1];
            assert(y != 0) by {
                assert(self.pos@[y] == p + 1);
            }
            assert(height(self.nodes@, y) >= 1) by {
                assert(1 <= height(self.nodes@, y)) by {
                    let node = self.nodes@[y];
                }
            }
            assert(t != 0);
            assert(self.pos@[t] == p + 1) by {
                if self.pos@[t] > p + 1 {
                    assert(height(self.nodes@, self.order@[p + 1]) <= 0);
                }
            }
            assert(self.order@[p + 1] == t);
            assert forall|r: int| p < r < n implies !before(
                self.entry(#[trigger] self.order@[r]),
                key,
                seqno,
            ) by {
                if r > p + 1 {
                    assert(self@[p] == self.entry(t));
                    assert(self@[r - 1] == self.entry(self.order@[r]));
                    assert(entry_le(self@[p], self@[r - 1]));
                    if before(self.entry(self.order@[r]), key, seqno) {
                        lemma_before_mono(self@[p], self@[r - 1], key, seqno);
                    }
                }
            }
        } else {
            if t != 0 {
                assert(self.pos@[t] < n);
            }
        }
    }

    /// The last node strictly before the place of `(key, seqno)`: the head if
    /// there is none.
    fn last_before(&self, key: &[u8], seqno: u64) -> (x: usize)
        requires
            self.wf(),
        ensures
            self.splits_at(x as int, key@, seqno),
            ({
                let t = self.nodes@[x as int].next@[0] as int;
                if t == 0 {
                    self.pos@[x as int] == self.nodes@.len() - 1
                } else {
                    0 < t < self.nodes@.len() && self.pos@[t] == self.pos@[x as int] + 1
                }
            }),
            height(self.nodes@, x as int) >= 1,
    {
        let mut level: usize = self.max_height;
        let mut cur: usize = 0;
        let ghost n = self.nodes@.len() as int;
        while level > 0
            invariant
                self.wf(),
                n == self.nodes@.len(),
                level <= self.max_height,
                cur < n,
                height(self.nodes@, cur as int) >= level,
                height(self.nodes@, cur as int) >= 1,
                forall|r: int|
                    1 <= r <= self.pos@[cur as int] ==> before(
                        self.entry(#[trigger] self.order@[r]),
                        key@,
                        seqno,
                    ),
                level == 0 ==> ({
                    let t = self.nodes@[cur as int].next@[0] as int;
                    t != 0 ==> !before(self.entry(t), key@, seqno)
                }),
            decreases level,
        {
            level -= 1;
            let mut going: bool = true;
            while going
                invariant
                    self.wf(),
                    n == self.nodes@.len(),
                    level < self.max_height,
                    cur < n,
                    height(self.nodes@, cur as int) > level,
                    forall|r: int|
                        1 <= r <= self.pos@[cur as int] ==> before(
                            self.entry(#[trigger] self.order@[r]),
                            key@,
                            seqno,
                        ),
                    !going ==> ({
                        let t = self.nodes@[cur as int].next@[level as int] as int;
                        t != 0 ==> !before(self.entry(t), key@, seqno)
                    }),
                decreases n - self.pos@[cur as int] + (if going { 1int } else { 0int }),
            {
                proof {
                    let p = self.pos@[cur as int];
                    assert(self.order@[p] == cur);
                    assert(link_ok(self.nodes@, self.order@, self.pos@, p, level as int));
                }
                let next: usize = self.nodes[cur].next[level];
                if next == 0 {
                    going = false;
                } else if self.is_before(next, key, seqno) {
                    proof {
                        self.lemma_step(cur as int, next as int, key@, seqno);
                    }
                    cur = next;
                } else {
                    going = false;
                }
            }
        }
        proof {
            self.lemma_splits(cur as int, key@, seqno);
        }
        cur
    }

    /// If a node is before the place, so is everything up to it.
    proof fn lemma_step(&self, x: int, t: int, key: Seq<u8>, seqno: u64)
        requires
            self.wf(),
            0 < t < self.nodes@.len(),
            before(self.entry(t), key, seqno),
        ensures
            forall|r: int|
                1 <= r <= self.pos@[t] ==> before(
                    self.entry(#[trigger] self.order@[r]),
                    key,
                    seqno,
                ),
            self.pos@[t] < self.nodes@.len(),
    {
        assert(self.order@[self.pos@[t]] == t);
        let q = self.pos@[t];
        assert forall|r: int| 1 <= r <= q implies before(
            self.entry(#[trigger] self.order@[r]),
            key,
            seqno,
        ) by {
            if r < q {
                assert(self@[r - 1] == self.entry(self.order@[r]));
                assert(self@[q - 1] == self.entry(t));
                assert(entry_le(self@[r - 1], self@[q - 1]));
                lemma_before_mono(self@[r - 1], self@[q - 1], key, seqno);
            }
        }
    }

    /// Look up the most recent entry for `key` whose sequence number is at
    /// most `snapshot`. The entry may be a tombstone: the caller decides what
    /// that means.
    pub fn get<'a>(&'a self, key: &[u8], snapshot: u64) -> (r: Option<NodeRef<'a>>)
        requires
            self.wf(),
        ensures
            match lookup(self@, key@, snapshot) {
                Some(e) => r matches Some(n) && n@ == e,
                None => r is None,
            },
    {
        let x: usize = self.last_before(key, snapshot);
        let candidate: usize = self.nodes[x].next[0];
        let ghost p = self.pos@[x as int];
        proof {
            assert forall|j: int| 0 <= j < p implies !visible(
                #[trigger] self@[j],
                key@,
                snapshot,
            ) by {
                assert(before(self.entry(self.order@[j + 1]), key@, snapshot));
                if self@[j].key == key@ {
                    lemma_lex_irreflexive(key@);
                }
            }
        }
        if candidate == 0 {
            proof {
                lemma_lookup_none(self@, key@, snapshot);
            }
            return None;
        }
        let node = self.node(candidate);
        proof {
            assert(self.order@[p + 1] == candidate);
            assert(self@[p] == self.entry(candidate as int));
            assert(!before(self.entry(self.order@[p + 1]), key@, snapshot));
        }
        match compare_bytes(node.key(), key) {
            Order::Equal => {
                proof {
                    lemma_lookup_first(self@, key@, snapshot, p);
                }
                Some(node)
            },
            _ => {
                proof {
                    lemma_lex_total(self@[p].key, key@);
                    assert forall|j: int| 0 <= j < self@.len() implies !visible(
                        #[trigger] self@[j],
                        key@,
                        snapshot,
                    ) by {
                        if j >= p {
                            lemma_sorted_keys(self@, p, j);
                            if self@[j].key == key@ {
                                lemma_lex_asymmetric(key@, self@[p].key);
                            }
                        }
                    }
                    lemma_lookup_none(self@, key@, snapshot);
                }
                None
            },
        }
    }

    fn node<'a>(&'a self, x: usize) -> (r: NodeRef<'a>)
        requires
            self.wf(),
            1 <= x < self.nodes@.len(),
        ensures
            r@ == self.entry(x as int),
    {
        proof {
            assert(self.arena.holds(self.nodes@[x as int].key));
        }
        NodeRef { list: self, index: x }
    }

    /// Iterate every entry in order.
    pub fn iter<'a>(&'a self) -> (it: Iter<'a>)
        requires
            self.wf(),
        ensures
            it.wf(),
            it.remaining() == self@,
    {
        proof {
            self.lemma_first();
        }
        let first: usize = self.nodes[0].next[0];
        let it = Iter { list: self, cur: first };
        assert(it.remaining() =~= self@);
        it
    }

    proof fn lemma_first(&self)
        requires
            self.wf(),
        ensures
            ({
                let t = self.nodes@[0].next@[0] as int;
                if t == 0 {
                    self.nodes@.len() == 1
                } else {
                    0 < t < self.nodes@.len() && self.pos@[t] == 1
                }
            }),
    {
        self.lemma_next(0);
    }

    /// The bottom-level link of a node leads to the next position.
    proof fn lemma_next(&self, x: int)
        requires
            self.wf(),
            0 <= x < self.nodes@.len(),
        ensures
            height(self.nodes@, x) >= 1,
            ({
                let t = self.nodes@[x].next@[0] as int;
                if t == 0 {
                    self.pos@[x] == self.nodes@.len() - 1
                } else {
                    0 < t < self.nodes@.len() && self.pos@[t] == self.pos@[x] + 1
                }
            }),
    {
        let n = self.nodes@.len() as int;
        let p = self.pos@[x];
        let t = self.nodes@[x].next@[0] as int;
        assert(self.order@[p] == x);
        if x > 0 {
            assert(1 <= height(self.nodes@, x)) by {
                let node = self.nodes@[x];
            }
        }
        assert(link_ok(self.nodes@, self.order@, self.pos@, p, 0));
        if p + 1 < n {
            let y = self.order@[p + 1];
            assert(self.pos@[y] == p + 1);
            assert(1 <= height(self.nodes@, y)) by {
                let node = self.nodes@[y];
            }
            assert(height(self.nodes@, self.order@[p + 1]) >= 1);
            assert(t != 0);
            if self.pos@[t] > p + 1 {
                assert(height(self.nodes@, self.order@[p + 1]) <= 0);
            }
        } else if t != 0 {
            assert(self.pos@[t] < n);
        }
    }
}

/// View of one node.
#[derive(Clone, Copy)]
pub struct NodeRef<'a> {
    list: &'a SkipList,
    index: usize,
}

impl<'a> View for NodeRef<'a> {
    type V = Entry;

    closed spec fn view(&self) -> Entry {
        self.list.entry(self.index as int)
    }
}

impl<'a> NodeRef<'a> {
    #[verifier::type_invariant]
    spec fn inv(self) -> bool {
        &&& self.index < self.list.nodes@.len()
        &&& self.list.arena.holds(self.list.nodes@[self.index as int].key)
        &&& self.list.arena.holds(self.list.nodes@[self.index as int].value)
    }

    /// Sequence number recorded at insertion time.
    pub fn seqno(self) -> (s: u64)
        ensures
            s == self@.seqno,
    {
        proof {
            use_type_invariant(&self);
        }
        self.list.nodes[self.index].seqno
    }

    /// Op type.
    pub fn op_type(self) -> (op: OpType)
        ensures
            op.record_op() == self@.op,
    {
        proof {
            use_type_invariant(&self);
        }
        self.list.nodes[self.index].op
    }

    /// Borrow the key bytes.
    pub fn key(self) -> (k: &'a [u8])
        ensures
            k@ == self@.key,
    {
        proof {
            use_type_invariant(&self);
        }
        self.list.arena.read(self.list.nodes[self.index].key)
    }

    /// Borrow the value bytes (empty for tombstones).
    pub fn value(self) -> (v: &'a [u8])
        ensures
            v@ == self@.value,
    {
        proof {
            use_type_invariant(&self);
        }
        self.list.arena.read(self.list.nodes[self.index].value)
    }
}

/// Forward iterator over the skip list.
pub struct Iter<'a> {
    list: &'a SkipList,
    cur: usize,
}

impl<'a> Iter<'a> {
    /// The iterator stands on a node of its list, or at the end.
    pub closed spec fn wf(&self) -> bool {
        &&& self.list.wf()
        &&& self.cur < self.list.nodes@.len()
    }

    /// The entries still to come.
    pub closed spec fn remaining(&self) -> Seq<Entry> {
        if self.cur == 0 {
            Seq::empty()
        } else {
            self.list@.subrange(self.list.pos@[self.cur as int] - 1, self.list@.len() as int)
        }
    }

    /// Advance to the next entry.
    pub fn next(&mut self) -> (r: Option<NodeRef<'a>>)
        requires
            old(self).wf(),
        ensures
            final(self).wf(),
            old(self).remaining().len() == 0 ==> r is None && final(self).remaining() == old(self).remaining(),
            old(self).remaining().len() > 0 ==> (r matches Some(n) && n@ == old(self).remaining()[0]) && final(self).remaining() == old(self).remaining().subrange(
                1,
                old(self).remaining().len() as int,
            ),
    {
        if self.cur == 0 {
            return None;
        }
        let ghost x = self.cur as int;
        let ghost p = self.list.pos@[x];
        proof {
            assert(self.list.order@[p] == x);
            assert(p != 0);
            self.list.lemma_next(x);
            assert(self.list@[p - 1] == self.list.entry(x));
        }
        let node = self.list.node(self.cur);
        self.cur = self.list.nodes[self.cur].next[0];
        proof {
            assert(self.remaining() =~= old(self).remaining().subrange(
                1,
                old(self).remaining().len() as int,
            ));
        }
        Some(node)
    }
}

/// Predecessor and successor of a place at every level.
struct Neighbours {
    prev: Vec<usize>,
    following: Vec<usize>,
}

impl SkipList {
    /// `prev` holds, level by level, the last node before the place, and
    /// `following` what it links to.
    spec fn found(&self, nb: Neighbours, key: Seq<u8>, seqno: u64) -> bool {
        &&& nb.prev@.len() == MAX_HEIGHT
        &&& nb.following@.len() == MAX_HEIGHT
        &&& self.splits_at(nb.prev@[0] as int, key, seqno)
        &&& forall|l: int|
            #![trigger nb.prev@[l]]
            0 <= l < MAX_HEIGHT ==> last_reaching(
                self.nodes@,
                self.order@,
                self.pos@,
                nb.prev@[l] as int,
                self.pos@[nb.prev@[0] as int],
                l,
            ) && nb.following@[l] == self.nodes@[nb.prev@[l] as int].next@[l]
    }

    /// A stop of the search at level `l`.
    spec fn stopped(&self, x: int, t: int, cur: int, l: int, key: Seq<u8>, seqno: u64) -> bool {
        &&& 0 <= x < self.nodes@.len()
        &&& self.pos@[x] <= self.pos@[cur]
        &&& height(self.nodes@, x) > l
        &&& t == self.nodes@[x].next@[l]
        &&& t != 0 ==> !before(self.entry(t), key, seqno)
    }

    /// Where the search stopped at a level is the last node that reaches it.
    proof fn lemma_last_reaching(&self, x: int, t: int, cur: int, l: int, key: Seq<u8>, seqno: u64)
        requires
            self.wf(),
            0 <= l,
            0 <= cur < self.nodes@.len(),
            self.splits_at(cur, key, seqno),
            self.stopped(x, t, cur, l, key, seqno),
        ensures
            last_reaching(self.nodes@, self.order@, self.pos@, x, self.pos@[cur], l),
    {
        let p = self.pos@[cur];
        assert(self.order@[self.pos@[x]] == x);
        assert(link_ok(self.nodes@, self.order@, self.pos@, self.pos@[x], l));
        if t != 0 {
            assert(self.order@[self.pos@[t]] == t);
            if self.pos@[t] <= p {
                assert(before(self.entry(self.order@[self.pos@[t]]), key, seqno));
            }
        }
    }

    fn find_predecessors(&self, key: &[u8], seqno: u64) -> (nb: Neighbours)
        requires
            self.wf(),
        ensures
            self.found(nb, key@, seqno),
    {
        let mut prev: Vec<usize> = vec![0usize; MAX_HEIGHT];
        let mut following: Vec<usize> = vec![0usize; MAX_HEIGHT];
        let ghost n = self.nodes@.len() as int;
        let mut level: usize = self.max_height;
        let mut cur: usize = 0;
        proof {
            assert forall|l: int|
                #![trigger prev@[l]]
                level <= l < MAX_HEIGHT implies self.stopped(
                prev@[l] as int,
                following@[l] as int,
                cur as int,
                l,
                key@,
                seqno,
            ) by {
                self.lemma_empty_level(l);
            }
        }
        while level > 0
            invariant
                self.wf(),
                n == self.nodes@.len(),
                level <= self.max_height,
                cur < n,
                prev@.len() == MAX_HEIGHT,
                following@.len() == MAX_HEIGHT,
                height(self.nodes@, cur as int) >= level,
                height(self.nodes@, cur as int) >= 1,
                forall|r: int|
                    1 <= r <= self.pos@[cur as int] ==> before(
                        self.entry(#[trigger] self.order@[r]),
                        key@,
                        seqno,
                    ),
                forall|l: int|
                    #![trigger prev@[l]]
                    level <= l < MAX_HEIGHT ==> self.stopped(
                        prev@[l] as int,
                        following@[l] as int,
                        cur as int,
                        l,
                        key@,
                        seqno,
                    ),
                level == 0 ==> prev@[0] == cur,
            decreases level,
        {
            level -= 1;
            let mut going: bool = true;
            let mut next: usize = self.nodes[cur].next[level];
            while going
                invariant
                    self.wf(),
                    n == self.nodes@.len(),
                    level < self.max_height,
                    cur < n,
                    height(self.nodes@, cur as int) > level,
                    next == self.nodes@[cur as int].next@[level as int],
                    prev@.len() == MAX_HEIGHT,
                    following@.len() == MAX_HEIGHT,
                    forall|r: int|
                        1 <= r <= self.pos@[cur as int] ==> before(
                            self.entry(#[trigger] self.order@[r]),
                            key@,
                            seqno,
                        ),
                    forall|l: int|
                        #![trigger prev@[l]]
                        level < l < MAX_HEIGHT ==> self.stopped(
                            prev@[l] as int,
                            following@[l] as int,
                            cur as int,
                            l,
                            key@,
                            seqno,
                        ),
                    !going ==> (next != 0 ==> !before(self.entry(next as int), key@, seqno)),
                decreases n - self.pos@[cur as int] + (if going { 1int } else { 0int }),
            {
                proof {
                    let p = self.pos@[cur as int];
                    assert(self.order@[p] == cur);
                    assert(link_ok(self.nodes@, self.order@, self.pos@, p, level as int));
                }
                if next != 0 && self.is_before(next, key, seqno) {
                    proof {
                        self.lemma_step(cur as int, next as int, key@, seqno);
                    }
                    cur = next;
                    next = self.nodes[cur].next[level];
                } else {
                    going = false;
                }
            }
            prev.set(level, cur);
            following.set(level, next);
        }
        proof {
            assert(self.stopped(
                prev@[0] as int,
                following@[0] as int,
                cur as int,
                0,
                key@,
                seqno,
            ));
            self.lemma_splits(cur as int, key@, seqno);
            assert forall|l: int| #![trigger prev@[l]] 0 <= l < MAX_HEIGHT implies last_reaching(
                self.nodes@,
                self.order@,
                self.pos@,
                prev@[l] as int,
                self.pos@[prev@[0] as int],
                l,
            ) by {
                self.lemma_last_reaching(
                    prev@[l] as int,
                    following@[l] as int,
                    cur as int,
                    l,
                    key@,
                    seqno,
                );
            }
        }
        Neighbours { prev, following }
    }

    /// Above the highest occupied level the head links to nothing.
    proof fn lemma_empty_level(&self, l: int)
        requires
            self.wf(),
            self.max_height <= l < MAX_HEIGHT,
        ensures
            self.nodes@[0].next@[l] == 0,
    {
        assert(link_ok(self.nodes@, self.order@, self.pos@, 0, l));
        let t = self.nodes@[0].next@[l] as int;
        if t != 0 {
            let node = self.nodes@[t];
            assert(height(self.nodes@, t) <= self.max_height);
        }
    }

    fn random_height(&mut self) -> (h: usize)
        ensures
            final(self).rng() == next_rng(old(self).rng()),
            h == height_from(next_rng(old(self).rng()), 1),
            1 <= h <= MAX_HEIGHT,
            *final(self) == (SkipList { rng_state: final(self).rng_state, ..*old(self) }),
    {
        let mut s: u32 = self.rng_state;
        s = s ^ (s << 13u32);
        s = s ^ (s >> 17u32);
        s = s ^ (s << 5u32);
        self.rng_state = s;
        let ghost start = s;
        let mut h: usize = 1;
        while h < MAX_HEIGHT && s % BRANCH == 0
            invariant
                1 <= h <= MAX_HEIGHT,
                height_from(start, 1) == height_from(s, h as nat),
            decreases MAX_HEIGHT - h,
        {
            h += 1;
            s = s.wrapping_mul(0x9E37_79B9);
        }
        h
    }

    /// Put key and value into the arena.
    fn store(&mut self, key: &[u8], value: &[u8], height: usize) -> (r: (Region, Region))
        requires
            old(self).arena.wf(),
            key@.len() + value@.len() + 152 <= usize::MAX,
            height <= MAX_HEIGHT,
        ensures
            final(self).arena.wf(),
            final(self).arena.keeps(old(self).arena),
            final(self).arena.holds(r.0),
            final(self).arena.holds(r.1),
            final(self).arena.at(r.0) == key@,
            final(self).arena.at(r.1) == value@,
            final(self).used() == capped(
                old(self).used() + taken(
                    (NODE_HEADER_SIZE + height * LINK_SIZE + key@.len() + value@.len()) as nat,
                    8,
                ),
            ),
            final(self).nodes == old(self).nodes,
            final(self).max_height == old(self).max_height,
            final(self).rng_state == old(self).rng_state,
            final(self).order == old(self).order,
            final(self).pos == old(self).pos,
    {
        proof {
            reveal_with_fuel(power_of_two, 4);
        }
        let front: usize = NODE_HEADER_SIZE + height * LINK_SIZE;
        let whole: Region = self.arena.allocate(front + key.len() + value.len(), 8);
        let ghost a1 = self.arena;
        proof {
            self.arena.lemma_part(whole, front as int, key@.len() as int);
            self.arena.lemma_part(whole, front + key@.len(), value@.len() as int);
        }
        let k: Region = whole.part(front, key.len());
        let v: Region = whole.part(front + key.len(), value.len());
        self.arena.write(k, key);
        let ghost a2 = self.arena;
        self.arena.write(v, value);
        proof {
            assert forall|o: Region| #[trigger] old(self).arena.holds(o) implies self.arena.holds(o)
                && self.arena.at(o) == old(self).arena.at(o) by {
                assert(a1.holds(o));
                assert(a2.holds(o));
                assert(a2.at(o) == a1.at(o));
            }
            assert(a2.holds(k));
            assert(a2.holds(v));
        }
        (k, v)
    }

    /// Insert a key and value with the given sequence number and op type. A
    /// tombstone keeps no value.
    /// Gives back the node that now holds the entry.
    pub fn insert(&mut self, key: &[u8], value: &[u8], seqno: u64, op: OpType) -> (r: NodeRef<'_>)
        requires
            old(self).wf(),
            key@.len() + value@.len() + 152 <= usize::MAX,
        ensures
            final(self).wf(),
            final(self)@ == inserted(
                old(self)@,
                (Insert { key: key@, value: value@, seqno, op }).entry(),
            ),
            r@ == (Insert { key: key@, value: value@, seqno, op }).entry(),
            final(self).rng() == next_rng(old(self).rng()),
            final(self).used() == capped(
                old(self).used() + taken(
                    (NODE_HEADER_SIZE + height_from(next_rng(old(self).rng()), 1) * LINK_SIZE
                        + key@.len() + (if op == OpType::Put {
                        value@.len()
                    } else {
                        0
                    })) as nat,
                    8,
                ),
            ),
    {
        let h: usize = self.random_height();
        let ghost s0 = *self;
        proof {
            assert(self@ =~= old(self)@);
        }
        let nb: Neighbours = self.find_predecessors(key, seqno);
        let empty: [u8; 0] = [];
        let kept: &[u8] = match op {
            OpType::Put => value,
            OpType::Tombstone => empty.as_slice(),
        };
        assert(op != OpType::Put ==> kept@ =~= Seq::<u8>::empty());
        let (k, v) = self.store(key, kept, h);
        let ghost e = Entry { key: key@, seqno, op: op.record_op(), value: kept@ };
        let i: usize = self.nodes.len();
        let ghost nodes0 = self.nodes@;
        let ghost p = self.pos@[nb.prev@[0] as int];
        let mut next: Vec<usize> = Vec::new();
        let mut l: usize = 0;
        while l < h
            invariant
                l <= h <= MAX_HEIGHT,
                nb.following@.len() == MAX_HEIGHT,
                next@.len() == l,
                forall|j: int| 0 <= j < l ==> next@[j] == nb.following@[j],
            decreases h - l,
        {
            next.push(nb.following[l]);
            l += 1;
        }
        self.nodes.push(Node { key: k, value: v, seqno, op, next });
        assert(self.nodes.len() == i + 1);
        self.link(&nb, i, h, Ghost(nodes0));
        if h > self.max_height {
            self.max_height = h;
        }
        self.order = Ghost(self.order@.insert(p + 1, i as int));
        self.pos = Ghost(moved(self.pos@, p));
        proof {
            s0.lemma_inserted(*self, nodes0, nb, p, h as int, e);
        }
        NodeRef { list: &*self, index: i }
    }

    /// Hang the node `i` behind its predecessors.
    fn link(&mut self, nb: &Neighbours, i: usize, h: usize, nodes0: Ghost<Seq<Node>>)
        requires
            nodes0@.len() == i,
            old(self).nodes@.len() == i + 1,
            nb.prev@.len() == MAX_HEIGHT,
            1 <= h <= MAX_HEIGHT,
            old(self).nodes@[i as int].next@.len() == h,
            forall|x: int| 0 <= x < i ==> #[trigger] old(self).nodes@[x] == nodes0@[x],
            forall|l: int|
                #![trigger nb.prev@[l]]
                0 <= l < h ==> nb.prev@[l] < i && nodes0@[nb.prev@[l] as int].next@.len() > l,
        ensures
            *final(self) == (SkipList { nodes: final(self).nodes, ..*old(self) }),
            final(self).nodes@.len() == i + 1,
            final(self).nodes@[i as int] == old(self).nodes@[i as int],
            forall|x: int|
                #![trigger final(self).nodes@[x]]
                0 <= x < i ==> final(self).nodes@[x].next@.len() == nodes0@[x].next@.len()
                    && final(self).nodes@[x].key == nodes0@[x].key && final(self).nodes@[x].value
                    == nodes0@[x].value && final(self).nodes@[x].seqno == nodes0@[x].seqno
                    && final(self).nodes@[x].op == nodes0@[x].op,
            forall|x: int, l: int|
                #![trigger final(self).nodes@[x].next@[l]]
                0 <= x < i && 0 <= l < nodes0@[x].next@.len() ==> final(self).nodes@[x].next@[l]
                    == (if l < h && x == nb.prev@[l] {
                    i
                } else {
                    nodes0@[x].next@[l]
                }),
    {
        let ghost s0 = *self;
        let mut level: usize = 0;
        while level < h
            invariant
                level <= h <= MAX_HEIGHT,
                s0 == *old(self),
                *self == (SkipList { nodes: self.nodes, ..s0 }),
                nodes0@.len() == i,
                self.nodes@.len() == i + 1,
                nb.prev@.len() == MAX_HEIGHT,
                self.nodes@[i as int] == s0.nodes@[i as int],
                forall|l: int|
                    #![trigger nb.prev@[l]]
                    0 <= l < h ==> nb.prev@[l] < i && nodes0@[nb.prev@[l] as int].next@.len() > l,
                forall|x: int|
                    #![trigger self.nodes@[x]]
                    0 <= x < i ==> self.nodes@[x].next@.len() == nodes0@[x].next@.len()
                        && self.nodes@[x].key == nodes0@[x].key && self.nodes@[x].value
                        == nodes0@[x].value && self.nodes@[x].seqno == nodes0@[x].seqno
                        && self.nodes@[x].op == nodes0@[x].op,
                forall|x: int, l: int|
                    #![trigger self.nodes@[x].next@[l]]
                    0 <= x < i && 0 <= l < nodes0@[x].next@.len() ==> self.nodes@[x].next@[l] == (
                    if l < level && x == nb.prev@[l] {
                        i
                    } else {
                        nodes0@[x].next@[l]
                    }),
            decreases h - level,
        {
            let y: usize = nb.prev[level];
            let ghost before_nodes = self.nodes@;
            self.nodes[y].next.set(level, i);
            proof {
                assert forall|x: int| 0 <= x < i && x != y implies #[trigger] self.nodes@[x]
                    == before_nodes[x] by {}
            }
            level += 1;
        }
    }

    /// What the list is after a node was put in.
    proof fn lemma_inserted(
        self,
        after: SkipList,
        nodes0: Seq<Node>,
        nb: Neighbours,
        p: int,
        h: int,
        e: Entry,
    )
        requires
            self.wf(),
            nodes0 == self.nodes@,
            nodes0.len() < usize::MAX,
            self.found(nb, e.key, e.seqno),
            p == self.pos@[nb.prev@[0] as int],
            1 <= h <= MAX_HEIGHT,
            after.arena.wf(),
            after.arena.keeps(self.arena),
            spliced(nodes0, after.nodes@, nb.prev@, h),
            node_entry(&after.arena, after.nodes@[nodes0.len() as int]) == e,
            after.arena.holds(after.nodes@[nodes0.len() as int].key),
            after.arena.holds(after.nodes@[nodes0.len() as int].value),
            forall|x: int|
                #![trigger after.nodes@[x]]
                0 <= x < nodes0.len() ==> after.nodes@[x].key == nodes0[x].key
                    && after.nodes@[x].value == nodes0[x].value && after.nodes@[x].seqno
                    == nodes0[x].seqno && after.nodes@[x].op == nodes0[x].op,
            after.max_height == (if h > self.max_height { h } else { self.max_height as int }),
            after.order@ == self.order@.insert(p + 1, nodes0.len() as int),
            after.pos@ == moved(self.pos@, p),
        ensures
            after.wf(),
            after@ == inserted(self@, e),
    {
        let n = nodes0.len() as int;
        assert(0 <= p < n);
        lemma_listed_insert(nodes0, after.nodes@, self.order@, self.pos@, p);
        lemma_links_insert(nodes0, after.nodes@, self.order@, self.pos@, nb.prev@, p, h);
        assert(stored(&after.arena, after.nodes@)) by {
            assert forall|x: int| #![trigger after.nodes@[x]] 1 <= x < after.nodes@.len() implies after.arena.holds(
            after.nodes@[x].key) && after.arena.holds(after.nodes@[x].value) by {
                if x < n {
                    assert(self.arena.holds(nodes0[x].key));
                    assert(self.arena.holds(nodes0[x].value));
                }
            }
        }
        assert(heights_ok(after.nodes@, after.max_height as int)) by {
            assert forall|x: int| #![trigger after.nodes@[x]] 1 <= x < after.nodes@.len() implies 1
                <= height(after.nodes@, x) <= after.max_height by {
                if x < n {
                    assert(height(nodes0, x) == height(after.nodes@, x));
                    assert(1 <= height(nodes0, x) <= self.max_height) by {
                        let node = nodes0[x];
                    }
                }
            }
            assert(after.nodes@[0].next@.len() == nodes0[0].next@.len());
        }
        assert forall|x: int| 1 <= x < n implies after.entry(x) == #[trigger] self.entry(x) by {
            assert(self.arena.holds(nodes0[x].key));
            assert(self.arena.holds(nodes0[x].value));
            assert(after.nodes@[x].key == nodes0[x].key);
        }
        assert(after@ =~= self@.insert(p, e)) by {
            assert forall|q: int| 0 <= q < after@.len() implies #[trigger] after@[q] == self@.insert(
                p,
                e,
            )[q] by {
                if q < p {
                    assert(after.order@[q + 1] == self.order@[q + 1]);
                    assert(self.pos@[self.order@[q + 1]] == q + 1);
                    assert(self.order@[q + 1] != 0);
                    assert(self@[q] == self.entry(self.order@[q + 1]));
                } else if q == p {
                    assert(after.order@[p + 1] == n);
                } else {
                    assert(after.order@[q + 1] == self.order@[q]);
                    assert(self.pos@[self.order@[q]] == q);
                    assert(self.order@[q] != 0);
                    assert(self@[q - 1] == self.entry(self.order@[q]));
                }
            }
        }
        assert forall|r: int| 0 <= r < p implies before(
            #[trigger] self@[r],
            e.key,
            e.seqno,
        ) by {
            assert(before(self.entry(self.order@[r + 1]), e.key, e.seqno));
        }
        if p < self@.len() {
            assert(!before(self.entry(self.order@[p + 1]), e.key, e.seqno));
            assert(self@[p] == self.entry(self.order@[p + 1]));
        }
        lemma_slot(self@, e.key, e.seqno, p);
        law_insert_keeps_order(self@, e);
    }
}

impl Default for SkipList {
    fn default() -> (s: SkipList)
        ensures
            s.wf(),
            s@ == Seq::<Entry>::empty(),
    {
        SkipList::new()
    }
}

} // verus!
