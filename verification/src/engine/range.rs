//! Ordered range scans.
//!
//! A scan merges all layers, keeps of every key the newest version that its
//! snapshot may see, and passes over keys whose newest version is a tombstone.
use vstd::prelude::*;
use vstd::slice::slice_to_vec;

use crate::compaction::compact::clean;
use crate::compaction::merger::{
    all_sorted, comes_first, fault_due, law_merge_answers, law_merge_is_sorted, least, lemma_clean,
    lemma_least, lemma_no_front, lemma_total_less, merged, runs_of, stored_bytes, tail, total, without_head, KWayMerge,
    RecordStream,
};
use crate::encoding::order::{
    compare_bytes, lemma_lex_asymmetric, lemma_lex_irreflexive, lemma_lex_total,
    lemma_lex_transitive, lex_lt, Order,
};
use crate::engine::db::{memtable_layers, table_layers, Db};
use crate::engine::history::lemma_answer_is_entry;
use crate::engine::state::{EngineState, Snapshot};
use crate::error::Result;
use crate::io::vfs::{is_open, Vfs, VfsFile};
use crate::memtable::skiplist::{Iter, NodeRef};
use crate::model::{
    entry_le, lemma_lookup_concat, lemma_lookup_first, lemma_lookup_none, live_value, lookup,
    sorted, Entry,
};
use crate::sstable::format::RecordOp;
use crate::sstable::reader::{record_entry, LookupHit, SstStream};
use crate::sstable::table::{failed_io, failed_with, flat, Fault};

verus! {

/// One end of a range of keys.
#[derive(Debug, Clone, Copy)]
pub enum KeyBound<'a> {
    /// No limit.
    Unbounded,
    /// Up to and with this key.
    Included(&'a [u8]),
    /// Up to but without this key.
    Excluded(&'a [u8]),
}

/// One end of a range, over mathematical byte strings.
#[verifier::ext_equal]
pub enum BoundView {
    /// See [`KeyBound::Unbounded`].
    Unbounded,
    /// See [`KeyBound::Included`].
    Included(Seq<u8>),
    /// See [`KeyBound::Excluded`].
    Excluded(Seq<u8>),
}

impl<'a> View for KeyBound<'a> {
    type V = BoundView;

    open spec fn view(&self) -> BoundView {
        match self {
            KeyBound::Unbounded => BoundView::Unbounded,
            KeyBound::Included(k) => BoundView::Included(k@),
            KeyBound::Excluded(k) => BoundView::Excluded(k@),
        }
    }
}

/// `key` lies before the lower end of the range.
pub open spec fn below(start: BoundView, key: Seq<u8>) -> bool {
    match start {
        BoundView::Unbounded => false,
        BoundView::Included(k) => lex_lt(key, k),
        BoundView::Excluded(k) => lex_lt(key, k) || key == k,
    }
}

/// `key` lies behind the upper end of the range.
pub open spec fn beyond(end: BoundView, key: Seq<u8>) -> bool {
    match end {
        BoundView::Unbounded => false,
        BoundView::Included(k) => lex_lt(k, key),
        BoundView::Excluded(k) => lex_lt(k, key) || key == k,
    }
}

/// `key` lies in the range.
pub open spec fn in_range(start: BoundView, end: BoundView, key: Seq<u8>) -> bool {
    !below(start, key) && !beyond(end, key)
}

/// What a scan selects from merged entries: of every key the first version
/// that the snapshot may see, if it is a put, and nothing once a key is beyond
/// the range. `decided` is the key that has been dealt with last.
pub open spec fn selected(
    all: Seq<Entry>,
    start: BoundView,
    end: BoundView,
    snapshot: u64,
    decided: Option<Seq<u8>>,
) -> Seq<Entry>
    decreases all.len(),
{
    if all.len() == 0 {
        Seq::empty()
    } else {
        let e = all[0];
        let rest = all.subrange(1, all.len() as int);
        if beyond(end, e.key) {
            Seq::empty()
        } else if e.seqno > snapshot || decided == Some(e.key) {
            selected(rest, start, end, snapshot, decided)
        } else if below(start, e.key) || e.op != RecordOp::Put {
            selected(rest, start, end, snapshot, Some(e.key))
        } else {
            seq![e] + selected(rest, start, end, snapshot, Some(e.key))
        }
    }
}

/// What a scan over sources gives: the records it reaches, and the fault that
/// ends it, if one does. `decided` is the key that has been dealt with last.
pub open spec fn scanned(
    queues: Seq<(Seq<Entry>, Option<Fault>)>,
    start: BoundView,
    end: BoundView,
    snapshot: u64,
    decided: Option<Seq<u8>>,
) -> (Seq<Entry>, Option<Fault>)
    decreases total(runs_of(queues)),
{
    let i = least(runs_of(queues), queues.len() as int);
    if fault_due(queues) is Some {
        (Seq::empty(), fault_due(queues))
    } else if i < 0 {
        (Seq::empty(), None)
    } else {
        let e = queues[i].0[0];
        let next = queues.update(i, (tail(queues[i].0), queues[i].1));
        proof {
            lemma_least(runs_of(queues), queues.len() as int);
            lemma_total_less(runs_of(queues), i);
            assert(runs_of(next) =~= without_head(runs_of(queues), i));
        }
        if beyond(end, e.key) {
            (Seq::empty(), None)
        } else if e.seqno > snapshot || decided == Some(e.key) {
            scanned(next, start, end, snapshot, decided)
        } else if below(start, e.key) || e.op != RecordOp::Put {
            scanned(next, start, end, snapshot, Some(e.key))
        } else {
            let rest = scanned(next, start, end, snapshot, Some(e.key));
            (seq![e] + rest.0, rest.1)
        }
    }
}

/// Where no source has a fault, a scan gives what it selects from the merge.
proof fn lemma_scanned_clean(
    queues: Seq<(Seq<Entry>, Option<Fault>)>,
    start: BoundView,
    end: BoundView,
    snapshot: u64,
    decided: Option<Seq<u8>>,
)
    requires
        clean(queues),
    ensures
        scanned(queues, start, end, snapshot, decided) == (
            selected(merged(runs_of(queues)), start, end, snapshot, decided),
            None::<Fault>,
        ),
    decreases total(runs_of(queues)),
{
    let runs = runs_of(queues);
    let all = merged(runs);
    let i = least(runs, runs.len() as int);
    lemma_clean(queues, queues.len() as int);
    lemma_least(runs, runs.len() as int);
    if i >= 0 {
        let e = queues[i].0[0];
        let next = queues.update(i, (tail(queues[i].0), queues[i].1));
        lemma_total_less(runs, i);
        assert(runs_of(next) =~= without_head(runs, i));
        assert(all.subrange(1, all.len() as int) =~= merged(runs_of(next)));
        assert forall|j: int| 0 <= j < next.len() implies (#[trigger] next[j]).1 is None by {
            assert(queues[j].1 is None);
        }
        lemma_scanned_clean(next, start, end, snapshot, decided);
        lemma_scanned_clean(next, start, end, snapshot, Some(e.key));
    }
}

/// `items` is what the range holds at the snapshot: every key in it with a
/// live value, with the entry that a lookup answers, in ascending order.
pub open spec fn is_range_of(
    items: Seq<Entry>,
    log: Seq<Entry>,
    start: BoundView,
    end: BoundView,
    snapshot: u64,
) -> bool {
    &&& forall|i: int, j: int|
        #![trigger items[i], items[j]]
        0 <= i < j < items.len() ==> lex_lt(items[i].key, items[j].key)
    &&& forall|i: int|
        #![trigger items[i]]
        0 <= i < items.len() ==> in_range(start, end, items[i].key) && items[i].op == RecordOp::Put
            && lookup(log, items[i].key, snapshot) == Some(items[i])
    &&& forall|key: Seq<u8>|
        #![trigger lookup(log, key, snapshot)]
        in_range(start, end, key) && (lookup(log, key, snapshot) matches Some(e) && e.op
            == RecordOp::Put) ==> items.contains(lookup(log, key, snapshot)->Some_0)
}

/// What is beyond the range stays so for greater keys.
proof fn lemma_beyond_up(end: BoundView, a: Seq<u8>, b: Seq<u8>)
    requires
        beyond(end, a),
        lex_lt(a, b) || a == b,
    ensures
        beyond(end, b),
{
    match end {
        BoundView::Unbounded => {},
        BoundView::Included(k) => {
            if lex_lt(a, b) {
                lemma_lex_transitive(k, a, b);
            }
        },
        BoundView::Excluded(k) => {
            if lex_lt(a, b) && lex_lt(k, a) {
                lemma_lex_transitive(k, a, b);
            }
        },
    }
}

/// What a scan selects from sorted entries.
#[verifier::rlimit(60)]
proof fn lemma_selected(
    all: Seq<Entry>,
    start: BoundView,
    end: BoundView,
    snapshot: u64,
    decided: Option<Seq<u8>>,
)
    requires
        sorted(all),
        decided matches Some(k) ==> forall|i: int|
            #![trigger all[i]]
            0 <= i < all.len() ==> lex_lt(k, all[i].key) || all[i].key == k,
    ensures
        ({
            let items = selected(all, start, end, snapshot, decided);
            &&& forall|i: int, j: int|
                #![trigger items[i], items[j]]
                0 <= i < j < items.len() ==> lex_lt(items[i].key, items[j].key)
            &&& forall|i: int|
                #![trigger items[i]]
                0 <= i < items.len() ==> in_range(start, end, items[i].key) && items[i].op
                    == RecordOp::Put && lookup(all, items[i].key, snapshot) == Some(items[i])
                    && decided != Some(items[i].key)
            &&& forall|key: Seq<u8>|
                #![trigger lookup(all, key, snapshot)]
                in_range(start, end, key) && decided != Some(key) && (lookup(
                    all,
                    key,
                    snapshot,
                ) matches Some(e) && e.op == RecordOp::Put) ==> items.contains(
                    lookup(all, key, snapshot)->Some_0,
                )
        }),
    decreases all.len(),
{
    let items = selected(all, start, end, snapshot, decided);
    if all.len() > 0 {
        let e = all[0];
        let rest = all.subrange(1, all.len() as int);
        assert(all =~= seq![e] + rest);
        assert(seq![e][0] == e);
        assert(sorted(rest)) by {
            assert forall|i: int, j: int|
                #![trigger rest[i], rest[j]]
                0 <= i < j < rest.len() implies entry_le(rest[i], rest[j]) by {
                assert(rest[i] == all[i + 1]);
                assert(rest[j] == all[j + 1]);
            }
        }
        assert forall|i: int| #![trigger rest[i]] 0 <= i < rest.len() implies lex_lt(
            e.key,
            rest[i].key,
        ) || rest[i].key == e.key by {
            assert(rest[i] == all[i + 1]);
            assert(entry_le(all[0], all[i + 1]));
        }
        if beyond(end, e.key) {
            assert forall|key: Seq<u8>|
                #![trigger lookup(all, key, snapshot)]
                in_range(start, end, key) && decided != Some(key) && (lookup(
                    all,
                    key,
                    snapshot,
                ) matches Some(x) && x.op == RecordOp::Put) implies items.contains(
                lookup(all, key, snapshot)->Some_0,
            ) by {
                lemma_answer_is_entry(all, key, snapshot);
                let x = lookup(all, key, snapshot)->Some_0;
                let k = choose|k: int| 0 <= k < all.len() && all[k] == x;
                if k > 0 {
                    assert(all[k] == rest[k - 1]);
                }
                lemma_beyond_up(end, e.key, key);
            }
        } else {
            let passes = e.seqno > snapshot || decided == Some(e.key);
            let next = if passes {
                decided
            } else {
                Some(e.key)
            };
            if passes {
                assert forall|i: int| #![trigger rest[i]] 0 <= i < rest.len() && decided is Some implies lex_lt(
                    decided->Some_0,
                    rest[i].key,
                ) || rest[i].key == decided->Some_0 by {
                    assert(rest[i] == all[i + 1]);
                }
            }
            lemma_selected(rest, start, end, snapshot, next);
            let more = selected(rest, start, end, snapshot, next);
            // Lookups of other keys pass over the first entry.
            assert forall|key: Seq<u8>|
                #![trigger lookup(rest, key, snapshot)]
                #![trigger lookup(all, key, snapshot)]
                (key != e.key || e.seqno > snapshot) implies lookup(all, key, snapshot) == lookup(
                rest,
                key,
                snapshot,
            ) by {
                lemma_lookup_concat(seq![e], rest, key, snapshot);
                lemma_lookup_none(seq![e], key, snapshot);
            }
            let taken = !passes && !below(start, e.key) && e.op == RecordOp::Put;
            assert(items == (if taken {
                seq![e] + more
            } else {
                more
            }));
            if !passes {
                lemma_lookup_concat(seq![e], rest, e.key, snapshot);
                lemma_lookup_first(seq![e], e.key, snapshot, 0);
            }
            assert forall|i: int| #![trigger more[i]] 0 <= i < more.len() implies lookup(
                all,
                more[i].key,
                snapshot,
            ) == Some(more[i]) && decided != Some(more[i].key) && (!passes ==> lex_lt(
                e.key,
                more[i].key,
            )) by {
                lemma_answer_is_entry(rest, more[i].key, snapshot);
                let k = choose|k: int| 0 <= k < rest.len() && rest[k] == more[i];
                assert(rest[k] == all[k + 1]);
                if passes && decided == Some(e.key) {
                    assert(more[i].key != e.key);
                }
                if !passes && decided is Some {
                    let d = decided->Some_0;
                    assert(lex_lt(d, all[0].key));
                    lemma_lex_transitive(d, e.key, more[i].key);
                    lemma_lex_irreflexive(d);
                }
            }
            assert forall|i: int, j: int|
                #![trigger items[i], items[j]]
                0 <= i < j < items.len() implies lex_lt(items[i].key, items[j].key) by {
                if taken {
                    if i == 0 {
                        assert(items[j] == more[j - 1]);
                    } else {
                        assert(items[i] == more[i - 1]);
                        assert(items[j] == more[j - 1]);
                    }
                }
            }
            assert forall|i: int|
                #![trigger items[i]]
                0 <= i < items.len() implies in_range(start, end, items[i].key) && items[i].op
                == RecordOp::Put && lookup(all, items[i].key, snapshot) == Some(items[i])
                && decided != Some(items[i].key) by {
                if taken {
                    if i > 0 {
                        assert(items[i] == more[i - 1]);
                    }
                } else {
                    assert(items[i] == more[i]);
                }
            }
            assert forall|key: Seq<u8>|
                #![trigger lookup(all, key, snapshot)]
                in_range(start, end, key) && decided != Some(key) && (lookup(
                    all,
                    key,
                    snapshot,
                ) matches Some(x) && x.op == RecordOp::Put) implies items.contains(
                lookup(all, key, snapshot)->Some_0,
            ) by {
                let x = lookup(all, key, snapshot)->Some_0;
                if !passes && key == e.key {
                    assert(taken);
                    assert(items[0] == e);
                } else {
                    assert(lookup(rest, key, snapshot) == Some(x));
                    assert(more.contains(x));
                    let k = choose|k: int| 0 <= k < more.len() && more[k] == x;
                    if taken {
                        assert(items[k + 1] == x);
                    } else {
                        assert(items[k] == x);
                    }
                }
            }
        }
    }
}

/// Law: a scan over sorted entries gives exactly what the range holds at the
/// snapshot.
pub proof fn law_scan_is_the_range(
    all: Seq<Entry>,
    start: BoundView,
    end: BoundView,
    snapshot: u64,
)
    requires
        sorted(all),
    ensures
        is_range_of(selected(all, start, end, snapshot, None), all, start, end, snapshot),
{
    lemma_selected(all, start, end, snapshot, None);
}

/// `key` is not before the lower end, nor behind the upper one.
pub open spec fn between(start: BoundView, end: BoundView, key: Seq<u8>) -> bool {
    &&& match start {
        BoundView::Unbounded => true,
        BoundView::Included(k) => k == key || lex_lt(k, key),
        BoundView::Excluded(k) => lex_lt(k, key),
    }
    &&& match end {
        BoundView::Unbounded => true,
        BoundView::Included(k) => k == key || lex_lt(key, k),
        BoundView::Excluded(k) => lex_lt(key, k),
    }
}

/// Law: what a range gives are the keys between its ends that have a value at the
/// snapshot, each of them once, with that value, in ascending order; and no other.
pub proof fn law_range_gives_every_live_key(
    items: Seq<Entry>,
    log: Seq<Entry>,
    start: BoundView,
    end: BoundView,
    snapshot: u64,
    key: Seq<u8>,
)
    requires
        is_range_of(items, log, start, end, snapshot),
    ensures
        (exists|i: int| 0 <= i < items.len() && (#[trigger] items[i]).key == key) <==> (between(
            start,
            end,
            key,
        ) && live_value(lookup(log, key, snapshot)) is Some),
        forall|i: int|
            #![trigger items[i]]
            0 <= i < items.len() && items[i].key == key ==> live_value(lookup(log, key, snapshot))
                == Some(items[i].value),
        forall|i: int, j: int|
            #![trigger items[i], items[j]]
            0 <= i < j < items.len() ==> lex_lt(items[i].key, items[j].key) && items[i].key
                != items[j].key,
{
    match start {
        BoundView::Unbounded => {},
        BoundView::Included(k) => {
            lemma_lex_total(k, key);
            lemma_lex_irreflexive(k);
            if lex_lt(k, key) {
                lemma_lex_asymmetric(k, key);
            }
        },
        BoundView::Excluded(k) => {
            lemma_lex_total(k, key);
            lemma_lex_irreflexive(k);
            if lex_lt(k, key) {
                lemma_lex_asymmetric(k, key);
            }
        },
    }
    match end {
        BoundView::Unbounded => {},
        BoundView::Included(k) => {
            lemma_lex_total(k, key);
            lemma_lex_irreflexive(k);
            if lex_lt(k, key) {
                lemma_lex_asymmetric(k, key);
            }
        },
        BoundView::Excluded(k) => {
            lemma_lex_total(k, key);
            lemma_lex_irreflexive(k);
            if lex_lt(k, key) {
                lemma_lex_asymmetric(k, key);
            }
        },
    }
    assert(in_range(start, end, key) == between(start, end, key));
    if between(start, end, key) && live_value(lookup(log, key, snapshot)) is Some {
        let e = lookup(log, key, snapshot)->Some_0;
        assert(items.contains(e));
        lemma_answer_is_entry(log, key, snapshot);
        let i = choose|i: int| 0 <= i < items.len() && items[i] == e;
        assert(items[i].key == key);
    }
    assert forall|i: int, j: int|
        #![trigger items[i], items[j]]
        0 <= i < j < items.len() implies lex_lt(items[i].key, items[j].key) && items[i].key
        != items[j].key by {
        lemma_lex_irreflexive(items[i].key);
    }
}

/// Law: a scan never passes over a fault. It ends without one only if every
/// source that has one holds a key behind the upper end before it.
pub proof fn law_scan_meets_source_fault(
    queues: Seq<(Seq<Entry>, Option<Fault>)>,
    start: BoundView,
    end: BoundView,
    snapshot: u64,
    decided: Option<Seq<u8>>,
    j: int,
)
    requires
        0 <= j < queues.len(),
        queues[j].1 is Some,
        forall|k: int|
            0 <= k < queues[j].0.len() ==> match end {
                BoundView::Unbounded => true,
                BoundView::Included(b) => (#[trigger] queues[j].0[k]).key == b || lex_lt(
                    queues[j].0[k].key,
                    b,
                ),
                BoundView::Excluded(b) => lex_lt(queues[j].0[k].key, b),
            },
        all_sorted(runs_of(queues)),
    ensures
        scanned(queues, start, end, snapshot, decided).1 is Some,
    decreases total(runs_of(queues)),
{
    let runs = runs_of(queues);
    let n = queues.len() as int;
    let i = least(runs, n);
    lemma_least(runs, n);
    if fault_due(queues) is None {
        lemma_no_front(queues, n);
        assert(runs[j] == queues[j].0);
        assert(runs[j].len() > 0);
        let e = queues[i].0[0];
        let mine = queues[j].0[0];
        assert(runs[i] == queues[i].0);
        assert(!beyond(end, e.key)) by {
            assert(!comes_first(mine, e));
            lemma_lex_total(mine.key, e.key);
            lemma_lex_irreflexive(mine.key);
            if beyond(end, e.key) {
                if lex_lt(e.key, mine.key) {
                    lemma_beyond_up(end, e.key, mine.key);
                }
                match end {
                    BoundView::Unbounded => {},
                    BoundView::Included(b) => {
                        lemma_lex_irreflexive(b);
                        if lex_lt(b, mine.key) {
                            lemma_lex_asymmetric(b, mine.key);
                        }
                    },
                    BoundView::Excluded(b) => {
                        lemma_lex_irreflexive(b);
                        if lex_lt(b, mine.key) {
                            lemma_lex_asymmetric(b, mine.key);
                        }
                    },
                }
            }
        }
        let next = queues.update(i, (tail(queues[i].0), queues[i].1));
        lemma_total_less(runs, i);
        assert(runs_of(next) =~= without_head(runs, i));
        assert(all_sorted(runs_of(next))) by {
            assert forall|m: int| 0 <= m < next.len() implies sorted(
                #[trigger] runs_of(next)[m],
            ) by {
                assert(sorted(runs[m]));
                if m == i {
                    crate::model::lemma_sorted_subrange(runs[i], 1, runs[i].len() as int);
                }
            }
        }
        assert forall|k: int| 0 <= k < next[j].0.len() implies match end {
            BoundView::Unbounded => true,
            BoundView::Included(b) => (#[trigger] next[j].0[k]).key == b || lex_lt(
                next[j].0[k].key,
                b,
            ),
            BoundView::Excluded(b) => lex_lt(next[j].0[k].key, b),
        } by {
            if j == i {
                assert(next[j].0[k] == queues[j].0[k + 1]);
            } else {
                assert(next[j].0[k] == queues[j].0[k]);
            }
        }
        law_scan_meets_source_fault(next, start, end, snapshot, decided, j);
        law_scan_meets_source_fault(next, start, end, snapshot, Some(e.key), j);
    }
}

// ----- Layers as streams -----

/// A layer of the engine as a stream of records.
pub enum LayerStream<'a, F: VfsFile> {
    /// A memtable.
    Memtable(Iter<'a>),
    /// A table.
    Table(SstStream<'a, F>),
}

impl<'a, F: VfsFile> RecordStream for LayerStream<'a, F> {
    type Fs = F::Fs;

    open spec fn rest(&self, fs: &F::Fs) -> (Seq<Entry>, Option<Fault>) {
        match self {
            LayerStream::Memtable(it) => (it.remaining(), None),
            LayerStream::Table(s) => s.rest(fs),
        }
    }

    open spec fn ready(&self, fs: &F::Fs) -> bool {
        match self {
            LayerStream::Memtable(it) => it.wf(),
            LayerStream::Table(s) => is_open(&s.source().handle(), fs),
        }
    }

    open spec fn reliable(fs: &F::Fs) -> bool {
        F::fs_reliable(fs)
    }

    open spec fn origin(&self) -> int {
        match self {
            LayerStream::Memtable(it) => 0,
            LayerStream::Table(s) => s.source().handle().id(),
        }
    }

    open spec fn stored(fs: &F::Fs, id: int) -> Option<Seq<u8>> {
        stored_bytes(F::fs_state(fs), id)
    }

    proof fn lemma_rests_on_origin(&self, a: &F::Fs, b: &F::Fs) {
        match self {
            LayerStream::Memtable(it) => {},
            LayerStream::Table(s) => {
                s.lemma_rest_same(a, b);
            },
        }
    }

    fn next_record(&mut self, fs: &F::Fs) -> (r: Result<Option<(Vec<u8>, LookupHit)>>) {
        match self {
            LayerStream::Memtable(it) => match it.next() {
                None => Ok(None),
                Some(node) => Ok(Some(node_record(node))),
            },
            LayerStream::Table(s) => s.next_record(fs),
        }
    }
}

/// The record of a memtable node.
fn node_record(node: NodeRef<'_>) -> (r: (Vec<u8>, LookupHit))
    ensures
        record_entry(r) == node@,
{
    let hit = LookupHit {
        seqno: node.seqno(),
        op: node.op_type().to_record_op(),
        value: slice_to_vec(node.value()),
    };
    let r = (slice_to_vec(node.key()), hit);
    assert(record_entry(r) =~= node@);
    r
}

// ----- The iterator -----

/// One live key of a range.
#[derive(Debug, Clone)]
pub struct RangeRecord {
    /// Key bytes.
    pub key: Vec<u8>,
    /// Value bytes.
    pub value: Vec<u8>,
    /// Sequence number of the write.
    pub seqno: u64,
}

/// The entry that a range record stands for.
pub open spec fn range_entry(r: RangeRecord) -> Entry {
    Entry { key: r.key@, seqno: r.seqno, op: RecordOp::Put, value: r.value@ }
}

/// A scan that is under way. It holds the engine as it is: nothing is written
/// meanwhile.
pub struct RangeIter<'a, V: Vfs> {
    vfs: &'a V,
    merge: KWayMerge<LayerStream<'a, V::File>>,
    start: KeyBound<'a>,
    end: KeyBound<'a>,
    snapshot: u64,
    decided: Option<Vec<u8>>,
    done: bool,
}

impl<'a, V: Vfs> RangeIter<'a, V> {
    /// The layers can be read from.
    pub closed spec fn wf(&self) -> bool {
        !self.done ==> self.merge.wf(self.vfs)
    }

    /// The file system does what it is asked.
    pub closed spec fn reliable(&self) -> bool {
        V::File::fs_reliable(self.vfs)
    }

    /// What is still to come: the records, and the fault that ends the scan
    /// behind them, if one does.
    pub closed spec fn rest(&self) -> (Seq<Entry>, Option<Fault>) {
        if self.done {
            (Seq::empty(), None)
        } else {
            scanned(
                self.merge.queues(self.vfs),
                self.start@,
                self.end@,
                self.snapshot,
                match self.decided {
                    Some(k) => Some(k@),
                    None => None,
                },
            )
        }
    }

    /// Advance to the next live key, or `Ok(None)` at the end of the range.
    #[verifier::rlimit(60)]
    pub fn next(&mut self) -> (r: Result<Option<RangeRecord>>)
        requires
            old(self).wf(),
        ensures
            final(self).reliable() == old(self).reliable(),
            r is Ok ==> final(self).wf(),
            range_step(old(self).rest(), r, final(self).rest(), old(self).reliable()),
    {
        let ghost goal = self.rest();
        while !self.done
            invariant
                self.wf(),
                self.vfs == old(self).vfs,
                self.rest() == goal,
                goal == old(self).rest(),
            decreases
                    (if self.done {
                        0nat
                    } else {
                        merged(runs_of(self.merge.queues(self.vfs))).len() + 1
                    }),
        {
            let ghost queues = self.merge.queues(self.vfs);
            let ghost all = merged(runs_of(queues));
            proof {
                lemma_least(runs_of(queues), queues.len() as int);
            }
            let pulled = self.merge.next_record(self.vfs);
            let (key, hit): (Vec<u8>, LookupHit) = match pulled {
                Err(e) => {
                    return Err(e);
                },
                Ok(None) => {
                    self.done = true;
                    return Ok(None);
                },
                Ok(Some(p)) => p,
            };
            let ghost e = all[0];
            assert(record_entry((key, hit)) == e);
            if is_beyond(self.end, key.as_slice()) {
                self.done = true;
                return Ok(None);
            }
            if hit.seqno > self.snapshot {
                continue ;
            }
            let dealt_with: bool = match &self.decided {
                Some(k) => match compare_bytes(k.as_slice(), key.as_slice()) {
                    Order::Equal => true,
                    _ => false,
                },
                None => false,
            };
            if dealt_with {
                continue ;
            }
            let skipped: bool = match hit.op {
                RecordOp::Put => is_below(self.start, key.as_slice()),
                RecordOp::Tombstone => true,
            };
            self.decided = Some(slice_to_vec(key.as_slice()));
            if !skipped {
                proof {
                    assert(goal.0 =~= seq![e] + self.rest().0);
                    assert(goal.0.subrange(1, goal.0.len() as int) =~= self.rest().0);
                }
                return Ok(Some(RangeRecord { key, value: hit.value, seqno: hit.seqno }));
            }
        }
        Ok(None)
    }
}

/// What one step of a scan does: it gives the first record that is to come,
/// ends where none is, and fails where a fault stands next.
pub open spec fn range_step(
    before: (Seq<Entry>, Option<Fault>),
    r: Result<Option<RangeRecord>>,
    after: (Seq<Entry>, Option<Fault>),
    reliable: bool,
) -> bool {
    if before.0.len() > 0 {
        ||| (r matches Ok(Some(rec)) && range_entry(rec) == before.0[0] && after == (
            before.0.subrange(1, before.0.len() as int),
            before.1,
        ))
        ||| failed_io(r, reliable)
    } else {
        match before.1 {
            Some(f) => failed_with(r, f, reliable),
            None => (r matches Ok(x) && x is None && after == before) || failed_io(r, reliable),
        }
    }
}

/// Whether `key` lies before the lower end.
fn is_below(start: KeyBound<'_>, key: &[u8]) -> (r: bool)
    ensures
        r == below(start@, key@),
{
    match start {
        KeyBound::Unbounded => false,
        KeyBound::Included(k) => match compare_bytes(key, k) {
            Order::Less => true,
            _ => false,
        },
        KeyBound::Excluded(k) => match compare_bytes(key, k) {
            Order::Greater => false,
            _ => true,
        },
    }
}

/// Whether `key` lies behind the upper end.
fn is_beyond(end: KeyBound<'_>, key: &[u8]) -> (r: bool)
    ensures
        r == beyond(end@, key@),
{
    match end {
        KeyBound::Unbounded => false,
        KeyBound::Included(k) => match compare_bytes(key, k) {
            Order::Greater => true,
            _ => false,
        },
        KeyBound::Excluded(k) => match compare_bytes(key, k) {
            Order::Less => false,
            _ => true,
        },
    }
}

// ----- Scanning the engine -----

/// What streaming each layer gives, newest first: a memtable its entries, a
/// table its records up to the first fault.
pub open spec fn layer_queues<V: Vfs>(state: EngineState<V>, vfs: &V) -> Seq<
    (Seq<Entry>, Option<Fault>),
> {
    let mem = memtable_layers(state);
    Seq::new(
        mem.len() + state.sstables@.len(),
        |i: int|
            if i < mem.len() {
                (mem[i], None)
            } else {
                state.sstables@[i - mem.len()].reader.queue(vfs)
            },
    )
}

/// Every layer as a stream, newest first.
#[verifier::rlimit(60)]
fn layer_streams<'a, V: Vfs>(state: &'a EngineState<V>, vfs: &V) -> (r: Result<
    Vec<LayerStream<'a, V::File>>,
>)
    requires
        crate::engine::db::state_ready(*state, vfs),
    ensures
        r matches Ok(streams) ==> ({
            let mem = memtable_layers(*state);
            let n = mem.len() + state.sstables@.len();
            &&& streams@.len() == n
            &&& forall|i: int|
                #![trigger streams@[i]]
                0 <= i < n ==> streams@[i].ready(vfs) && streams@[i].rest(vfs) == (if i
                    < mem.len() {
                    (mem[i], None::<Fault>)
                } else {
                    state.sstables@[i - mem.len()].reader.queue(vfs)
                })
        }),
        r matches Err(e) ==> exists|i: int|
            0 <= i < state.sstables@.len() && #[trigger] state.sstables@[i].reader.index_fault()
                == Some(e@),
        (exists|i: int|
            0 <= i < state.sstables@.len()
                && #[trigger] state.sstables@[i].reader.index_fault() is Some) ==> r is Err,
{
    let ghost mem = memtable_layers(*state);
    let mut streams: Vec<LayerStream<'a, V::File>> = Vec::new();
    streams.push(LayerStream::Memtable(state.active_memtable.iter()));
    let mut i: usize = 0;
    while i < state.immutable_memtables.len()
        invariant
            i <= state.immutable_memtables@.len(),
            crate::engine::db::state_ready(*state, vfs),
            mem == memtable_layers(*state),
            streams@.len() == i + 1,
            forall|k: int|
                #![trigger streams@[k]]
                0 <= k < streams@.len() ==> streams@[k].ready(vfs) && streams@[k].rest(vfs) == (
                    mem[k],
                    None::<Fault>,
                ),
        decreases state.immutable_memtables@.len() - i,
    {
        assert(state.immutable_memtables@[i as int].memtable.wf());
        assert(mem[1 + i] == state.immutable_memtables@[i as int].memtable@);
        streams.push(LayerStream::Memtable(state.immutable_memtables[i].memtable.iter()));
        i += 1;
    }
    let ghost m = mem.len() as int;
    i = 0;
    while i < state.sstables.len()
        invariant
            i <= state.sstables@.len(),
            crate::engine::db::state_ready(*state, vfs),
            m == mem.len(),
            mem == memtable_layers(*state),
            streams@.len() == m + i,
            forall|k: int|
                #![trigger streams@[k]]
                0 <= k < streams@.len() ==> streams@[k].ready(vfs) && streams@[k].rest(vfs) == (if k
                    < m {
                    (mem[k], None::<Fault>)
                } else {
                    state.sstables@[k - m].reader.queue(vfs)
                }),
            forall|k: int|
                0 <= k < i ==> (#[trigger] state.sstables@[k].reader.index_fault()) is None,
        decreases state.sstables@.len() - i,
    {
        assert(state.sstables@[i as int].reader.wf());
        match state.sstables[i].reader.scan_stream() {
            Ok(s) => {
                assert(s.rest(vfs) == state.sstables@[i as int].reader.queue(vfs));
                streams.push(LayerStream::Table(s));
            },
            Err(e) => {
                assert(state.sstables@[i as int].reader.index_fault() == Some(e@));
                return Err(e);
            },
        }
        i += 1;
    }
    Ok(streams)
}

impl<V: Vfs> Db<V> {
    /// Scan the keys from `start` on that come before `end`, as they are now.
    pub fn range<'a>(&'a self, start: &'a [u8], end: &'a [u8]) -> (r: Result<RangeIter<'a, V>>)
        requires
            self.valid(),
        ensures
            self.scan_gives(
                r,
                BoundView::Included(start@),
                BoundView::Excluded(end@),
                self.last_seqno(),
            ),
    {
        self.range_bounds(KeyBound::Included(start), KeyBound::Excluded(end), self.snapshot())
    }

    /// Scan all keys, as they are now.
    pub fn scan_all<'a>(&'a self) -> (r: Result<RangeIter<'a, V>>)
        requires
            self.valid(),
        ensures
            self.scan_gives(r, BoundView::Unbounded, BoundView::Unbounded, self.last_seqno()),
    {
        self.range_bounds(KeyBound::Unbounded, KeyBound::Unbounded, self.snapshot())
    }

    /// What starting a scan gives: an iterator over what the layers hold in
    /// the range at the snapshot, up to the first fault in a layer; in a sound
    /// engine there is none, and the iterator gives what the history holds
    /// there. Or the reason why a table's index cannot be read.
    pub open spec fn scan_gives(
        &self,
        r: Result<RangeIter<'_, V>>,
        start: BoundView,
        end: BoundView,
        snapshot: u64,
    ) -> bool {
        let ssts = self.layers_state().sstables@;
        &&& r matches Ok(it) ==> {
            &&& it.wf()
            &&& it.reliable() == self.reliable()
            &&& it.rest() == scanned(
                layer_queues(self.layers_state(), &self.fs()),
                start,
                end,
                snapshot,
                None,
            )
            &&& self.sound() ==> it.rest().1 is None && is_range_of(
                it.rest().0,
                self@,
                start,
                end,
                snapshot,
            )
        }
        &&& r matches Err(e) ==> exists|i: int|
            0 <= i < ssts.len() && #[trigger] ssts[i].reader.index_fault() == Some(e@)
        &&& (exists|i: int|
            0 <= i < ssts.len() && #[trigger] ssts[i].reader.index_fault() is Some) ==> r is Err
        &&& self.sound() ==> r is Ok
    }

    /// Scan the keys between two bounds, as they are at `snapshot`: in
    /// ascending order, each with its newest visible version; deleted keys are
    /// left out.
    #[verifier::rlimit(60)]
    pub fn range_bounds<'a>(
        &'a self,
        start: KeyBound<'a>,
        end: KeyBound<'a>,
        snapshot: Snapshot,
    ) -> (r: Result<RangeIter<'a, V>>)
        requires
            self.valid(),
        ensures
            self.scan_gives(r, start@, end@, snapshot@),
    {
        proof {
            self.lemma_valid();
        }
        let state: &'a EngineState<V> = self.engine_state();
        let vfs: &'a V = self.vfs();
        let streams: Vec<LayerStream<'a, V::File>> = match layer_streams(state, vfs) {
            Ok(v) => v,
            Err(e) => {
                proof {
                    if self.sound() {
                        self.lemma_sound_layers();
                        let i = choose|i: int|
                            0 <= i < state.sstables@.len()
                                && #[trigger] state.sstables@[i].reader.index_fault() == Some(e@);
                        assert(self.layers_state().sstables@[i].reader.queue(&self.fs()).1 is None);
                    }
                }
                return Err(e);
            },
        };
        let merge = KWayMerge::new(streams);
        let it = RangeIter {
            vfs,
            merge,
            start,
            end,
            snapshot: snapshot.seqno(),
            decided: None,
            done: false,
        };
        proof {
            let queues = merge.queues(vfs);
            let layers = self.layers();
            let mem = memtable_layers(*state);
            assert(merge.wf(vfs));
            assert forall|i: int| 0 <= i < queues.len() implies #[trigger] queues[i]
                == streams@[i].rest(vfs) by {}
            assert(queues =~= layer_queues(*state, vfs));
            assert(runs_of(queues) =~= layers) by {
                assert forall|i: int| 0 <= i < queues.len() implies runs_of(queues)[i]
                    == layers[i] by {
                    assert(queues[i] == streams@[i].rest(vfs));
                    if i >= mem.len() {
                        assert(layers[i] == table_layers(*state, vfs)[i - mem.len()]);
                    }
                }
            }
            if self.sound() {
                self.lemma_sound_layers();
                self.lemma_sound();
                law_merge_is_sorted(layers);
                law_scan_is_the_range(merged(layers), start@, end@, snapshot@);
                assert forall|i: int| 0 <= i < queues.len() implies (#[trigger] queues[i]).1
                    is None by {
                    assert(queues[i] == streams@[i].rest(vfs));
                    if i >= mem.len() {
                        assert(self.layers_state().sstables@[i - mem.len()].reader.queue(
                            &self.fs(),
                        ).1 is None);
                    }
                }
                lemma_scanned_clean(queues, start@, end@, snapshot@, None);
                lemma_range_of_history(
                    it.rest().0,
                    merged(layers),
                    self@,
                    layers,
                    start@,
                    end@,
                    snapshot@,
                );
            }
        }
        Ok(it)
    }
}

/// The range of the merged layers is that of the history.
proof fn lemma_range_of_history(
    items: Seq<Entry>,
    all: Seq<Entry>,
    log: Seq<Entry>,
    layers: Seq<Seq<Entry>>,
    start: BoundView,
    end: BoundView,
    snapshot: u64,
)
    requires
        is_range_of(items, all, start, end, snapshot),
        all == merged(layers),
        crate::compaction::merger::all_sorted(layers),
        crate::compaction::merger::newest_first(layers),
        forall|key: Seq<u8>, at: u64|
            #[trigger] lookup(flat(layers), key, at) == lookup(log, key, at),
    ensures
        is_range_of(items, log, start, end, snapshot),
{
    assert forall|key: Seq<u8>|
        #![trigger lookup(log, key, snapshot)]
        #![trigger lookup(all, key, snapshot)]
        lookup(all, key, snapshot) == lookup(log, key, snapshot) by {
        law_merge_answers(layers, key, snapshot);
        assert(lookup(flat(layers), key, snapshot) == lookup(log, key, snapshot));
    }
    assert forall|i: int|
        #![trigger items[i]]
        0 <= i < items.len() implies in_range(start, end, items[i].key) && items[i].op
        == RecordOp::Put && lookup(log, items[i].key, snapshot) == Some(items[i]) by {
        assert(lookup(all, items[i].key, snapshot) == Some(items[i]));
    }
}

} // verus!
