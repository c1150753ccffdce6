//! What the engine's layers hold of the history of writes.
//!
//! The history is the sequence of all entries ever written, newest first.
//! The engine keeps it in layers: the active memtable, the frozen ones, the
//! tables. Each layer is in charge of an interval of sequence numbers, and the
//! intervals follow one another. Within its interval a layer answers as the
//! history does, so that asking the layers one after the other gives the
//! history's answer.
use vstd::prelude::*;

use crate::compaction::merger::{
    all_sorted, law_merge_answers, law_merge_is_sorted, law_merge_keeps_entries, merged,
    newest_first,
};
use crate::memtable::skiplist::{
    inserted, law_insert_keeps_order, law_newest_entry_answers_first, lemma_slot_splits, slot,
};
use crate::model::{
    lemma_lookup_concat, lemma_lookup_first, lemma_lookup_none, lemma_lookup_sound, lookup, sorted,
    visible, Entry,
};
use crate::sstable::format::RecordOp;
use crate::sstable::table::{flat, lemma_flat_front};
use crate::wal::batch::OpView;

verus! {

/// The entry that an operation writes.
pub open spec fn entry_of(seqno: u64, op: OpView) -> Entry {
    match op {
        OpView::Put { key, value } => Entry { key, seqno, op: RecordOp::Put, value },
        OpView::Delete { key } => Entry {
            key,
            seqno,
            op: RecordOp::Tombstone,
            value: Seq::empty(),
        },
    }
}

/// The entries that a batch writes, newest first: the last operation on a key
/// is the one that counts.
pub open spec fn batch_entries(seqno: u64, ops: Seq<OpView>) -> Seq<Entry>
    decreases ops.len(),
{
    if ops.len() == 0 {
        Seq::empty()
    } else {
        seq![entry_of(seqno, ops.last())] + batch_entries(seqno, ops.drop_last())
    }
}

/// The history's answer, as far as it lies in the interval `(lo, hi]`.
pub open spec fn answer_in(
    log: Seq<Entry>,
    key: Seq<u8>,
    snapshot: u64,
    lo: int,
    hi: int,
) -> Option<Entry> {
    if hi < 0 {
        None
    } else {
        let at = if snapshot <= hi {
            snapshot
        } else {
            hi as u64
        };
        match lookup(log, key, at) {
            Some(e) => if e.seqno > lo {
                Some(e)
            } else {
                None
            },
            None => None,
        }
    }
}

/// Every entry's sequence number lies in `(lo, hi]`.
pub open spec fn within(entries: Seq<Entry>, lo: int, hi: int) -> bool {
    forall|i: int| #![trigger entries[i]] 0 <= i < entries.len() ==> lo < entries[i].seqno <= hi
}

/// The layer is in charge of `(lo, hi]`: it holds entries of that interval
/// only, and answers in it as the history does.
pub open spec fn covers(layer: Seq<Entry>, log: Seq<Entry>, lo: int, hi: int) -> bool {
    &&& within(layer, lo, hi)
    &&& forall|key: Seq<u8>, snapshot: u64|
        #[trigger] lookup(layer, key, snapshot) == answer_in(log, key, snapshot, lo, hi)
}

/// The cuts that part the intervals descend from the last sequence number to
/// before the first one.
pub open spec fn cuts_ok(cuts: Seq<int>, layers: nat) -> bool {
    &&& cuts.len() == layers + 1
    &&& cuts[layers as int] == -1
    &&& forall|i: int, j: int|
        #![trigger cuts[i], cuts[j]]
        0 <= i <= j < cuts.len() ==> cuts[i] >= cuts[j]
    &&& forall|i: int| #![trigger cuts[i]] 0 <= i < cuts.len() ==> -1 <= cuts[i] <= u64::MAX
}

/// The layers, newest first, hold the history up to the first cut.
pub open spec fn stack_ok(layers: Seq<Seq<Entry>>, cuts: Seq<int>, log: Seq<Entry>) -> bool {
    &&& cuts_ok(cuts, layers.len())
    &&& forall|i: int|
        #![trigger layers[i]]
        0 <= i < layers.len() ==> covers(layers[i], log, cuts[i + 1], cuts[i])
}

/// No answer of the history is newer than `top`.
pub open spec fn settled(log: Seq<Entry>, top: int) -> bool {
    forall|key: Seq<u8>, snapshot: u64|
        #![trigger lookup(log, key, snapshot)]
        lookup(log, key, snapshot) matches Some(e) ==> e.seqno <= top
}

/// The layers, newest first, hold the history.
pub open spec fn layers_ok(layers: Seq<Seq<Entry>>, cuts: Seq<int>, log: Seq<Entry>) -> bool {
    &&& stack_ok(layers, cuts, log)
    &&& settled(log, cuts[0])
}

/// Two histories answer alike.
pub open spec fn same_answers(a: Seq<Entry>, b: Seq<Entry>) -> bool {
    forall|key: Seq<u8>, snapshot: u64|
        #![trigger lookup(a, key, snapshot)]
        #![trigger lookup(b, key, snapshot)]
        lookup(a, key, snapshot) == lookup(b, key, snapshot)
}

// ----- Lemmas -----

/// An entry that answers a later reader answers every earlier one that may
/// see it.
pub proof fn lemma_lookup_earlier(log: Seq<Entry>, key: Seq<u8>, late: u64, early: u64)
    requires
        early <= late,
    ensures
        lookup(log, key, late) is None ==> lookup(log, key, early) is None,
        lookup(log, key, late) matches Some(e) ==> e.key == key && e.seqno <= late && (e.seqno
            <= early ==> lookup(log, key, early) == Some(e)),
{
    let i = lemma_lookup_sound(log, key, late);
    match lookup(log, key, late) {
        None => {
            assert forall|j: int| 0 <= j < log.len() implies !visible(
                #[trigger] log[j],
                key,
                early,
            ) by {
                assert(!visible(log[j], key, late));
            }
            lemma_lookup_none(log, key, early);
        },
        Some(e) => {
            if e.seqno <= early {
                assert forall|j: int| 0 <= j < i implies !visible(
                    #[trigger] log[j],
                    key,
                    early,
                ) by {
                    assert(!visible(log[j], key, late));
                }
                lemma_lookup_first(log, key, early, i);
            }
        },
    }
}

/// Beyond the last entry readers all see the same.
pub proof fn lemma_lookup_beyond(log: Seq<Entry>, key: Seq<u8>, top: u64, snapshot: u64)
    requires
        settled(log, top as int),
        snapshot >= top,
    ensures
        lookup(log, key, snapshot) == lookup(log, key, top),
{
    lemma_lookup_earlier(log, key, snapshot, top);
}

/// An answer is an entry of the run, with the key asked for and visible.
pub proof fn lemma_answer_is_entry(entries: Seq<Entry>, key: Seq<u8>, snapshot: u64)
    ensures
        lookup(entries, key, snapshot) matches Some(e) ==> entries.contains(e) && e.key == key
            && e.seqno <= snapshot,
{
    let i = lemma_lookup_sound(entries, key, snapshot);
    if lookup(entries, key, snapshot) is Some {
        assert(entries[i] == lookup(entries, key, snapshot)->Some_0);
    }
}

/// A run that holds a version of a key answers a reader at that version.
pub proof fn lemma_entry_answers(entries: Seq<Entry>, i: int)
    requires
        0 <= i < entries.len(),
    ensures
        lookup(entries, entries[i].key, entries[i].seqno) is Some,
{
    let j = lemma_lookup_sound(entries, entries[i].key, entries[i].seqno);
    if lookup(entries, entries[i].key, entries[i].seqno) is None {
        assert(!visible(entries[i], entries[i].key, entries[i].seqno));
    }
}

/// The history's answer below a cut is the answer below the next lower cut,
/// where it does not lie between the two.
proof fn lemma_answer_splits(
    log: Seq<Entry>,
    key: Seq<u8>,
    snapshot: u64,
    lo: int,
    mid: int,
    hi: int,
)
    requires
        -1 <= lo <= mid <= hi <= u64::MAX,
    ensures
        answer_in(log, key, snapshot, lo, hi) == (match answer_in(log, key, snapshot, mid, hi) {
            Some(e) => Some(e),
            None => answer_in(log, key, snapshot, lo, mid),
        }),
{
    if hi >= 0 {
        let at_hi = if snapshot <= hi {
            snapshot
        } else {
            hi as u64
        };
        if mid >= 0 {
            let at_mid = if snapshot <= mid {
                snapshot
            } else {
                mid as u64
            };
            lemma_lookup_earlier(log, key, at_hi, at_mid);
            lemma_lookup_earlier(log, key, at_mid, at_mid);
        }
    }
}

/// The layers from `i` on answer what the history holds up to their cut.
pub proof fn lemma_layers_below(
    layers: Seq<Seq<Entry>>,
    cuts: Seq<int>,
    log: Seq<Entry>,
    i: int,
    key: Seq<u8>,
    snapshot: u64,
)
    requires
        stack_ok(layers, cuts, log),
        0 <= i <= layers.len(),
    ensures
        lookup(flat(layers.subrange(i, layers.len() as int)), key, snapshot) == answer_in(
            log,
            key,
            snapshot,
            -1,
            cuts[i],
        ),
    decreases layers.len() - i,
{
    let n = layers.len() as int;
    if i == n {
        assert(layers.subrange(i, n) =~= Seq::empty());
        assert(flat(layers.subrange(i, n)) =~= Seq::empty());
    } else {
        lemma_layers_below(layers, cuts, log, i + 1, key, snapshot);
        lemma_flat_front(layers, i);
        lemma_lookup_concat(
            layers[i],
            flat(layers.subrange(i + 1, n)),
            key,
            snapshot,
        );
        assert(covers(layers[i], log, cuts[i + 1], cuts[i]));
        assert(cuts[i] >= cuts[i + 1] >= cuts[n]);
        lemma_answer_splits(log, key, snapshot, -1, cuts[i + 1], cuts[i]);
    }
}

/// Asking the layers one after the other gives the history's answer.
pub proof fn law_layers_answer_as_history(
    layers: Seq<Seq<Entry>>,
    cuts: Seq<int>,
    log: Seq<Entry>,
)
    requires
        layers_ok(layers, cuts, log),
    ensures
        same_answers(flat(layers), log),
{
    assert forall|key: Seq<u8>, snapshot: u64|
        #![trigger lookup(flat(layers), key, snapshot)]
        #![trigger lookup(log, key, snapshot)]
        lookup(flat(layers), key, snapshot) == lookup(log, key, snapshot) by {
        lemma_layers_below(layers, cuts, log, 0, key, snapshot);
        assert(layers.subrange(0, layers.len() as int) =~= layers);
        if cuts[0] >= 0 && snapshot > cuts[0] {
            lemma_lookup_beyond(log, key, cuts[0] as u64, snapshot);
        }
    }
}

/// Whatever lies in one layer lies in the layers as a whole.
pub proof fn lemma_flat_within(layers: Seq<Seq<Entry>>, lo: int, hi: int)
    requires
        forall|i: int| 0 <= i < layers.len() ==> within(#[trigger] layers[i], lo, hi),
    ensures
        within(flat(layers), lo, hi),
    decreases layers.len(),
{
    if layers.len() > 0 {
        let front = layers.drop_last();
        assert forall|i: int| 0 <= i < front.len() implies within(#[trigger] front[i], lo, hi) by {
            assert(front[i] == layers[i]);
        }
        lemma_flat_within(front, lo, hi);
        let all = flat(layers);
        let last = layers.last();
        assert(within(layers[layers.len() - 1], lo, hi));
        assert forall|i: int| #![trigger all[i]] 0 <= i < all.len() implies lo < all[i].seqno
            <= hi by {
            if i < flat(front).len() {
                assert(all[i] == flat(front)[i]);
            } else {
                assert(all[i] == last[i - flat(front).len()]);
            }
        }
    }
}

/// A history of lower numbers answers the same after a newer entry has come.
proof fn lemma_newer_entry_unseen(log: Seq<Entry>, e: Entry, key: Seq<u8>, snapshot: u64)
    requires
        e.seqno > snapshot || e.key != key,
    ensures
        lookup(seq![e] + log, key, snapshot) == lookup(log, key, snapshot),
{
    lemma_lookup_concat(seq![e], log, key, snapshot);
    assert(seq![e][0] == e);
    lemma_lookup_none(seq![e], key, snapshot);
}

/// Writing an entry: it goes to the newest layer, whose interval is extended
/// up to it.
pub proof fn lemma_write(
    layers: Seq<Seq<Entry>>,
    cuts: Seq<int>,
    log: Seq<Entry>,
    e: Entry,
)
    requires
        layers_ok(layers, cuts, log),
        layers.len() > 0,
        sorted(layers[0]),
        e.seqno >= cuts[0],
        e.seqno > cuts[1],
    ensures
        layers_ok(
            layers.update(0, inserted(layers[0], e)),
            cuts.update(0, e.seqno as int),
            seq![e] + log,
        ),
        sorted(inserted(layers[0], e)),
{
    let l0 = layers[0];
    let new0 = inserted(l0, e);
    let layers2 = layers.update(0, new0);
    let cuts2 = cuts.update(0, e.seqno as int);
    let log2 = seq![e] + log;
    assert(covers(l0, log, cuts[1], cuts[0]));
    law_insert_keeps_order(l0, e);
    assert(cuts_ok(cuts2, layers2.len()));
    assert(settled(log2, cuts2[0])) by {
        assert forall|key: Seq<u8>, snapshot: u64|
            #![trigger lookup(log2, key, snapshot)]
            lookup(log2, key, snapshot) matches Some(f) ==> f.seqno <= e.seqno by {
            lemma_lookup_concat(seq![e], log, key, snapshot);
            lemma_answer_is_entry(seq![e], key, snapshot);
        }
    }
    lemma_slot_splits(l0, e.key, e.seqno);
    let p = slot(l0, e.key, e.seqno);
    assert(within(new0, cuts[1], e.seqno as int)) by {
        assert forall|i: int| #![trigger new0[i]] 0 <= i < new0.len() implies cuts[1]
            < new0[i].seqno <= e.seqno by {
            if i < p {
                assert(new0[i] == l0[i]);
            } else if i > p {
                assert(new0[i] == l0[i - 1]);
            }
        }
    }
    assert forall|key: Seq<u8>, snapshot: u64| #[trigger]
        lookup(new0, key, snapshot) == answer_in(
            log2,
            key,
            snapshot,
            cuts[1],
            e.seqno as int,
        ) by {
        law_newest_entry_answers_first(l0, e, key, snapshot);
        lemma_lookup_concat(seq![e], l0, key, snapshot);
        lemma_lookup_concat(seq![e], log, key, snapshot);
        assert(seq![e][0] == e);
        let at = if snapshot <= e.seqno {
            snapshot
        } else {
            e.seqno
        };
        if visible(e, key, snapshot) {
            lemma_lookup_first(seq![e], key, snapshot, 0);
            lemma_lookup_concat(seq![e], log, key, at);
            lemma_lookup_first(seq![e], key, at, 0);
        } else {
            lemma_newer_entry_unseen(l0, e, key, snapshot);
            lemma_newer_entry_unseen(log, e, key, at);
            assert(lookup(l0, key, snapshot) == answer_in(log, key, snapshot, cuts[1], cuts[0]));
            if cuts[0] >= 0 && snapshot > cuts[0] {
                lemma_lookup_beyond(log, key, cuts[0] as u64, at);
            }
        }
    }
    assert forall|i: int| #![trigger layers2[i]] 0 <= i < layers2.len() implies covers(
        layers2[i],
        log2,
        cuts2[i + 1],
        cuts2[i],
    ) by {
        if i > 0 {
            assert(layers2[i] == layers[i]);
            assert(covers(layers[i], log, cuts[i + 1], cuts[i]));
            assert(cuts[1] >= cuts[i]);
            assert forall|key: Seq<u8>, snapshot: u64| #[trigger]
                lookup(layers[i], key, snapshot) == answer_in(
                    log2,
                    key,
                    snapshot,
                    cuts[i + 1],
                    cuts[i],
                ) by {
                let at = if snapshot <= cuts[i] {
                    snapshot
                } else {
                    cuts[i] as u64
                };
                if cuts[i] >= 0 {
                    lemma_newer_entry_unseen(log, e, key, at);
                }
            }
        }
    }
}

/// The newest layer may be put in charge of numbers that nothing has yet.
pub proof fn lemma_raise(
    layers: Seq<Seq<Entry>>,
    cuts: Seq<int>,
    log: Seq<Entry>,
    top: u64,
)
    requires
        layers_ok(layers, cuts, log),
        layers.len() > 0,
        top >= cuts[0],
    ensures
        layers_ok(layers, cuts.update(0, top as int), log),
{
    let cuts2 = cuts.update(0, top as int);
    assert forall|i: int| #![trigger layers[i]] 0 <= i < layers.len() implies covers(
        layers[i],
        log,
        cuts2[i + 1],
        cuts2[i],
    ) by {
        assert(covers(layers[i], log, cuts[i + 1], cuts[i]));
        if i == 0 {
            assert forall|key: Seq<u8>, snapshot: u64| #[trigger]
                lookup(layers[0], key, snapshot) == answer_in(
                    log,
                    key,
                    snapshot,
                    cuts[1],
                    top as int,
                ) by {
                let at = if snapshot <= top {
                    snapshot
                } else {
                    top
                };
                if cuts[0] >= 0 && snapshot > cuts[0] {
                    lemma_lookup_beyond(log, key, cuts[0] as u64, at);
                }
            }
        }
    }
}

/// Freezing the newest layer: an empty one takes its place.
pub proof fn lemma_freeze(layers: Seq<Seq<Entry>>, cuts: Seq<int>, log: Seq<Entry>)
    requires
        layers_ok(layers, cuts, log),
    ensures
        layers_ok(seq![Seq::<Entry>::empty()] + layers, seq![cuts[0]] + cuts, log),
{
    let layers2 = seq![Seq::<Entry>::empty()] + layers;
    let cuts2 = seq![cuts[0]] + cuts;
    assert forall|i: int| 0 < i < cuts2.len() implies #[trigger] cuts2[i] == cuts[i - 1] by {}
    assert forall|i: int, j: int|
        #![trigger cuts2[i], cuts2[j]]
        0 <= i <= j < cuts2.len() implies cuts2[i] >= cuts2[j] by {
        if i > 0 {
            assert(cuts[i - 1] >= cuts[j - 1]);
        } else if j > 0 {
            assert(cuts[0] >= cuts[j - 1]);
        }
    }
    assert forall|i: int| #![trigger layers2[i]] 0 <= i < layers2.len() implies covers(
        layers2[i],
        log,
        cuts2[i + 1],
        cuts2[i],
    ) by {
        if i > 0 {
            assert(layers2[i] == layers[i - 1]);
            assert(covers(layers[i - 1], log, cuts[i], cuts[i - 1]));
        } else {
            assert forall|key: Seq<u8>, snapshot: u64| #[trigger]
                lookup(layers2[0], key, snapshot) == answer_in(
                    log,
                    key,
                    snapshot,
                    cuts[0],
                    cuts[0],
                ) by {
                if cuts[0] >= 0 {
                    let at = if snapshot <= cuts[0] {
                        snapshot
                    } else {
                        cuts[0] as u64
                    };
                    lemma_answer_is_entry(log, key, at);
                }
            }
        }
    }
}

/// Of the layers, newer ones hold newer versions.
pub proof fn lemma_newest_first(layers: Seq<Seq<Entry>>, cuts: Seq<int>, log: Seq<Entry>)
    requires
        stack_ok(layers, cuts, log),
    ensures
        newest_first(layers),
{
    assert forall|i: int, j: int, a: int, b: int|
        #![trigger layers[i][a], layers[j][b]]
        0 <= i < j < layers.len() && 0 <= a < layers[i].len() && 0 <= b < layers[j].len()
            && layers[i][a].key == layers[j][b].key implies layers[i][a].seqno
        >= layers[j][b].seqno by {
        assert(covers(layers[i], log, cuts[i + 1], cuts[i]));
        assert(covers(layers[j], log, cuts[j + 1], cuts[j]));
        assert(cuts[i + 1] >= cuts[j]);
    }
}

/// The lower layers by themselves.
pub proof fn lemma_lower_layers(
    layers: Seq<Seq<Entry>>,
    cuts: Seq<int>,
    log: Seq<Entry>,
    k: int,
)
    requires
        stack_ok(layers, cuts, log),
        0 <= k <= layers.len(),
    ensures
        newest_first(layers.subrange(k, layers.len() as int)),
        within(flat(layers.subrange(k, layers.len() as int)), -1, cuts[k]),
{
    let n = layers.len() as int;
    let low = layers.subrange(k, n);
    lemma_newest_first(layers, cuts, log);
    assert forall|i: int, j: int, a: int, b: int|
        #![trigger low[i][a], low[j][b]]
        0 <= i < j < low.len() && 0 <= a < low[i].len() && 0 <= b < low[j].len()
            && low[i][a].key == low[j][b].key implies low[i][a].seqno >= low[j][b].seqno by {
        assert(low[i] == layers[k + i]);
        assert(low[j] == layers[k + j]);
        assert(layers[k + i][a].seqno >= layers[k + j][b].seqno);
    }
    assert forall|i: int| 0 <= i < low.len() implies within(#[trigger] low[i], -1, cuts[k]) by {
        assert(low[i] == layers[k + i]);
        assert(covers(layers[k + i], log, cuts[k + i + 1], cuts[k + i]));
        assert(cuts[k] >= cuts[k + i] && cuts[k + i + 1] >= cuts[n]);
        assert forall|j: int| #![trigger low[i][j]] 0 <= j < low[i].len() implies -1
            < low[i][j].seqno <= cuts[k] by {
            assert(cuts[k + i + 1] < layers[k + i][j].seqno <= cuts[k + i]);
        }
    }
    lemma_flat_within(low, -1, cuts[k]);
}

/// A merge holds entries of the merged runs only.
pub proof fn lemma_merged_within(runs: Seq<Seq<Entry>>, lo: int, hi: int)
    requires
        within(flat(runs), lo, hi),
    ensures
        within(merged(runs), lo, hi),
{
    broadcast use vstd::seq_lib::group_to_multiset_ensures;

    law_merge_keeps_entries(runs);
    let m = merged(runs);
    let f = flat(runs);
    assert forall|i: int| #![trigger m[i]] 0 <= i < m.len() implies lo < m[i].seqno <= hi by {
        assert(m.contains(m[i]));
        assert(m.to_multiset().count(m[i]) > 0);
        assert(f.to_multiset().count(m[i]) > 0);
        assert(f.contains(m[i]));
        let j = choose|j: int| 0 <= j < f.len() && f[j] == m[i];
        assert(lo < f[j].seqno <= hi);
    }
}

/// Merging the lower layers into one.
pub proof fn lemma_merge_layers(
    layers: Seq<Seq<Entry>>,
    cuts: Seq<int>,
    log: Seq<Entry>,
    k: int,
)
    requires
        layers_ok(layers, cuts, log),
        0 <= k < layers.len(),
        all_sorted(layers.subrange(k, layers.len() as int)),
    ensures
        ({
            let run = merged(layers.subrange(k, layers.len() as int));
            &&& layers_ok(
                layers.subrange(0, k).push(run),
                cuts.subrange(0, k + 1).push(-1),
                log,
            )
            &&& sorted(run)
        }),
{
    let n = layers.len() as int;
    let low = layers.subrange(k, n);
    let run = merged(low);
    let layers2 = layers.subrange(0, k).push(run);
    let cuts2 = cuts.subrange(0, k + 1).push(-1);
    lemma_lower_layers(layers, cuts, log, k);
    lemma_merged_within(low, -1, cuts[k]);
    law_merge_is_sorted(low);
    assert(covers(run, log, -1, cuts[k])) by {
        assert forall|key: Seq<u8>, snapshot: u64| #[trigger]
            lookup(run, key, snapshot) == answer_in(log, key, snapshot, -1, cuts[k]) by {
            law_merge_answers(low, key, snapshot);
            lemma_layers_below(layers, cuts, log, k, key, snapshot);
        }
    }
    assert forall|i: int, j: int|
        #![trigger cuts2[i], cuts2[j]]
        0 <= i <= j < cuts2.len() implies cuts2[i] >= cuts2[j] by {
        if j <= k {
            assert(cuts[i] >= cuts[j]);
        } else if i <= k {
            assert(cuts[i] >= cuts[n]);
        }
    }
    assert forall|i: int| #![trigger cuts2[i]] 0 <= i < cuts2.len() implies -1 <= cuts2[i]
        <= u64::MAX by {
        if i <= k {
            assert(cuts2[i] == cuts[i]);
        }
    }
    assert forall|i: int| #![trigger layers2[i]] 0 <= i < layers2.len() implies covers(
        layers2[i],
        log,
        cuts2[i + 1],
        cuts2[i],
    ) by {
        if i < k {
            assert(layers2[i] == layers[i]);
            assert(covers(layers[i], log, cuts[i + 1], cuts[i]));
            assert(cuts2[i + 1] == cuts[i + 1]);
        }
    }
}

/// The newest layer after a batch was applied to it, operation by operation.
pub open spec fn applied(run: Seq<Entry>, seqno: u64, ops: Seq<OpView>) -> Seq<Entry>
    decreases ops.len(),
{
    if ops.len() == 0 {
        run
    } else {
        inserted(applied(run, seqno, ops.drop_last()), entry_of(seqno, ops.last()))
    }
}

/// Writing a batch.
pub proof fn lemma_write_batch(
    layers: Seq<Seq<Entry>>,
    cuts: Seq<int>,
    log: Seq<Entry>,
    seqno: u64,
    ops: Seq<OpView>,
)
    requires
        layers_ok(layers, cuts, log),
        layers.len() > 0,
        sorted(layers[0]),
        seqno > cuts[0],
    ensures
        layers_ok(
            layers.update(0, applied(layers[0], seqno, ops)),
            cuts.update(0, seqno as int),
            batch_entries(seqno, ops) + log,
        ),
        sorted(applied(layers[0], seqno, ops)),
    decreases ops.len(),
{
    if ops.len() == 0 {
        lemma_raise(layers, cuts, log, seqno);
        assert(layers.update(0, layers[0]) =~= layers);
        assert(batch_entries(seqno, ops) + log =~= log);
    } else {
        let less = ops.drop_last();
        lemma_write_batch(layers, cuts, log, seqno, less);
        let mid = layers.update(0, applied(layers[0], seqno, less));
        let cuts2 = cuts.update(0, seqno as int);
        let e = entry_of(seqno, ops.last());
        assert(cuts[0] >= cuts[1]);
        lemma_write(mid, cuts2, batch_entries(seqno, less) + log, e);
        assert(mid.update(0, inserted(mid[0], e)) =~= layers.update(
            0,
            applied(layers[0], seqno, ops),
        ));
        assert(cuts2.update(0, seqno as int) =~= cuts2);
        assert(seq![e] + (batch_entries(seqno, less) + log) =~= batch_entries(seqno, ops) + log);
    }
}

/// The entries of a batch all have its number.
pub proof fn lemma_batch_entries(seqno: u64, ops: Seq<OpView>)
    ensures
        batch_entries(seqno, ops).len() == ops.len(),
        within(batch_entries(seqno, ops), seqno - 1, seqno as int),
    decreases ops.len(),
{
    if ops.len() > 0 {
        lemma_batch_entries(seqno, ops.drop_last());
        let rest = batch_entries(seqno, ops.drop_last());
        let all = batch_entries(seqno, ops);
        assert forall|i: int| #![trigger all[i]] 0 <= i < all.len() implies seqno - 1
            < all[i].seqno <= seqno by {
            if i > 0 {
                assert(all[i] == rest[i - 1]);
            }
        }
    }
}

} // verus!
