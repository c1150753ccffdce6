//! K-way merge over sorted record streams.
//!
//! The merger holds one pending record per source and always gives the one
//! that comes first in `(key ascending, seqno descending)` order. Where two
//! sources have a record at the same `(key, seqno)`, the lower source index
//! wins: callers pass inputs newest-first, so that a tie resolves toward the
//! more recent record.
use vstd::multiset::Multiset;
use vstd::prelude::*;

use crate::encoding::order::{
    compare_bytes, lemma_lex_asymmetric, lemma_lex_irreflexive, lemma_lex_total,
    lemma_lex_transitive, lex_lt, Order,
};
use crate::error::Result;
use crate::io::vfs::{is_open, FsState, VfsFile};
use crate::model::{
    before, entry_le, lemma_entry_le_transitive, lemma_lookup_concat, lemma_lookup_first,
    lemma_lookup_none, lookup, sorted, visible, Entry,
};
use crate::sstable::reader::{record_entry, stream_step, LookupHit, SstStream};
use crate::sstable::table::{failed_io, failed_with, flat, Fault};

verus! {

/// A source of records in order.
pub trait RecordStream: Sized {
    /// What the source reads from.
    type Fs;

    /// The entries still to come, and the fault after them where there is
    /// one.
    spec fn rest(&self, fs: &Self::Fs) -> (Seq<Entry>, Option<Fault>);

    /// The source can be pulled from.
    spec fn ready(&self, fs: &Self::Fs) -> bool;

    /// Reading does not fail but for a fault of the source.
    spec fn reliable(fs: &Self::Fs) -> bool;

    /// Identity of the file that the source reads.
    spec fn origin(&self) -> int;

    /// The bytes of a file.
    spec fn stored(fs: &Self::Fs, id: int) -> Option<Seq<u8>>;

    /// What a source gives rests on its own file alone.
    proof fn lemma_rests_on_origin(&self, a: &Self::Fs, b: &Self::Fs)
        requires
            Self::stored(a, self.origin()) == Self::stored(b, self.origin()),
        ensures
            self.ready(a) == self.ready(b),
            self.ready(a) ==> self.rest(a) == self.rest(b),
    ;

    /// Pull the next record, or `Ok(None)` at the end.
    fn next_record(&mut self, fs: &Self::Fs) -> (r: Result<Option<(Vec<u8>, LookupHit)>>)
        requires
            old(self).ready(fs),
        ensures
            final(self).ready(fs),
            final(self).origin() == old(self).origin(),
            stream_step(old(self).rest(fs), r, final(self).rest(fs), Self::reliable(fs)),
    ;
}

impl<'a, F: VfsFile> RecordStream for SstStream<'a, F> {
    type Fs = F::Fs;

    open spec fn rest(&self, fs: &F::Fs) -> (Seq<Entry>, Option<Fault>) {
        SstStream::rest(self, fs)
    }

    open spec fn ready(&self, fs: &F::Fs) -> bool {
        is_open(&self.source().handle(), fs)
    }

    open spec fn reliable(fs: &F::Fs) -> bool {
        F::fs_reliable(fs)
    }

    open spec fn origin(&self) -> int {
        self.source().handle().id()
    }

    open spec fn stored(fs: &F::Fs, id: int) -> Option<Seq<u8>> {
        stored_bytes(F::fs_state(fs), id)
    }

    proof fn lemma_rests_on_origin(&self, a: &F::Fs, b: &F::Fs) {
        self.lemma_rest_same(a, b);
    }

    fn next_record(&mut self, fs: &F::Fs) -> (r: Result<Option<(Vec<u8>, LookupHit)>>) {
        SstStream::next_record(self, fs)
    }
}

/// The bytes of a file, where there is one.
pub open spec fn stored_bytes(state: FsState, id: int) -> Option<Seq<u8>> {
    if state.files.dom().contains(id) {
        Some(state.files[id])
    } else {
        None
    }
}

/// Records held in memory, as a stream.
pub struct RecordList {
    /// The records still to come, last first.
    left: Vec<(Vec<u8>, LookupHit)>,
}

impl RecordList {
    /// The entries still to come.
    pub closed spec fn entries(&self) -> Seq<Entry> {
        Seq::new(
            self.left@.len(),
            |i: int| record_entry(self.left@[self.left@.len() - 1 - i]),
        )
    }

    /// A stream of `records`, in the order given.
    pub fn new(records: Vec<(Vec<u8>, LookupHit)>) -> (s: RecordList)
        ensures
            s.entries() == crate::sstable::reader::record_entries(records@),
    {
        let ghost all = records@;
        let mut given = records;
        let mut left: Vec<(Vec<u8>, LookupHit)> = Vec::new();
        while given.len() > 0
            invariant
                given@.len() + left@.len() == all.len(),
                given@ == all.subrange(0, given@.len() as int),
                forall|i: int|
                    0 <= i < left@.len() ==> #[trigger] left@[i] == all[all.len() - 1 - i],
            decreases given@.len(),
        {
            match given.pop() {
                Some(r) => {
                    left.push(r);
                },
                None => {},
            }
            assert(given@ =~= all.subrange(0, given@.len() as int));
        }
        let s = RecordList { left };
        assert(s.entries() =~= crate::sstable::reader::record_entries(all));
        s
    }

    /// Pull the next record.
    pub fn pull(&mut self) -> (r: Option<(Vec<u8>, LookupHit)>)
        ensures
            old(self).entries().len() == 0 ==> r is None && final(self).entries() == old(self).entries(),
            old(self).entries().len() > 0 ==> (r matches Some(rec) && record_entry(rec) == old(self).entries()[0]) && final(self).entries() == old(self).entries().subrange(
                1,
                old(self).entries().len() as int,
            ),
    {
        let r = self.left.pop();
        proof {
            if old(self).entries().len() > 0 {
                assert(self.entries() =~= old(self).entries().subrange(
                    1,
                    old(self).entries().len() as int,
                ));
            }
        }
        r
    }
}

impl RecordStream for RecordList {
    type Fs = ();

    open spec fn rest(&self, fs: &()) -> (Seq<Entry>, Option<Fault>) {
        (self.entries(), None)
    }

    open spec fn ready(&self, fs: &()) -> bool {
        true
    }

    open spec fn reliable(fs: &()) -> bool {
        true
    }

    open spec fn origin(&self) -> int {
        0
    }

    open spec fn stored(fs: &(), id: int) -> Option<Seq<u8>> {
        None
    }

    proof fn lemma_rests_on_origin(&self, a: &(), b: &()) {
    }

    fn next_record(&mut self, fs: &()) -> (r: Result<Option<(Vec<u8>, LookupHit)>>) {
        Ok(self.pull())
    }
}

// ----- What merging gives -----

/// `a` comes strictly before `b`.
pub open spec fn comes_first(a: Entry, b: Entry) -> bool {
    before(a, b.key, b.seqno)
}

/// Of the first `n` runs, the index of the one whose head comes first (the
/// lowest index on a tie), or -1 where all are empty.
pub open spec fn least(runs: Seq<Seq<Entry>>, n: int) -> int
    decreases n,
{
    if n <= 0 {
        -1
    } else {
        let best = least(runs, n - 1);
        if runs[n - 1].len() == 0 {
            best
        } else if best < 0 || comes_first(runs[n - 1][0], runs[best][0]) {
            n - 1
        } else {
            best
        }
    }
}

/// Number of entries in all runs.
pub open spec fn total(runs: Seq<Seq<Entry>>) -> nat
    decreases runs.len(),
{
    if runs.len() == 0 {
        0
    } else {
        total(runs.drop_last()) + runs.last().len()
    }
}

/// A run without its head.
pub open spec fn tail(run: Seq<Entry>) -> Seq<Entry> {
    run.subrange(1, run.len() as int)
}

/// The runs after the head of run `i` left.
pub open spec fn without_head(runs: Seq<Seq<Entry>>, i: int) -> Seq<Seq<Entry>> {
    runs.update(i, tail(runs[i]))
}

/// The merge of sorted runs: always the head that comes first, and of equal
/// heads the one of the lowest run.
pub open spec fn merged(runs: Seq<Seq<Entry>>) -> Seq<Entry>
    decreases total(runs),
{
    let i = least(runs, runs.len() as int);
    if i < 0 {
        Seq::empty()
    } else {
        proof {
            lemma_least(runs, runs.len() as int);
            lemma_total_less(runs, i);
        }
        seq![runs[i][0]] + merged(without_head(runs, i))
    }
}

/// What the least head is.
pub proof fn lemma_least(runs: Seq<Seq<Entry>>, n: int)
    requires
        0 <= n <= runs.len(),
    ensures
        -1 <= least(runs, n) < n,
        least(runs, n) < 0 ==> forall|j: int| 0 <= j < n ==> (#[trigger] runs[j]).len() == 0,
        least(runs, n) >= 0 ==> runs[least(runs, n)].len() > 0,
        least(runs, n) >= 0 ==> forall|j: int|
            0 <= j < n && (#[trigger] runs[j]).len() > 0 ==> !comes_first(
                runs[j][0],
                runs[least(runs, n)][0],
            ) && (j < least(runs, n) ==> comes_first(runs[least(runs, n)][0], runs[j][0])),
    decreases n,
{
    if n > 0 {
        lemma_least(runs, n - 1);
        let best = least(runs, n - 1);
        let now = least(runs, n);
        if runs[n - 1].len() > 0 && best >= 0 {
            let new = runs[n - 1][0];
            let old_head = runs[best][0];
            if comes_first(new, old_head) {
                assert forall|j: int| 0 <= j < n && (#[trigger] runs[j]).len() > 0 implies
                    !comes_first(runs[j][0], new) && (j < now ==> comes_first(new, runs[j][0])) by {
                    if j < n - 1 {
                        lemma_first_not(runs[j][0], old_head, new);
                    } else {
                        lemma_lex_irreflexive(new.key);
                    }
                }
            } else {
                lemma_lex_irreflexive(old_head.key);
            }
        } else if runs[n - 1].len() > 0 {
            lemma_lex_irreflexive(runs[n - 1][0].key);
        }
    }
}

/// If `b` comes first of `a`s place and `x` does not come before `a`, then `b`
/// comes before `x` and `x` not before `b`.
proof fn lemma_first_not(x: Entry, a: Entry, b: Entry)
    requires
        !comes_first(x, a),
        comes_first(b, a),
    ensures
        !comes_first(x, b),
        comes_first(b, x),
{
    lemma_lex_total(x.key, a.key);
    if lex_lt(b.key, a.key) && lex_lt(a.key, x.key) {
        lemma_lex_transitive(b.key, a.key, x.key);
    }
    if lex_lt(x.key, b.key) {
        lemma_lex_asymmetric(x.key, b.key);
    }
    lemma_lex_irreflexive(x.key);
}

/// A run without its head makes the whole one smaller.
pub proof fn lemma_total_less(runs: Seq<Seq<Entry>>, i: int)
    requires
        0 <= i < runs.len(),
        runs[i].len() > 0,
    ensures
        total(without_head(runs, i)) + 1 == total(runs),
    decreases runs.len(),
{
    let less = without_head(runs, i);
    if i == runs.len() - 1 {
        assert(less.drop_last() =~= runs.drop_last());
    } else {
        assert(less.drop_last() =~= without_head(runs.drop_last(), i));
        lemma_total_less(runs.drop_last(), i);
    }
}

/// Law: merging loses nothing and adds nothing: there are as many entries as
/// in all runs together.
pub proof fn law_merge_len(runs: Seq<Seq<Entry>>)
    ensures
        merged(runs).len() == total(runs),
    decreases total(runs),
{
    let n = runs.len() as int;
    let i = least(runs, n);
    lemma_least(runs, n);
    if i < 0 {
        lemma_total_empty(runs);
    } else {
        lemma_total_less(runs, i);
        law_merge_len(without_head(runs, i));
    }
}

proof fn lemma_total_empty(runs: Seq<Seq<Entry>>)
    requires
        forall|j: int| 0 <= j < runs.len() ==> (#[trigger] runs[j]).len() == 0,
    ensures
        total(runs) == 0,
        flat(runs) == Seq::<Entry>::empty(),
    decreases runs.len(),
{
    if runs.len() > 0 {
        let front = runs.drop_last();
        assert forall|j: int| 0 <= j < front.len() implies (#[trigger] front[j]).len() == 0 by {
            assert(front[j] == runs[j]);
        }
        lemma_total_empty(front);
        assert(runs.last().len() == 0);
        assert(flat(runs) =~= Seq::<Entry>::empty());
    }
}

/// Taking a head off a run takes that entry out of the whole.
proof fn lemma_flat_less(runs: Seq<Seq<Entry>>, i: int)
    requires
        0 <= i < runs.len(),
        runs[i].len() > 0,
    ensures
        flat(runs).to_multiset() == flat(without_head(runs, i)).to_multiset().insert(runs[i][0]),
    decreases runs.len(),
{
    broadcast use vstd::seq_lib::group_to_multiset_ensures;

    let less = without_head(runs, i);
    if i == runs.len() - 1 {
        assert(less.drop_last() =~= runs.drop_last());
        assert(runs.last() =~= seq![runs[i][0]] + tail(runs[i]));
        let a = flat(runs.drop_last());
        let t = tail(runs[i]);
        let e = runs[i][0];
        assert(flat(runs) =~= (a + seq![e]) + t);
        vstd::seq_lib::lemma_multiset_commutative(a + seq![e], t);
        vstd::seq_lib::lemma_multiset_commutative(a, t);
        assert(a + seq![e] =~= a.push(e));
        assert((a + seq![e]).to_multiset() =~= a.to_multiset().insert(e));
        assert(flat(runs).to_multiset() =~= flat(less).to_multiset().insert(e));
    } else {
        assert(less.drop_last() =~= without_head(runs.drop_last(), i));
        lemma_flat_less(runs.drop_last(), i);
        let a = flat(runs.drop_last());
        let b = flat(less.drop_last());
        let l = runs.last();
        vstd::seq_lib::lemma_multiset_commutative(a, l);
        vstd::seq_lib::lemma_multiset_commutative(b, l);
        assert(flat(runs).to_multiset() =~= flat(less).to_multiset().insert(runs[i][0]));
    }
}

/// Law: the merge holds exactly the entries of the runs, each as often as
/// they do.
pub proof fn law_merge_keeps_entries(runs: Seq<Seq<Entry>>)
    ensures
        merged(runs).to_multiset() == flat(runs).to_multiset(),
    decreases total(runs),
{
    broadcast use vstd::seq_lib::group_to_multiset_ensures;

    let n = runs.len() as int;
    let i = least(runs, n);
    lemma_least(runs, n);
    if i < 0 {
        lemma_total_empty(runs);
    } else {
        let less = without_head(runs, i);
        lemma_total_less(runs, i);
        law_merge_keeps_entries(less);
        lemma_flat_less(runs, i);
        let e = runs[i][0];
        vstd::seq_lib::lemma_multiset_commutative(seq![e], merged(less));
        assert(seq![e].to_multiset() =~= Multiset::singleton(e)) by {
            assert(seq![e] =~= Seq::<Entry>::empty().push(e));
            assert(Seq::<Entry>::empty().push(e).to_multiset()
                =~= Seq::<Entry>::empty().to_multiset().insert(e));
        }
        assert(merged(runs).to_multiset() =~= merged(less).to_multiset().insert(e));
    }
}

/// All runs are sorted.
pub open spec fn all_sorted(runs: Seq<Seq<Entry>>) -> bool {
    forall|i: int| 0 <= i < runs.len() ==> sorted(#[trigger] runs[i])
}

proof fn lemma_tail_sorted(runs: Seq<Seq<Entry>>, i: int)
    requires
        all_sorted(runs),
        0 <= i < runs.len(),
        runs[i].len() > 0,
    ensures
        all_sorted(without_head(runs, i)),
{
    let less = without_head(runs, i);
    assert forall|j: int| 0 <= j < less.len() implies sorted(#[trigger] less[j]) by {
        assert(sorted(runs[j]));
        if j == i {
            crate::model::lemma_sorted_subrange(runs[i], 1, runs[i].len() as int);
        }
    }
}

/// If nothing in the runs comes before `e`, nothing in their merge does.
proof fn lemma_merge_bound(runs: Seq<Seq<Entry>>, e: Entry)
    requires
        forall|i: int, k: int|
            0 <= i < runs.len() && 0 <= k < runs[i].len() ==> entry_le(e, #[trigger] runs[i][k]),
    ensures
        forall|k: int| 0 <= k < merged(runs).len() ==> entry_le(e, #[trigger] merged(runs)[k]),
    decreases total(runs),
{
    let n = runs.len() as int;
    let i = least(runs, n);
    lemma_least(runs, n);
    if i >= 0 {
        let less = without_head(runs, i);
        lemma_total_less(runs, i);
        assert forall|a: int, k: int|
            0 <= a < less.len() && 0 <= k < less[a].len() implies entry_le(
            e,
            #[trigger] less[a][k],
        ) by {
            if a == i {
                assert(less[a][k] == runs[a][k + 1]);
            } else {
                assert(less[a][k] == runs[a][k]);
            }
        }
        lemma_merge_bound(less, e);
        assert forall|k: int| 0 <= k < merged(runs).len() implies entry_le(
            e,
            #[trigger] merged(runs)[k],
        ) by {
            if k > 0 {
                assert(merged(runs)[k] == merged(less)[k - 1]);
            } else {
                assert(merged(runs)[0] == runs[i][0]);
            }
        }
    }
}

/// Where the first head does not come later, it may stand before the other.
proof fn lemma_not_first(a: Entry, b: Entry)
    requires
        !comes_first(b, a),
    ensures
        entry_le(a, b),
{
    lemma_lex_total(a.key, b.key);
}

/// Law: the merge of sorted runs is sorted.
pub proof fn law_merge_is_sorted(runs: Seq<Seq<Entry>>)
    requires
        all_sorted(runs),
    ensures
        sorted(merged(runs)),
    decreases total(runs),
{
    let n = runs.len() as int;
    let i = least(runs, n);
    lemma_least(runs, n);
    if i >= 0 {
        let less = without_head(runs, i);
        let e = runs[i][0];
        lemma_total_less(runs, i);
        lemma_tail_sorted(runs, i);
        law_merge_is_sorted(less);
        assert forall|a: int, k: int|
            0 <= a < less.len() && 0 <= k < less[a].len() implies entry_le(
            e,
            #[trigger] less[a][k],
        ) by {
            assert(sorted(runs[a]));
            if a == i {
                assert(less[a][k] == runs[a][k + 1]);
                assert(entry_le(runs[a][0], runs[a][k + 1]));
            } else {
                assert(less[a][k] == runs[a][k]);
                lemma_not_first(e, runs[a][0]);
                if k > 0 {
                    assert(entry_le(runs[a][0], runs[a][k]));
                    lemma_entry_le_transitive(e, runs[a][0], runs[a][k]);
                }
            }
        }
        lemma_merge_bound(less, e);
        let all = merged(runs);
        let rest = merged(less);
        assert forall|a: int, b: int|
            #![trigger all[a], all[b]]
            0 <= a < b < all.len() implies entry_le(all[a], all[b]) by {
            assert(all[b] == rest[b - 1]);
            if a > 0 {
                assert(all[a] == rest[a - 1]);
            }
        }
    }
}

/// The entries at one `(key, seqno)`, in the order in which they stand.
pub open spec fn versions_at(entries: Seq<Entry>, key: Seq<u8>, seqno: u64) -> Seq<Entry> {
    entries.filter(|e: Entry| e.key == key && e.seqno == seqno)
}

/// No entry stands at `(key, seqno)`.
proof fn lemma_none_at(entries: Seq<Entry>, key: Seq<u8>, seqno: u64)
    requires
        forall|k: int|
            0 <= k < entries.len() ==> !((#[trigger] entries[k]).key == key && entries[k].seqno
                == seqno),
    ensures
        versions_at(entries, key, seqno) == Seq::<Entry>::empty(),
    decreases entries.len(),
{
    reveal(Seq::filter);
    if entries.len() > 0 {
        let less = entries.drop_last();
        assert forall|k: int| 0 <= k < less.len() implies !((#[trigger] less[k]).key == key
            && less[k].seqno == seqno) by {
            assert(less[k] == entries[k]);
        }
        lemma_none_at(less, key, seqno);
        assert(entries.last() == entries[entries.len() - 1]);
    }
}

/// If the head of run `i` comes first, no earlier run holds an entry at its
/// `(key, seqno)`.
proof fn lemma_none_equal(runs: Seq<Seq<Entry>>, i: int, k: int)
    requires
        all_sorted(runs),
        0 <= k <= i < runs.len(),
        i == least(runs, runs.len() as int),
    ensures
        versions_at(flat(runs.subrange(0, k)), runs[i][0].key, runs[i][0].seqno) == Seq::<
            Entry,
        >::empty(),
    decreases k,
{
    let e = runs[i][0];
    lemma_least(runs, runs.len() as int);
    if k == 0 {
        assert(runs.subrange(0, 0) =~= Seq::empty());
        lemma_none_at(flat(runs.subrange(0, 0)), e.key, e.seqno);
    } else {
        lemma_none_equal(runs, i, k - 1);
        let now = runs.subrange(0, k);
        let run = runs[k - 1];
        assert(now.drop_last() =~= runs.subrange(0, k - 1));
        assert(now.last() == run);
        assert forall|j: int| 0 <= j < run.len() implies !((#[trigger] run[j]).key == e.key
            && run[j].seqno == e.seqno) by {
            assert(comes_first(e, run[0]));
            assert(sorted(runs[k - 1]));
            if j > 0 {
                assert(entry_le(run[0], run[j]));
            }
            lemma_lex_irreflexive(e.key);
            if lex_lt(e.key, run[0].key) && run[j].key == e.key {
                lemma_lex_asymmetric(e.key, run[0].key);
            }
        }
        lemma_none_at(run, e.key, e.seqno);
        Seq::filter_distributes_over_add(
            flat(now.drop_last()),
            run,
            |x: Entry| x.key == e.key && x.seqno == e.seqno,
        );
        assert(Seq::<Entry>::empty() + Seq::<Entry>::empty() =~= Seq::<Entry>::empty());
    }
}

/// Law: merging sorted runs is stable. Entries at the same `(key, seqno)` come
/// in the order of their runs, and within a run in the order in which they
/// stand.
#[verifier::rlimit(30)]
pub proof fn law_merge_is_stable(runs: Seq<Seq<Entry>>, key: Seq<u8>, seqno: u64)
    requires
        all_sorted(runs),
    ensures
        versions_at(merged(runs), key, seqno) == versions_at(flat(runs), key, seqno),
    decreases total(runs),
{
    let n = runs.len() as int;
    let i = least(runs, n);
    lemma_least(runs, n);
    if i < 0 {
        lemma_total_empty(runs);
    } else {
        let less = without_head(runs, i);
        let e = runs[i][0];
        let pred = |x: Entry| x.key == key && x.seqno == seqno;
        lemma_total_less(runs, i);
        lemma_tail_sorted(runs, i);
        law_merge_is_stable(less, key, seqno);
        let pre = flat(runs.subrange(0, i));
        let t = tail(runs[i]);
        let post = flat(runs.subrange(i + 1, n));
        lemma_flat_around(runs, i);
        lemma_flat_around(less, i);
        assert(less.subrange(0, i) =~= runs.subrange(0, i));
        assert(less.subrange(i + 1, n) =~= runs.subrange(i + 1, n));
        assert(runs[i] + post =~= seq![e] + (t + post));
        Seq::filter_distributes_over_add(pre, seq![e] + (t + post), pred);
        Seq::filter_distributes_over_add(seq![e], t + post, pred);
        Seq::filter_distributes_over_add(pre, t + post, pred);
        Seq::filter_distributes_over_add(seq![e], merged(less), pred);
        if e.key == key && e.seqno == seqno {
            lemma_none_equal(runs, i, i);
            let rest = (t + post).filter(pred);
            assert(pre.filter(pred) == Seq::<Entry>::empty());
            assert(Seq::<Entry>::empty() + (seq![e].filter(pred) + rest) =~= seq![e].filter(pred)
                + (Seq::<Entry>::empty() + rest));
        } else {
            assert(seq![e][0] == e);
            lemma_none_at(seq![e], key, seqno);
            let rest = (t + post).filter(pred);
            assert(Seq::<Entry>::empty() + rest =~= rest);
            assert(Seq::<Entry>::empty() + merged(less).filter(pred) =~= merged(less).filter(pred));
        }
    }
}

/// Earlier runs are newer: of one key they hold no older version than later
/// runs do.
pub open spec fn newest_first(runs: Seq<Seq<Entry>>) -> bool {
    forall|i: int, j: int, a: int, b: int|
        #![trigger runs[i][a], runs[j][b]]
        0 <= i < j < runs.len() && 0 <= a < runs[i].len() && 0 <= b < runs[j].len()
            && runs[i][a].key == runs[j][b].key ==> runs[i][a].seqno >= runs[j][b].seqno
}

/// Law: a lookup in the merge of sorted runs, newest first, answers what a
/// lookup through the runs one after the other does.
pub proof fn law_merge_answers(runs: Seq<Seq<Entry>>, key: Seq<u8>, snapshot: u64)
    requires
        all_sorted(runs),
        newest_first(runs),
    ensures
        lookup(merged(runs), key, snapshot) == lookup(flat(runs), key, snapshot),
    decreases total(runs),
{
    let n = runs.len() as int;
    let i = least(runs, n);
    lemma_least(runs, n);
    if i < 0 {
        lemma_total_empty(runs);
    } else {
        let less = without_head(runs, i);
        let e = runs[i][0];
        lemma_total_less(runs, i);
        lemma_tail_sorted(runs, i);
        assert(newest_first(less)) by {
            assert forall|x: int, j: int, a: int, b: int|
                #![trigger less[x][a], less[j][b]]
                0 <= x < j < less.len() && 0 <= a < less[x].len() && 0 <= b < less[j].len()
                    && less[x][a].key == less[j][b].key implies less[x][a].seqno
                >= less[j][b].seqno by {
                let a0 = if x == i { a + 1 } else { a };
                let b0 = if j == i { b + 1 } else { b };
                assert(less[x][a] == runs[x][a0]);
                assert(less[j][b] == runs[j][b0]);
            }
        }
        law_merge_answers(less, key, snapshot);
        lemma_lookup_concat(seq![e], merged(less), key, snapshot);
        // The runs before run i, its head, and what is behind it.
        let pre = flat(runs.subrange(0, i));
        let t = tail(runs[i]);
        let post = flat(runs.subrange(i + 1, n));
        lemma_flat_around(runs, i);
        lemma_flat_around(less, i);
        assert(less.subrange(0, i) =~= runs.subrange(0, i));
        assert(less.subrange(i + 1, n) =~= runs.subrange(i + 1, n));
        assert(runs[i] =~= seq![e] + t);
        lemma_lookup_concat(pre, runs[i] + post, key, snapshot);
        lemma_lookup_concat(runs[i], post, key, snapshot);
        lemma_lookup_concat(seq![e], t, key, snapshot);
        lemma_lookup_concat(pre, t + post, key, snapshot);
        lemma_lookup_concat(t, post, key, snapshot);
        assert(seq![e][0] == e);
        if visible(e, key, snapshot) {
            lemma_lookup_first(seq![e], key, snapshot, 0);
            lemma_none_newer(runs, i, i, key, snapshot);
        } else {
            lemma_lookup_none(seq![e], key, snapshot);
        }
    }
}

/// The whole as what is before run `i`, the run, and what is behind it.
proof fn lemma_flat_around(runs: Seq<Seq<Entry>>, i: int)
    requires
        0 <= i < runs.len(),
    ensures
        flat(runs) == flat(runs.subrange(0, i)) + (runs[i] + flat(
            runs.subrange(i + 1, runs.len() as int),
        )),
{
    crate::sstable::table::lemma_flat_split(runs, i);
    crate::sstable::table::lemma_flat_front(runs, i);
}

/// If the head of run `i` comes first and is visible, no earlier run holds a
/// visible version.
proof fn lemma_none_newer(
    runs: Seq<Seq<Entry>>,
    i: int,
    k: int,
    key: Seq<u8>,
    snapshot: u64,
)
    requires
        all_sorted(runs),
        newest_first(runs),
        0 <= k <= i < runs.len(),
        i == least(runs, runs.len() as int),
        visible(runs[i][0], key, snapshot),
    ensures
        lookup(flat(runs.subrange(0, k)), key, snapshot) is None,
    decreases k,
{
    lemma_least(runs, runs.len() as int);
    if k == 0 {
        assert(runs.subrange(0, 0) =~= Seq::empty());
    } else {
        lemma_none_newer(runs, i, k - 1, key, snapshot);
        let now = runs.subrange(0, k);
        assert(now.drop_last() =~= runs.subrange(0, k - 1));
        assert(now.last() == runs[k - 1]);
        let run = runs[k - 1];
        let e = runs[i][0];
        assert forall|j: int| 0 <= j < run.len() implies !visible(
            #[trigger] run[j],
            key,
            snapshot,
        ) by {
            if run[j].key == key {
                let head = runs[k - 1][0];
                assert(comes_first(e, head));
                assert(sorted(runs[k - 1]));
                crate::model::lemma_sorted_keys(run, 0, j);
                if lex_lt(e.key, head.key) {
                    if head.key != key {
                        lemma_lex_transitive(e.key, head.key, key);
                    }
                    lemma_lex_irreflexive(key);
                } else {
                    assert(head.key == e.key && e.seqno > head.seqno);
                    assert(runs[k - 1][0].seqno >= runs[i][0].seqno);
                }
            }
        }
        lemma_lookup_none(run, key, snapshot);
        lemma_lookup_concat(flat(now.drop_last()), run, key, snapshot);
    }
}

// ----- The merger -----

/// A source's pending entries and the fault behind them.
pub open spec fn runs_of(queues: Seq<(Seq<Entry>, Option<Fault>)>) -> Seq<Seq<Entry>> {
    queues.map_values(|q: (Seq<Entry>, Option<Fault>)| q.0)
}

/// The first fault that stands at the front of a source.
pub open spec fn front_fault(queues: Seq<(Seq<Entry>, Option<Fault>)>, n: int) -> Option<Fault>
    decreases n,
{
    if n <= 0 {
        None
    } else {
        match front_fault(queues, n - 1) {
            Some(f) => Some(f),
            None => if queues[n - 1].0.len() == 0 {
                queues[n - 1].1
            } else {
                None
            },
        }
    }
}

/// The fault that the next pull meets: one at the front of a source, or one
/// right behind the record that is due, since the merger looks one record
/// ahead.
pub open spec fn fault_due(queues: Seq<(Seq<Entry>, Option<Fault>)>) -> Option<Fault> {
    match front_fault(queues, queues.len() as int) {
        Some(f) => Some(f),
        None => {
            let i = least(runs_of(queues), queues.len() as int);
            if i >= 0 && queues[i].0.len() == 1 {
                queues[i].1
            } else {
                None
            }
        },
    }
}

/// What merging sources gives: the records that come, and the fault that ends
/// the merge behind them, if one does.
pub open spec fn merged_until(queues: Seq<(Seq<Entry>, Option<Fault>)>) -> (
    Seq<Entry>,
    Option<Fault>,
)
    decreases total(runs_of(queues)),
{
    let i = least(runs_of(queues), queues.len() as int);
    if fault_due(queues) is Some {
        (Seq::empty(), fault_due(queues))
    } else if i < 0 {
        (Seq::empty(), None)
    } else {
        let next = queues.update(i, (tail(queues[i].0), queues[i].1));
        proof {
            lemma_least(runs_of(queues), queues.len() as int);
            lemma_total_less(runs_of(queues), i);
            assert(runs_of(next) =~= without_head(runs_of(queues), i));
        }
        let rest = merged_until(next);
        (seq![queues[i].0[0]] + rest.0, rest.1)
    }
}

/// Where no source has a fault, merging gives the merge of all records.
pub proof fn lemma_merged_clean(queues: Seq<(Seq<Entry>, Option<Fault>)>)
    requires
        forall|i: int| 0 <= i < queues.len() ==> (#[trigger] queues[i]).1 is None,
    ensures
        merged_until(queues) == (merged(runs_of(queues)), None::<Fault>),
    decreases total(runs_of(queues)),
{
    let runs = runs_of(queues);
    let i = least(runs, runs.len() as int);
    lemma_clean(queues, queues.len() as int);
    lemma_least(runs, runs.len() as int);
    if i >= 0 {
        let next = queues.update(i, (tail(queues[i].0), queues[i].1));
        lemma_total_less(runs, i);
        assert(runs_of(next) =~= without_head(runs, i));
        assert forall|j: int| 0 <= j < next.len() implies (#[trigger] next[j]).1 is None by {
            assert(queues[j].1 is None);
        }
        lemma_merged_clean(next);
    }
}

/// No source has a fault at its front where none is found.
pub proof fn lemma_no_front(queues: Seq<(Seq<Entry>, Option<Fault>)>, n: int)
    requires
        0 <= n <= queues.len(),
        front_fault(queues, n) is None,
    ensures
        forall|i: int|
            0 <= i < n && (#[trigger] queues[i]).0.len() == 0 ==> queues[i].1 is None,
    decreases n,
{
    if n > 0 {
        lemma_no_front(queues, n - 1);
    }
}

/// Law: merging never passes over a fault. It ends without one only if no source
/// has one; then it gave all records of all sources.
pub proof fn law_merge_meets_fault(queues: Seq<(Seq<Entry>, Option<Fault>)>)
    ensures
        merged_until(queues).1 is None ==> (forall|i: int|
            0 <= i < queues.len() ==> (#[trigger] queues[i]).1 is None) && merged_until(
            queues,
        ).0.to_multiset() == flat(runs_of(queues)).to_multiset(),
        (exists|i: int| 0 <= i < queues.len() && (#[trigger] queues[i]).1 is Some) ==> merged_until(
            queues,
        ).1 is Some,
    decreases total(runs_of(queues)),
{
    lemma_merge_clean_only(queues);
    if merged_until(queues).1 is None {
        lemma_merged_clean(queues);
        law_merge_keeps_entries(runs_of(queues));
    }
}

proof fn lemma_merge_clean_only(queues: Seq<(Seq<Entry>, Option<Fault>)>)
    ensures
        merged_until(queues).1 is None ==> forall|i: int|
            0 <= i < queues.len() ==> (#[trigger] queues[i]).1 is None,
    decreases total(runs_of(queues)),
{
    let runs = runs_of(queues);
    let n = queues.len() as int;
    let i = least(runs, n);
    lemma_least(runs, n);
    if fault_due(queues) is None {
        lemma_no_front(queues, n);
        if i < 0 {
            assert forall|j: int| 0 <= j < n implies (#[trigger] queues[j]).1 is None by {
                assert(runs[j].len() == 0);
            }
        } else {
            let next = queues.update(i, (tail(queues[i].0), queues[i].1));
            lemma_total_less(runs, i);
            assert(runs_of(next) =~= without_head(runs, i));
            lemma_merge_clean_only(next);
            if merged_until(queues).1 is None {
                assert forall|j: int| 0 <= j < n implies (#[trigger] queues[j]).1 is None by {
                    assert(next[j].1 == queues[j].1);
                }
            }
        }
    }
}

/// Merger over independent sorted streams.
pub struct KWayMerge<S: RecordStream> {
    streams: Vec<S>,
    /// The pending record of each source.
    heads: Vec<Option<(Vec<u8>, LookupHit)>>,
    primed: bool,
}

/// The entries of an optional pending record.
spec fn pending(head: Option<(Vec<u8>, LookupHit)>) -> Seq<Entry> {
    match head {
        Some(r) => seq![record_entry(r)],
        None => Seq::empty(),
    }
}

impl<S: RecordStream> KWayMerge<S> {
    /// What each source still gives.
    pub closed spec fn queues(&self, fs: &S::Fs) -> Seq<(Seq<Entry>, Option<Fault>)> {
        Seq::new(
            self.streams@.len(),
            |i: int|
                (
                    pending(self.heads@[i]) + self.streams@[i].rest(fs).0,
                    self.streams@[i].rest(fs).1,
                ),
        )
    }

    /// Every source can be pulled from, and a pending record is missing only
    /// where a source is at its end.
    pub closed spec fn wf(&self, fs: &S::Fs) -> bool {
        &&& self.heads@.len() == self.streams@.len()
        &&& forall|i: int| 0 <= i < self.streams@.len() ==> (#[trigger] self.streams@[i]).ready(fs)
        &&& self.primed ==> forall|i: int|
            #![trigger self.heads@[i]]
            0 <= i < self.streams@.len() && self.heads@[i] is None ==> self.streams@[i].rest(
                fs,
            ) == (Seq::<Entry>::empty(), None::<Fault>)
        &&& !self.primed ==> forall|i: int|
            0 <= i < self.streams@.len() ==> (#[trigger] self.heads@[i]) is None
    }

    /// Number of input streams.
    pub closed spec fn inputs(&self) -> nat {
        self.streams@.len()
    }

    /// The files that the sources read.
    pub closed spec fn origins(&self) -> Seq<int> {
        self.streams@.map_values(|s: S| s.origin())
    }

    /// What the merger gives rests on the files of its sources alone.
    pub proof fn lemma_rests_on_origins(&self, a: &S::Fs, b: &S::Fs)
        requires
            self.wf(a),
            forall|i: int|
                #![trigger self.origins()[i]]
                0 <= i < self.origins().len() ==> S::stored(a, self.origins()[i]) == S::stored(
                    b,
                    self.origins()[i],
                ),
        ensures
            self.queues(a) == self.queues(b),
            self.wf(b),
    {
        assert forall|i: int| #![trigger self.streams@[i]] 0 <= i < self.streams@.len() implies self.streams@[i].rest(
        a) == self.streams@[i].rest(b) && self.streams@[i].ready(a) == self.streams@[i].ready(b) by {
            assert(self.origins()[i] == self.streams@[i].origin());
            self.streams@[i].lemma_rests_on_origin(a, b);
        }
        assert(self.queues(a) =~= self.queues(b));
    }

    /// Build a merger from the given input streams, newest first.
    pub fn new(streams: Vec<S>) -> (m: KWayMerge<S>)
        ensures
            m.inputs() == streams@.len(),
            forall|fs: &S::Fs|
                (forall|i: int| 0 <= i < streams@.len() ==> (#[trigger] streams@[i]).ready(fs))
                    ==> #[trigger] m.wf(fs),
            forall|fs: &S::Fs|
                #[trigger] m.queues(fs) == streams@.map_values(|s: S| s.rest(fs)),
            m.origins() == streams@.map_values(|s: S| s.origin()),
    {
        let n: usize = streams.len();
        let mut heads: Vec<Option<(Vec<u8>, LookupHit)>> = Vec::new();
        let mut i: usize = 0;
        while i < n
            invariant
                i <= n,
                heads@.len() == i,
                forall|j: int| 0 <= j < i ==> (#[trigger] heads@[j]) is None,
            decreases n - i,
        {
            heads.push(None);
            i += 1;
        }
        let m = KWayMerge { streams, heads, primed: false };
        proof {
            assert forall|fs: &S::Fs|
                #[trigger] m.queues(fs) == streams@.map_values(|s: S| s.rest(fs)) by {
                let want = streams@.map_values(|s: S| s.rest(fs));
                assert forall|j: int| 0 <= j < want.len() implies #[trigger] m.queues(fs)[j]
                    == want[j] by {
                    assert(m.heads@[j] is None);
                    assert(Seq::<Entry>::empty() + streams@[j].rest(fs).0 =~= streams@[j].rest(
                        fs,
                    ).0);
                }
                assert(m.queues(fs) =~= want);
            }
        }
        m
    }

    /// Number of input streams.
    pub fn input_count(&self) -> (n: usize)
        ensures
            n == self.inputs(),
    {
        self.streams.len()
    }

    /// Pull the next record from `source` and keep it pending.
    fn advance(&mut self, fs: &S::Fs, source: usize) -> (r: Result<bool>)
        requires
            old(self).heads@.len() == old(self).streams@.len(),
            source < old(self).streams@.len(),
            old(self).heads@[source as int] is None,
            forall|i: int|
                0 <= i < old(self).streams@.len() ==> (#[trigger] old(self).streams@[i]).ready(fs),
        ensures
            final(self).primed == old(self).primed,
            final(self).heads@.len() == final(self).streams@.len(),
            final(self).streams@.len() == old(self).streams@.len(),
            forall|i: int|
                0 <= i < final(self).streams@.len() ==> (#[trigger] final(self).streams@[i]).ready(
                    fs,
                ),
            forall|i: int|
                #![trigger final(self).heads@[i]]
                0 <= i < final(self).streams@.len() && i != source ==> final(self).heads@[i]
                    == old(self).heads@[i],
            forall|i: int|
                #![trigger final(self).streams@[i]]
                0 <= i < final(self).streams@.len() && i != source ==> final(self).streams@[i]
                    == old(self).streams@[i],
            r is Ok ==> pending(final(self).heads@[source as int]) + final(self).streams@[source as int].rest(fs).0 == old(self).streams@[source as int].rest(fs).0
                && final(self).streams@[source as int].rest(fs).1 == old(self).streams@[source as int].rest(fs).1,
            r is Ok && final(self).heads@[source as int] is None ==> final(self).streams@[source as int].rest(fs) == (Seq::<Entry>::empty(), None::<Fault>),
            r matches Ok(more) ==> more == final(self).heads@[source as int] is Some,
            final(self).origins() == old(self).origins(),
            match old(self).streams@[source as int].rest(fs).1 {
                Some(f) => if old(self).streams@[source as int].rest(fs).0.len() == 0 {
                    failed_with(r, f, S::reliable(fs))
                } else {
                    r is Ok || failed_io(r, S::reliable(fs))
                },
                None => r is Ok || failed_io(r, S::reliable(fs)),
            },
    {
        let ghost rest0 = self.streams@[source as int].rest(fs);
        let pulled = self.streams[source].next_record(fs);
        assert(self.origins() =~= old(self).origins());
        match pulled {
            Err(e) => Err(e),
            Ok(None) => {
                proof {
                    assert(pending(self.heads@[source as int]) + self.streams@[source as int].rest(
                        fs,
                    ).0 =~= rest0.0);
                }
                Ok(false)
            },
            Ok(Some(rec)) => {
                self.heads.set(source, Some(rec));
                proof {
                    assert(pending(self.heads@[source as int]) + self.streams@[source as int].rest(
                        fs,
                    ).0 =~= rest0.0);
                }
                Ok(true)
            },
        }
    }
}

/// A fault at the front of a source stays the first one however many sources
/// follow.
proof fn lemma_front_fault(queues: Seq<(Seq<Entry>, Option<Fault>)>, i: int, n: int)
    requires
        0 <= i <= n <= queues.len(),
        front_fault(queues, i) is Some,
    ensures
        front_fault(queues, n) == front_fault(queues, i),
    decreases n - i,
{
    if i < n {
        lemma_front_fault(queues, i, n - 1);
    }
}

/// Sources without faults meet none.
pub proof fn lemma_clean(queues: Seq<(Seq<Entry>, Option<Fault>)>, n: int)
    requires
        0 <= n <= queues.len(),
        forall|i: int| 0 <= i < queues.len() ==> (#[trigger] queues[i]).1 is None,
    ensures
        front_fault(queues, n) is None,
        n == queues.len() ==> fault_due(queues) is None,
    decreases n,
{
    if n > 0 {
        lemma_clean(queues, n - 1);
    }
    lemma_least(runs_of(queues), queues.len() as int);
}

impl<S: RecordStream> KWayMerge<S> {
    /// Initial fill of the pending records.
    fn prime(&mut self, fs: &S::Fs) -> (r: Result<()>)
        requires
            old(self).wf(fs),
        ensures
            final(self).inputs() == old(self).inputs(),
            final(self).origins() == old(self).origins(),
            r is Ok ==> final(self).wf(fs) && final(self).primed && final(self).queues(fs) == old(self).queues(fs),
            match front_fault(old(self).queues(fs), old(self).queues(fs).len() as int) {
                Some(f) => failed_with(r, f, S::reliable(fs)),
                None => r is Ok || failed_io(r, S::reliable(fs)),
            },
    {
        let ghost queues = self.queues(fs);
        if self.primed {
            proof {
                self.lemma_no_front_fault(fs, queues.len() as int);
            }
            return Ok(());
        }
        let n: usize = self.streams.len();
        let mut source: usize = 0;
        while source < n
            invariant
                source <= n,
                n == self.streams@.len(),
                n == queues.len(),
                n == old(self).inputs(),
                self.origins() == old(self).origins(),
                queues == old(self).queues(fs),
                self.heads@.len() == n,
                !self.primed,
                forall|i: int| 0 <= i < n ==> (#[trigger] self.streams@[i]).ready(fs),
                forall|i: int|
                    #![trigger self.heads@[i]]
                    0 <= i < n ==> queues[i] == (
                        pending(self.heads@[i]) + self.streams@[i].rest(fs).0,
                        self.streams@[i].rest(fs).1,
                    ),
                forall|i: int|
                    #![trigger self.heads@[i]]
                    0 <= i < source && self.heads@[i] is None ==> self.streams@[i].rest(fs) == (
                        Seq::<Entry>::empty(),
                        None::<Fault>,
                    ),
                forall|i: int| source <= i < n ==> (#[trigger] self.heads@[i]) is None,
                front_fault(queues, source as int) is None,
            decreases n - source,
        {
            let ghost before = *self;
            proof {
                assert(self.heads@[source as int] is None);
                assert(Seq::<Entry>::empty() + self.streams@[source as int].rest(fs).0
                    =~= self.streams@[source as int].rest(fs).0);
            }
            match self.advance(fs, source) {
                Err(e) => {
                    proof {
                        if front_fault(queues, source + 1) is Some {
                            lemma_front_fault(queues, source + 1, n as int);
                        }
                    }
                    return Err(e);
                },
                Ok(_) => {},
            }
            proof {
                assert forall|i: int| #![trigger self.heads@[i]] 0 <= i < n implies queues[i] == (
                    pending(self.heads@[i]) + self.streams@[i].rest(fs).0,
                    self.streams@[i].rest(fs).1,
                ) by {
                    if i != source {
                        assert(self.heads@[i] == before.heads@[i]);
                        assert(self.streams@[i] == before.streams@[i]);
                    }
                }
                assert forall|i: int|
                    #![trigger self.heads@[i]]
                    0 <= i < source + 1 && self.heads@[i] is None implies self.streams@[i].rest(fs)
                    == (Seq::<Entry>::empty(), None::<Fault>) by {
                    if i != source {
                        assert(self.heads@[i] == before.heads@[i]);
                        assert(self.streams@[i] == before.streams@[i]);
                    }
                }
                assert forall|i: int| source + 1 <= i < n implies (#[trigger] self.heads@[i]) is None by {
                    assert(self.heads@[i] == before.heads@[i]);
                }
                if queues[source as int].0.len() == 0 {
                    assert(queues[source as int].1 is None);
                }
            }
            source += 1;
        }
        self.primed = true;
        assert(self.queues(fs) =~= queues);
        Ok(())
    }

    /// A primed merger has met every fault at the front of a source.
    proof fn lemma_no_front_fault(&self, fs: &S::Fs, n: int)
        requires
            self.wf(fs),
            self.primed,
            0 <= n <= self.streams@.len(),
        ensures
            front_fault(self.queues(fs), n) is None,
        decreases n,
    {
        if n > 0 {
            self.lemma_no_front_fault(fs, n - 1);
            let h = self.heads@[n - 1];
            if h is Some {
                assert(self.queues(fs)[n - 1].0.len() >= 1);
            }
        }
    }

    /// The source whose pending record comes first.
    fn first_source(&self, fs: Ghost<&S::Fs>) -> (r: Option<usize>)
        requires
            self.wf(fs@),
            self.primed,
        ensures
            match r {
                Some(i) => i == least(runs_of(self.queues(fs@)), self.inputs() as int) && i
                    < self.streams@.len() && self.heads@[i as int] is Some,
                None => least(runs_of(self.queues(fs@)), self.inputs() as int) < 0,
            },
    {
        let ghost runs = runs_of(self.queues(fs@));
        let n: usize = self.streams.len();
        let mut best: Option<usize> = None;
        let mut i: usize = 0;
        while i < n
            invariant
                i <= n,
                n == self.streams@.len(),
                self.wf(fs@),
                self.primed,
                runs == runs_of(self.queues(fs@)),
                match best {
                    Some(b) => b == least(runs, i as int) && b < n && self.heads@[b as int] is Some,
                    None => least(runs, i as int) < 0,
                },
            decreases n - i,
        {
            proof {
                lemma_least(runs, i as int);
                assert(runs[i as int] == pending(self.heads@[i as int]) + self.streams@[i as int].rest(
                    fs@,
                ).0);
                if best is Some {
                    let b = best->0 as int;
                    assert(runs[b] == pending(self.heads@[b]) + self.streams@[b].rest(fs@).0);
                    assert(runs[b][0] == record_entry(self.heads@[b]->0));
                }
                if self.heads@[i as int] is Some {
                    assert(runs[i as int][0] == record_entry(self.heads@[i as int]->0));
                }
            }
            match &self.heads[i] {
                None => {},
                Some(new) => {
                    let better: bool = match best {
                        None => true,
                        Some(b) => match &self.heads[b] {
                            None => true,
                            Some(old_head) => {
                                match compare_bytes(new.0.as_slice(), old_head.0.as_slice()) {
                                    Order::Less => true,
                                    Order::Equal => {
                                        proof {
                                            lemma_lex_irreflexive(new.0@);
                                        }
                                        new.1.seqno > old_head.1.seqno
                                    },
                                    Order::Greater => {
                                        proof {
                                            lemma_lex_asymmetric(old_head.0@, new.0@);
                                            lemma_lex_irreflexive(new.0@);
                                        }
                                        false
                                    },
                                }
                            },
                        },
                    };
                    if better {
                        best = Some(i);
                    }
                },
            }
            i += 1;
        }
        best
    }

    /// What pulling a record does: the first record of the merge leaves, unless
    /// a fault is due. At the end nothing changes any more.
    pub open spec fn gave(
        before: Self,
        r: Result<Option<(Vec<u8>, LookupHit)>>,
        after: Self,
        fs: &S::Fs,
    ) -> bool {
        let queues = before.queues(fs);
        let runs = runs_of(queues);
        let i = least(runs, runs.len() as int);
        match fault_due(queues) {
            Some(f) => failed_with(r, f, S::reliable(fs)),
            None => if merged(runs).len() == 0 {
                (r matches Ok(x) && x is None && after.queues(fs) == queues) || failed_io(
                    r,
                    S::reliable(fs),
                )
            } else {
                (r matches Ok(Some(rec)) && record_entry(rec) == merged(runs)[0] && after.queues(fs)
                    == queues.update(i, (tail(queues[i].0), queues[i].1)) && merged(
                    runs_of(after.queues(fs)),
                ) == tail(merged(runs))) || failed_io(r, S::reliable(fs))
            },
        }
    }

    /// Where the merger stands after `k` calls.
    #[verifier::rlimit(30)]
    proof fn lemma_after_calls(
        states: Seq<Self>,
        results: Seq<Result<Option<(Vec<u8>, LookupHit)>>>,
        fs: &S::Fs,
        k: int,
    )
        requires
            states.len() == results.len() + 1,
            S::reliable(fs),
            forall|i: int|
                0 <= i < states[0].queues(fs).len() ==> (#[trigger] states[0].queues(fs)[i]).1
                    is None,
            forall|i: int|
                0 <= i < results.len() ==> Self::gave(
                    states[i],
                    #[trigger] results[i],
                    states[i + 1],
                    fs,
                ),
            0 <= k <= results.len(),
        ensures
            ({
                let all = merged(runs_of(states[0].queues(fs)));
                let done = if k < all.len() {
                    k
                } else {
                    all.len() as int
                };
                &&& merged(runs_of(states[k].queues(fs))) == all.subrange(done, all.len() as int)
                &&& forall|i: int|
                    0 <= i < states[k].queues(fs).len() ==> (#[trigger] states[k].queues(fs)[i]).1
                        is None
            }),
        decreases k,
    {
        let all = merged(runs_of(states[0].queues(fs)));
        if k == 0 {
            assert(all.subrange(0, all.len() as int) =~= all);
        } else {
            Self::lemma_after_calls(states, results, fs, k - 1);
            let queues = states[k - 1].queues(fs);
            let runs = runs_of(queues);
            let least_run = least(runs, runs.len() as int);
            assert(Self::gave(states[k - 1], results[k - 1], states[k], fs));
            lemma_clean(queues, queues.len() as int);
            lemma_least(runs, runs.len() as int);
            if merged(runs).len() > 0 {
                assert(tail(merged(runs)) =~= all.subrange(k, all.len() as int));
                let next = states[k].queues(fs);
                assert forall|i: int| 0 <= i < next.len() implies (#[trigger] next[i]).1 is None by {
                    assert(queues[i].1 is None);
                }
            }
        }
    }

    /// Law: pulling from sources that have no fault gives the merge of their
    /// runs, one record a call, and then nothing, however often it is asked.
    pub proof fn law_pulls_give_the_merge(
        states: Seq<Self>,
        results: Seq<Result<Option<(Vec<u8>, LookupHit)>>>,
        fs: &S::Fs,
    )
        requires
            states.len() == results.len() + 1,
            S::reliable(fs),
            forall|i: int|
                0 <= i < states[0].queues(fs).len() ==> (#[trigger] states[0].queues(fs)[i]).1
                    is None,
            forall|i: int|
                0 <= i < results.len() ==> Self::gave(
                    states[i],
                    #[trigger] results[i],
                    states[i + 1],
                    fs,
                ),
        ensures
            ({
                let all = merged(runs_of(states[0].queues(fs)));
                forall|i: int|
                    #![trigger results[i]]
                    0 <= i < results.len() ==> if i < all.len() {
                        results[i] matches Ok(Some(rec)) && record_entry(rec) == all[i]
                    } else {
                        results[i] matches Ok(x) && x is None
                    }
            }),
    {
        let all = merged(runs_of(states[0].queues(fs)));
        assert forall|i: int| #![trigger results[i]] 0 <= i < results.len() implies if i
            < all.len() {
            results[i] matches Ok(Some(rec)) && record_entry(rec) == all[i]
        } else {
            results[i] matches Ok(x) && x is None
        } by {
            Self::lemma_after_calls(states, results, fs, i);
            let queues = states[i].queues(fs);
            lemma_clean(queues, queues.len() as int);
            assert(Self::gave(states[i], results[i], states[i + 1], fs));
            if i < all.len() {
                assert(all.subrange(i, all.len() as int)[0] == all[i]);
            }
        }
    }

    /// Pull the next merged record, or `Ok(None)` when every input is drained.
    pub fn next_record(&mut self, fs: &S::Fs) -> (r: Result<Option<(Vec<u8>, LookupHit)>>)
        requires
            old(self).wf(fs),
        ensures
            final(self).inputs() == old(self).inputs(),
            final(self).origins() == old(self).origins(),
            r is Ok ==> final(self).wf(fs),
            Self::gave(*old(self), r, *final(self), fs),
    {
        let ghost queues = self.queues(fs);
        let ghost runs = runs_of(queues);
        match self.prime(fs) {
            Ok(()) => {},
            Err(e) => {
                return Err(e);
            },
        }
        let ghost primed = *self;
        proof {
            lemma_least(runs, runs.len() as int);
        }
        let source: usize = match self.first_source(Ghost(fs)) {
            None => {
                return Ok(None);
            },
            Some(i) => i,
        };
        let mut top: Option<(Vec<u8>, LookupHit)> = None;
        std::mem::swap(&mut top, &mut self.heads[source]);
        let ghost i = source as int;
        proof {
            assert(queues[i] == (
                pending(primed.heads@[i]) + primed.streams@[i].rest(fs).0,
                primed.streams@[i].rest(fs).1,
            ));
            assert(tail(queues[i].0) =~= primed.streams@[i].rest(fs).0);
            assert(queues[i].0[0] == record_entry(top->0));
            assert(runs[i] == queues[i].0);
            assert(merged(runs)[0] == runs[i][0]);
            assert(tail(merged(runs)) =~= merged(without_head(runs, i)));
        }
        match self.advance(fs, source) {
            Err(e) => {
                return Err(e);
            },
            Ok(_) => {},
        }
        proof {
            let after = self.queues(fs);
            let want = queues.update(i, (tail(queues[i].0), queues[i].1));
            assert forall|j: int| 0 <= j < want.len() implies #[trigger] after[j] == want[j] by {
                if j != i {
                    assert(self.heads@[j] == primed.heads@[j]);
                    assert(self.streams@[j] == primed.streams@[j]);
                }
            }
            assert(after =~= want);
            assert(runs_of(after) =~= without_head(runs, i));
            assert forall|j: int|
                #![trigger self.heads@[j]]
                0 <= j < self.streams@.len() && self.heads@[j] is None implies self.streams@[j].rest(
            fs) == (Seq::<Entry>::empty(), None::<Fault>) by {
                if j != i {
                    assert(self.heads@[j] == primed.heads@[j]);
                    assert(self.streams@[j] == primed.streams@[j]);
                }
            }
        }
        Ok(top)
    }
}

} // verus!
