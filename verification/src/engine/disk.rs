//! What a data directory holds.
//!
//! A directory holds WAL segments and tables. The tables hold the history of
//! writes up to some sequence number; what came after it is in the segments.
//! A segment may still hold records that a table holds too: replay passes
//! over them by their sequence numbers.
use vstd::prelude::*;

use crate::compaction::compact::wrote_file;
use crate::compaction::merger::{law_merge_keeps_entries, merged};
use crate::crypto::kdf::sstable_key;
use crate::engine::history::{
    answer_in, applied, batch_entries, covers, cuts_ok, layers_ok, lemma_answer_is_entry,
    lemma_batch_entries, lemma_layers_below, lemma_lookup_earlier, lemma_lower_layers,
    lemma_write_batch, settled, stack_ok, within,
};
use crate::engine::names::{
    law_names_round_trip, lemma_name_shape, lemma_path_names, lemma_paths_differ, parse_sst,
    parse_wal_name, path_in, sst_name, table_path, wal_name, wal_path,
};
use crate::io::vfs::FsState;
use crate::model::{lemma_lookup_concat, lemma_lookup_sound, lookup, sorted, Entry};
use crate::sstable::table::{flat, is_table, CryptoView};
use crate::wal::batch::{parse_batch, OpView};
use crate::wal::format::SEGMENT_HEADER_SIZE;
use crate::wal::reader::{parse_segment, replay_from, LogRecord};

verus! {

/// A WAL segment.
#[verifier::ext_equal]
pub struct Segment {
    /// File number.
    pub id: u64,
    /// The records that replay gives.
    pub records: Seq<LogRecord>,
}

/// A table.
#[verifier::ext_equal]
pub struct TableFile {
    /// File number.
    pub id: u64,
    /// The entries, in order.
    pub run: Seq<Entry>,
}

/// What a data directory holds.
#[verifier::ext_equal]
pub struct Disk {
    /// The segments, oldest first.
    pub segments: Seq<Segment>,
    /// The tables, newest first.
    pub tables: Seq<TableFile>,
    /// The cuts between the tables' intervals of sequence numbers.
    pub cuts: Seq<int>,
}

// ----- Records -----

/// The operations of a record.
pub open spec fn record_ops(r: LogRecord) -> Seq<OpView> {
    match parse_batch(r.payload) {
        Ok(ops) => ops,
        Err(_) => Seq::empty(),
    }
}

/// The history that records stand for, newest first. Records up to `floor`
/// are passed over.
pub open spec fn wal_log(records: Seq<LogRecord>, floor: u64) -> Seq<Entry>
    decreases records.len(),
{
    if records.len() == 0 {
        Seq::empty()
    } else {
        let before = wal_log(records.drop_last(), floor);
        let r = records.last();
        if r.seqno > floor {
            batch_entries(r.seqno, record_ops(r)) + before
        } else {
            before
        }
    }
}

/// The memtable that replaying records gives. Records up to `floor` are
/// passed over.
pub open spec fn replayed(records: Seq<LogRecord>, floor: u64) -> Seq<Entry>
    decreases records.len(),
{
    if records.len() == 0 {
        Seq::empty()
    } else {
        let before = replayed(records.drop_last(), floor);
        let r = records.last();
        if r.seqno > floor {
            applied(before, r.seqno, record_ops(r))
        } else {
            before
        }
    }
}

/// Sequence numbers increase.
pub open spec fn increasing(records: Seq<LogRecord>) -> bool {
    forall|i: int, j: int|
        #![trigger records[i], records[j]]
        0 <= i < j < records.len() ==> records[i].seqno < records[j].seqno
}

/// The last sequence number, or -1.
pub open spec fn last_seqno(records: Seq<LogRecord>) -> int {
    if records.len() == 0 {
        -1
    } else {
        records.last().seqno as int
    }
}

/// The greatest sequence number of a run, or 0.
pub open spec fn top_of(run: Seq<Entry>) -> u64
    decreases run.len(),
{
    if run.len() == 0 {
        0
    } else {
        let before = top_of(run.drop_last());
        if run.last().seqno > before {
            run.last().seqno
        } else {
            before
        }
    }
}

/// The greatest sequence number of several runs, or 0.
pub open spec fn floor_of(runs: Seq<Seq<Entry>>) -> u64
    decreases runs.len(),
{
    if runs.len() == 0 {
        0
    } else {
        let before = floor_of(runs.drop_last());
        let here = top_of(runs.last());
        if here > before {
            here
        } else {
            before
        }
    }
}

/// The last sequence number that the files of a directory know of, or 0.
pub open spec fn disk_top(disk: Disk) -> u64 {
    let floor = floor_of(runs(disk.tables));
    let last = last_seqno(all_records(disk.segments));
    if last > floor {
        last as u64
    } else {
        floor
    }
}

/// Some answer of the history has the last sequence number `top`: the last
/// write was not empty.
pub open spec fn counted(log: Seq<Entry>, top: u64) -> bool {
    top == 0 || exists|key: Seq<u8>|
        (#[trigger] lookup(log, key, top)) is Some && lookup(log, key, top)->0.seqno == top
}

/// The memtable can take the operation.
pub open spec fn op_fits(op: OpView) -> bool {
    match op {
        OpView::Put { key, value } => key.len() + value.len() + 152 <= usize::MAX,
        OpView::Delete { key } => key.len() + 152 <= usize::MAX,
    }
}

/// The record holds a batch that the memtable can take.
pub open spec fn readable(r: LogRecord) -> bool {
    parse_batch(r.payload) matches Ok(ops) && forall|i: int|
        0 <= i < ops.len() ==> op_fits(#[trigger] ops[i])
}

/// The records of all segments, in order.
pub open spec fn all_records(segments: Seq<Segment>) -> Seq<LogRecord>
    decreases segments.len(),
{
    if segments.len() == 0 {
        Seq::empty()
    } else {
        all_records(segments.drop_last()) + segments.last().records
    }
}

/// The runs of tables.
pub open spec fn runs(tables: Seq<TableFile>) -> Seq<Seq<Entry>> {
    tables.map_values(|t: TableFile| t.run)
}

// ----- Files -----

/// The bytes under `path`, if it names a file.
pub open spec fn stored(state: FsState, path: Seq<char>) -> Option<Seq<u8>> {
    if state.names.dom().contains(path) {
        Some(state.content(path))
    } else {
        None
    }
}

/// Every name leads to a file, and no two names to the same one.
pub open spec fn names_ok(state: FsState) -> bool {
    &&& forall|p: Seq<char>|
        #![trigger state.names[p]]
        state.names.dom().contains(p) ==> state.files.dom().contains(state.names[p])
    &&& forall|p: Seq<char>, q: Seq<char>|
        #![trigger state.names[p], state.names[q]]
        state.names.dom().contains(p) && state.names.dom().contains(q) && state.names[p]
            == state.names[q] ==> p == q
}

/// Key and identity of table `id` under the master key.
pub open spec fn table_crypto(master: Option<Seq<u8>>, id: u64) -> Option<CryptoView> {
    match master {
        Some(key) => Some(CryptoView { key: sstable_key(key, id), sstable_id: id }),
        None => None,
    }
}

/// `bytes` is a segment file from which `records` are replayed.
pub open spec fn segment_ok(bytes: Seq<u8>, records: Seq<LogRecord>) -> bool {
    let found = replay_from(bytes.subrange(SEGMENT_HEADER_SIZE as int, bytes.len() as int), 0);
    &&& parse_segment(bytes) is Ok
    &&& found.0 == records
    &&& found.1 !is Bad
    &&& forall|i: int| 0 <= i < records.len() ==> readable(#[trigger] records[i])
}

/// The directory lists nothing that looks like a segment or a table but the
/// disk's own, each under its own name.
pub open spec fn listed(state: FsState, dir: Seq<char>, disk: Disk) -> bool {
    forall|name: Seq<char>|
        #![trigger path_in(dir, name)]
        state.names.dom().contains(path_in(dir, name)) && !name.contains('/') ==> {
            &&& parse_wal_name(name) matches Some(id) ==> name == wal_name(id) && exists|i: int|
                0 <= i < disk.segments.len() && #[trigger] disk.segments[i].id == id
            &&& parse_sst(name) matches Some(id) ==> name == sst_name(id) && exists|i: int|
                0 <= i < disk.tables.len() && #[trigger] disk.tables[i].id == id
        }
}

/// The directory's files are those of `disk`.
#[verifier::opaque]
pub open spec fn files_ok(
    state: FsState,
    dir: Seq<char>,
    master: Option<Seq<u8>>,
    disk: Disk,
) -> bool {
    &&& dir.len() > 0 ==> dir.last() != '/'
    &&& names_ok(state)
    &&& listed(state, dir, disk)
    &&& forall|i: int, j: int|
        #![trigger disk.segments[i], disk.segments[j]]
        0 <= i < j < disk.segments.len() ==> disk.segments[i].id < disk.segments[j].id
    &&& forall|i: int, j: int|
        #![trigger disk.tables[i], disk.tables[j]]
        0 <= i < j < disk.tables.len() ==> disk.tables[i].id > disk.tables[j].id
    &&& forall|i: int|
        #![trigger disk.segments[i]]
        0 <= i < disk.segments.len() ==> (stored(state, wal_path(dir, disk.segments[i].id)) matches Some(
            b,
        ) && segment_ok(b, disk.segments[i].records))
    &&& forall|i: int|
        #![trigger disk.tables[i]]
        0 <= i < disk.tables.len() ==> (stored(state, table_path(dir, disk.tables[i].id)) matches Some(
            b,
        ) && is_table(b, table_crypto(master, disk.tables[i].id), disk.tables[i].run))
}

// ----- History -----

/// What the records say of the history beyond the tables' cut.
pub open spec fn records_cover(
    records: Seq<LogRecord>,
    floor: u64,
    log: Seq<Entry>,
    cut: int,
) -> bool {
    forall|key: Seq<u8>, snapshot: u64|
        #[trigger] lookup(wal_log(records, floor), key, snapshot) == answer_in(
            log,
            key,
            snapshot,
            cut,
            u64::MAX as int,
        )
}

/// Segments and tables together hold the history.
pub open spec fn history_ok(disk: Disk, log: Seq<Entry>) -> bool {
    &&& increasing(all_records(disk.segments))
    &&& stack_ok(runs(disk.tables), disk.cuts, log)
    &&& records_cover(
        all_records(disk.segments),
        floor_of(runs(disk.tables)),
        log,
        disk.cuts[0],
    )
}

/// The directory holds the history: its files are those of `disk`, and what
/// is in them makes it up.
pub open spec fn disk_ok(
    state: FsState,
    dir: Seq<char>,
    master: Option<Seq<u8>>,
    disk: Disk,
    log: Seq<Entry>,
) -> bool {
    &&& files_ok(state, dir, master, disk)
    &&& history_ok(disk, log)
}

/// The directory holds the history.
pub open spec fn disk_holds(
    state: FsState,
    dir: Seq<char>,
    master: Option<Seq<u8>>,
    log: Seq<Entry>,
) -> bool {
    exists|disk: Disk| #[trigger] disk_ok(state, dir, master, disk, log)
}

// ----- Lemmas on records -----

/// Replayed entries lie between the floor and the last record.
pub proof fn lemma_wal_within(records: Seq<LogRecord>, floor: u64)
    requires
        increasing(records),
    ensures
        within(wal_log(records, floor), floor as int, last_seqno(records)),
    decreases records.len(),
{
    if records.len() > 0 {
        let less = records.drop_last();
        let r = records.last();
        assert forall|i: int, j: int|
            #![trigger less[i], less[j]]
            0 <= i < j < less.len() implies less[i].seqno < less[j].seqno by {
            assert(records[i].seqno < records[j].seqno);
        }
        lemma_wal_within(less, floor);
        if less.len() > 0 {
            assert(records[less.len() - 1].seqno < records[records.len() - 1].seqno);
        }
        lemma_batch_entries(r.seqno, record_ops(r));
        let all = wal_log(records, floor);
        let batch = batch_entries(r.seqno, record_ops(r));
        let before = wal_log(less, floor);
        assert forall|i: int| #![trigger all[i]] 0 <= i < all.len() implies floor < all[i].seqno
            <= last_seqno(records) by {
            if r.seqno > floor {
                if i < batch.len() {
                    assert(all[i] == batch[i]);
                } else {
                    assert(all[i] == before[i - batch.len()]);
                }
            } else {
                assert(all[i] == before[i]);
            }
        }
    }
}

/// A higher floor lets through what is above it.
pub proof fn lemma_wal_filter(
    records: Seq<LogRecord>,
    floor: u64,
    higher: u64,
    key: Seq<u8>,
    snapshot: u64,
)
    requires
        increasing(records),
        floor <= higher,
    ensures
        lookup(wal_log(records, higher), key, snapshot) == (match lookup(
            wal_log(records, floor),
            key,
            snapshot,
        ) {
            Some(e) => if e.seqno > higher {
                Some(e)
            } else {
                None
            },
            None => None,
        }),
    decreases records.len(),
{
    if records.len() > 0 {
        let less = records.drop_last();
        let r = records.last();
        assert forall|i: int, j: int|
            #![trigger less[i], less[j]]
            0 <= i < j < less.len() implies less[i].seqno < less[j].seqno by {
            assert(records[i].seqno < records[j].seqno);
        }
        lemma_wal_filter(less, floor, higher, key, snapshot);
        let batch = batch_entries(r.seqno, record_ops(r));
        lemma_lookup_concat(batch, wal_log(less, floor), key, snapshot);
        lemma_lookup_concat(batch, wal_log(less, higher), key, snapshot);
        lemma_batch_entries(r.seqno, record_ops(r));
        let i = lemma_lookup_sound(batch, key, snapshot);
        if r.seqno > higher {
        } else if r.seqno > floor {
            lemma_wal_within(less, higher);
            lemma_wal_within(less, floor);
            if less.len() > 0 {
                assert(records[less.len() - 1].seqno < records[records.len() - 1].seqno);
            }
            let high = wal_log(less, higher);
            assert(high.len() == 0) by {
                if high.len() > 0 {
                    assert(higher < high[0].seqno <= last_seqno(less));
                }
            }
            let k = lemma_lookup_sound(wal_log(records, floor), key, snapshot);
            lemma_wal_within(records, floor);
        }
    }
}

/// Replaying one record list after another.
pub proof fn lemma_wal_concat(a: Seq<LogRecord>, b: Seq<LogRecord>, floor: u64)
    ensures
        wal_log(a + b, floor) == wal_log(b, floor) + wal_log(a, floor),
    decreases b.len(),
{
    if b.len() == 0 {
        assert(a + b =~= a);
        assert(wal_log(b, floor) + wal_log(a, floor) =~= wal_log(a, floor));
    } else {
        lemma_wal_concat(a, b.drop_last(), floor);
        assert((a + b).drop_last() =~= a + b.drop_last());
        assert((a + b).last() == b.last());
        let batch = batch_entries(b.last().seqno, record_ops(b.last()));
        assert(batch + (wal_log(b.drop_last(), floor) + wal_log(a, floor)) =~= (batch + wal_log(
            b.drop_last(),
            floor,
        )) + wal_log(a, floor));
    }
}

/// The memtable that replay gives answers as the records' history does.
pub proof fn lemma_replayed(records: Seq<LogRecord>, floor: u64)
    requires
        increasing(records),
    ensures
        layers_ok(
            seq![replayed(records, floor)],
            seq![last_seqno(records), -1],
            wal_log(records, floor),
        ),
        sorted(replayed(records, floor)),
    decreases records.len(),
{
    let layers = seq![replayed(records, floor)];
    let cuts = seq![last_seqno(records), -1int];
    let log = wal_log(records, floor);
    if records.len() == 0 {
        assert(covers(layers[0], log, cuts[1], cuts[0]));
    } else {
        let less = records.drop_last();
        let r = records.last();
        assert forall|i: int, j: int|
            #![trigger less[i], less[j]]
            0 <= i < j < less.len() implies less[i].seqno < less[j].seqno by {
            assert(records[i].seqno < records[j].seqno);
        }
        lemma_replayed(less, floor);
        if less.len() > 0 {
            assert(records[less.len() - 1].seqno < records[records.len() - 1].seqno);
        }
        let layers0 = seq![replayed(less, floor)];
        let cuts0 = seq![last_seqno(less), -1int];
        let log0 = wal_log(less, floor);
        let ops = if r.seqno > floor {
            record_ops(r)
        } else {
            Seq::empty()
        };
        lemma_write_batch(layers0, cuts0, log0, r.seqno, ops);
        assert(batch_entries(r.seqno, Seq::<OpView>::empty()) + log0 =~= log0);
        assert(layers0.update(0, applied(layers0[0], r.seqno, ops)) =~= layers);
        assert(cuts0.update(0, r.seqno as int) =~= cuts);
    }
}

/// The records of segments, split at one of them.
pub proof fn lemma_records_split(segments: Seq<Segment>, i: int)
    requires
        0 <= i < segments.len(),
    ensures
        all_records(segments) == all_records(segments.subrange(0, i)) + segments[i].records
            + all_records(segments.subrange(i + 1, segments.len() as int)),
    decreases segments.len(),
{
    let n = segments.len() as int;
    let front = segments.drop_last();
    if i == n - 1 {
        assert(segments.subrange(0, i) =~= front);
        assert(segments.subrange(i + 1, n) =~= Seq::empty());
        assert(all_records(segments) =~= all_records(front) + segments[i].records + all_records(
            segments.subrange(i + 1, n),
        ));
    } else {
        lemma_records_split(front, i);
        assert(front.subrange(0, i) =~= segments.subrange(0, i));
        let rest = segments.subrange(i + 1, n);
        assert(rest.drop_last() =~= front.subrange(i + 1, n - 1));
        assert(rest.last() == segments.last());
        assert(front[i] == segments[i]);
        assert(all_records(segments) =~= all_records(segments.subrange(0, i)) + segments[i].records
            + all_records(rest));
    }
}

/// The records of segments with one of them taken out.
pub proof fn lemma_records_without(segments: Seq<Segment>, i: int)
    requires
        0 <= i < segments.len(),
    ensures
        all_records(segments.remove(i)) == all_records(segments.subrange(0, i)) + all_records(
            segments.subrange(i + 1, segments.len() as int),
        ),
    decreases segments.len(),
{
    let n = segments.len() as int;
    let less = segments.remove(i);
    let rest = segments.subrange(i + 1, n);
    if i == n - 1 {
        assert(less =~= segments.subrange(0, i));
        assert(rest =~= Seq::empty());
        assert(all_records(less) =~= all_records(segments.subrange(0, i)) + all_records(rest));
    } else {
        let front = segments.drop_last();
        lemma_records_without(front, i);
        assert(less.drop_last() =~= front.remove(i));
        assert(less.last() == segments.last());
        assert(front.subrange(0, i) =~= segments.subrange(0, i));
        assert(rest.drop_last() =~= front.subrange(i + 1, n - 1));
        assert(rest.last() == segments.last());
        assert(all_records(less) =~= all_records(segments.subrange(0, i)) + all_records(rest));
    }
}

// ----- Lemmas on runs -----

/// One run alone.
pub proof fn lemma_flat_one(run: Seq<Entry>)
    ensures
        flat(seq![run]) == run,
{
    let one = seq![run];
    assert(one.drop_last() =~= Seq::empty());
    assert(flat(one.drop_last()) =~= Seq::empty());
    assert(one.last() == run);
    assert(flat(one) =~= run);
}

/// The top of a run bounds it, and is no higher than any other bound.
pub proof fn lemma_top(run: Seq<Entry>, hi: int)
    ensures
        within(run, -1, top_of(run) as int),
        within(run, -1, hi) && hi >= 0 ==> top_of(run) <= hi,
        top_of(run) > 0 ==> exists|i: int|
            0 <= i < run.len() && #[trigger] run[i].seqno == top_of(run),
    decreases run.len(),
{
    if run.len() > 0 {
        let less = run.drop_last();
        lemma_top(less, hi);
        assert forall|i: int| #![trigger run[i]] 0 <= i < run.len() implies -1 < run[i].seqno
            <= top_of(run) by {
            if i < less.len() {
                assert(run[i] == less[i]);
            }
        }
        if within(run, -1, hi) && hi >= 0 {
            assert(run[run.len() - 1].seqno <= hi);
            assert forall|i: int| #![trigger less[i]] 0 <= i < less.len() implies -1
                < less[i].seqno <= hi by {
                assert(less[i] == run[i]);
            }
        }
        if top_of(run) > 0 {
            if run.last().seqno > top_of(less) {
                assert(run[run.len() - 1].seqno == top_of(run));
            } else {
                let k = choose|i: int|
                    0 <= i < less.len() && #[trigger] less[i].seqno == top_of(less);
                assert(run[k] == less[k]);
            }
        }
    }
}

/// The floor of runs bounds them, and is no higher than any other bound.
pub proof fn lemma_floor(rs: Seq<Seq<Entry>>, hi: int)
    ensures
        within(flat(rs), -1, floor_of(rs) as int),
        within(flat(rs), -1, hi) && hi >= 0 ==> floor_of(rs) <= hi,
    decreases rs.len(),
{
    if rs.len() > 0 {
        let less = rs.drop_last();
        let last = rs.last();
        lemma_floor(less, hi);
        lemma_top(last, hi);
        let all = flat(rs);
        let front = flat(less);
        assert(all == front + last);
        assert forall|i: int| #![trigger all[i]] 0 <= i < all.len() implies -1 < all[i].seqno
            <= floor_of(rs) by {
            if i < front.len() {
                assert(all[i] == front[i]);
            } else {
                assert(all[i] == last[i - front.len()]);
            }
        }
        if within(all, -1, hi) && hi >= 0 {
            assert forall|i: int| #![trigger front[i]] 0 <= i < front.len() implies -1
                < front[i].seqno <= hi by {
                assert(front[i] == all[i]);
            }
            assert forall|i: int| #![trigger last[i]] 0 <= i < last.len() implies -1
                < last[i].seqno <= hi by {
                assert(last[i] == all[i + front.len()]);
            }
        }
    }
}

/// Merging runs keeps their floor.
pub proof fn lemma_merge_floor(rs: Seq<Seq<Entry>>)
    ensures
        floor_of(seq![merged(rs)]) == floor_of(rs),
{
    broadcast use vstd::seq_lib::group_to_multiset_ensures;

    let m = merged(rs);
    let f = flat(rs);
    let one = seq![m];
    lemma_flat_one(m);
    law_merge_keeps_entries(rs);
    lemma_floor(rs, floor_of(one) as int);
    lemma_floor(one, floor_of(rs) as int);
    assert forall|i: int| #![trigger m[i]] 0 <= i < m.len() implies -1 < m[i].seqno <= floor_of(
        rs,
    ) by {
        assert(m.contains(m[i]));
        assert(f.to_multiset().count(m[i]) > 0);
        assert(f.contains(m[i]));
        let j = choose|j: int| 0 <= j < f.len() && f[j] == m[i];
        assert(f[j].seqno <= floor_of(rs));
    }
    assert forall|i: int| #![trigger f[i]] 0 <= i < f.len() implies -1 < f[i].seqno <= floor_of(
        one,
    ) by {
        assert(f.contains(f[i]));
        assert(m.to_multiset().count(f[i]) > 0);
        assert(m.contains(f[i]));
        let j = choose|j: int| 0 <= j < m.len() && m[j] == f[i];
        assert(flat(one)[j].seqno <= floor_of(one));
    }
}

// ----- Lemmas on the history -----

/// What tables of a stack hold is below their cut.
pub proof fn lemma_stack_floor(rs: Seq<Seq<Entry>>, cuts: Seq<int>, log: Seq<Entry>)
    requires
        stack_ok(rs, cuts, log),
    ensures
        floor_of(rs) <= cuts[0] || floor_of(rs) == 0,
{
    lemma_lower_layers(rs, cuts, log, 0);
    assert(rs.subrange(0, rs.len() as int) =~= rs);
    if cuts[0] >= 0 {
        lemma_floor(rs, cuts[0]);
    } else {
        assert(flat(rs).len() == 0) by {
            if flat(rs).len() > 0 {
                assert(-1 < flat(rs)[0].seqno <= cuts[0]);
            }
        }
        lemma_floor(rs, 0);
    }
}

/// Tables that reach higher take over what the records said up to there.
pub proof fn lemma_tables_take_over(
    records: Seq<LogRecord>,
    log: Seq<Entry>,
    floor: u64,
    cut: int,
    rs: Seq<Seq<Entry>>,
    cuts: Seq<int>,
)
    requires
        increasing(records),
        records_cover(records, floor, log, cut),
        stack_ok(rs, cuts, log),
        -1 <= cut <= cuts[0],
        floor <= floor_of(rs),
    ensures
        records_cover(records, floor_of(rs), log, cuts[0]),
{
    let higher = floor_of(rs);
    lemma_stack_floor(rs, cuts, log);
    lemma_floor(rs, 0);
    assert forall|key: Seq<u8>, snapshot: u64| #[trigger]
        lookup(wal_log(records, higher), key, snapshot) == answer_in(
            log,
            key,
            snapshot,
            cuts[0],
            u64::MAX as int,
        ) by {
        lemma_wal_filter(records, floor, higher, key, snapshot);
        assert(lookup(wal_log(records, floor), key, snapshot) == answer_in(
            log,
            key,
            snapshot,
            cut,
            u64::MAX as int,
        ));
        match lookup(log, key, snapshot) {
            None => {},
            Some(e) => {
                lemma_answer_is_entry(log, key, snapshot);
                lemma_lookup_earlier(log, key, snapshot, e.seqno);
                if e.seqno > cuts[0] {
                    lemma_wal_within(records, floor);
                    lemma_answer_is_entry(wal_log(records, floor), key, snapshot);
                } else {
                    lemma_layers_below(rs, cuts, log, 0, key, e.seqno);
                    assert(rs.subrange(0, rs.len() as int) =~= rs);
                    lemma_answer_is_entry(flat(rs), key, e.seqno);
                }
            },
        }
    }
}

/// A new record takes the history further.
pub proof fn lemma_record_written(
    records: Seq<LogRecord>,
    log: Seq<Entry>,
    floor: u64,
    cut: int,
    r: LogRecord,
)
    requires
        records_cover(records, floor, log, cut),
        r.seqno > floor,
        r.seqno > cut,
        -1 <= cut,
    ensures
        records_cover(
            records.push(r),
            floor,
            batch_entries(r.seqno, record_ops(r)) + log,
            cut,
        ),
{
    let batch = batch_entries(r.seqno, record_ops(r));
    assert(records.push(r).drop_last() =~= records);
    lemma_batch_entries(r.seqno, record_ops(r));
    assert forall|key: Seq<u8>, snapshot: u64| #[trigger]
        lookup(wal_log(records.push(r), floor), key, snapshot) == answer_in(
            batch + log,
            key,
            snapshot,
            cut,
            u64::MAX as int,
        ) by {
        lemma_lookup_concat(batch, wal_log(records, floor), key, snapshot);
        lemma_lookup_concat(batch, log, key, snapshot);
        let i = lemma_lookup_sound(batch, key, snapshot);
        assert(lookup(wal_log(records, floor), key, snapshot) == answer_in(
            log,
            key,
            snapshot,
            cut,
            u64::MAX as int,
        ));
    }
}

/// A segment that has nothing beyond the tables may go.
#[verifier::rlimit(60)]
pub proof fn lemma_segment_dropped(
    segments: Seq<Segment>,
    i: int,
    log: Seq<Entry>,
    floor: u64,
    cut: int,
)
    requires
        0 <= i < segments.len(),
        increasing(all_records(segments)),
        records_cover(all_records(segments), floor, log, cut),
        forall|j: int|
            #![trigger segments[i].records[j]]
            0 <= j < segments[i].records.len() ==> segments[i].records[j].seqno <= cut,
    ensures
        increasing(all_records(segments.remove(i))),
        records_cover(all_records(segments.remove(i)), floor, log, cut),
{
    let a = all_records(segments.subrange(0, i));
    let m = segments[i].records;
    let b = all_records(segments.subrange(i + 1, segments.len() as int));
    lemma_records_split(segments, i);
    lemma_records_without(segments, i);
    let all = a + m + b;
    let less = a + b;
    assert forall|x: int, y: int|
        #![trigger less[x], less[y]]
        0 <= x < y < less.len() implies less[x].seqno < less[y].seqno by {
        let x0 = if x < a.len() {
            x
        } else {
            x + m.len()
        };
        let y0 = if y < a.len() {
            y
        } else {
            y + m.len()
        };
        assert(all[x0] == less[x]);
        assert(all[y0] == less[y]);
        assert(all[x0].seqno < all[y0].seqno);
    }
    lemma_wal_concat(a + m, b, floor);
    lemma_wal_concat(a, m, floor);
    lemma_wal_concat(a, b, floor);
    let whole = wal_log(all, floor);
    assert(wal_log(m, floor).len() == 0) by {
        if wal_log(m, floor).len() > 0 {
            assert forall|x: int, y: int|
                #![trigger m[x], m[y]]
                0 <= x < y < m.len() implies m[x].seqno < m[y].seqno by {
                assert(all[x + a.len()] == m[x]);
                assert(all[y + a.len()] == m[y]);
                assert(all[x + a.len()].seqno < all[y + a.len()].seqno);
            }
            lemma_wal_within(m, floor);
            let e = wal_log(m, floor)[0];
            assert(e.seqno <= last_seqno(m));
            assert(m[m.len() - 1].seqno <= cut);
            let at = wal_log(b, floor).len() as int;
            assert(whole[at] == e);
            crate::engine::history::lemma_entry_answers(whole, at);
            let found = lookup(whole, e.key, e.seqno);
            lemma_answer_is_entry(whole, e.key, e.seqno);
            assert(found == answer_in(log, e.key, e.seqno, cut, u64::MAX as int));
        }
    }
    assert(wal_log(all, floor) =~= wal_log(less, floor));
}

/// The history of a directory is settled at the last number found in it.
pub proof fn lemma_disk_settled(disk: Disk, log: Seq<Entry>, top: int)
    requires
        history_ok(disk, log),
        top >= floor_of(runs(disk.tables)),
        top >= last_seqno(all_records(disk.segments)),
    ensures
        settled(log, top),
{
    let rs = runs(disk.tables);
    let records = all_records(disk.segments);
    let floor = floor_of(rs);
    lemma_wal_within(records, floor);
    lemma_floor(rs, 0);
    assert forall|key: Seq<u8>, snapshot: u64|
        #![trigger lookup(log, key, snapshot)]
        lookup(log, key, snapshot) matches Some(e) ==> e.seqno <= top by {
        match lookup(log, key, snapshot) {
            None => {},
            Some(e) => {
                lemma_answer_is_entry(log, key, snapshot);
                lemma_lookup_earlier(log, key, snapshot, e.seqno);
                if e.seqno > disk.cuts[0] {
                    assert(lookup(wal_log(records, floor), key, snapshot) == Some(e));
                    lemma_answer_is_entry(wal_log(records, floor), key, snapshot);
                } else {
                    lemma_layers_below(rs, disk.cuts, log, 0, key, e.seqno);
                    assert(rs.subrange(0, rs.len() as int) =~= rs);
                    lemma_answer_is_entry(flat(rs), key, e.seqno);
                }
            },
        }
    }
}

/// Law: the files of a directory that holds a history know its last sequence
/// number, unless the last writes were empty.
pub proof fn law_counter_is_known(disk: Disk, log: Seq<Entry>, top: u64)
    requires
        history_ok(disk, log),
        disk_top(disk) <= top,
        counted(log, top),
    ensures
        disk_top(disk) == top,
{
    lemma_disk_settled(disk, log, disk_top(disk) as int);
    if top > 0 {
        let key = choose|key: Seq<u8>|
            (#[trigger] lookup(log, key, top)) is Some && lookup(log, key, top)->0.seqno == top;
        assert(lookup(log, key, top)->0.seqno <= disk_top(disk));
    }
}

/// The cuts, none of them above `top`.
pub open spec fn clamped(cuts: Seq<int>, top: int) -> Seq<int> {
    cuts.map_values(
        |c: int|
            if c <= top {
                c
            } else {
                top
            },
    )
}

/// Cuts above every number of the history may as well be put at the last.
#[verifier::rlimit(60)]
pub proof fn lemma_clamped(disk: Disk, log: Seq<Entry>, top: u64)
    requires
        history_ok(disk, log),
        top >= floor_of(runs(disk.tables)),
        top >= last_seqno(all_records(disk.segments)),
    ensures
        history_ok((Disk { cuts: clamped(disk.cuts, top as int), ..disk }), log),
        clamped(disk.cuts, top as int)[0] <= top,
{
    let rs = runs(disk.tables);
    let cuts = disk.cuts;
    let cuts2 = clamped(cuts, top as int);
    let records = all_records(disk.segments);
    let floor = floor_of(rs);
    lemma_disk_settled(disk, log, top as int);
    assert forall|i: int, j: int|
        #![trigger cuts2[i], cuts2[j]]
        0 <= i <= j < cuts2.len() implies cuts2[i] >= cuts2[j] by {
        assert(cuts[i] >= cuts[j]);
    }
    assert forall|i: int| #![trigger cuts2[i]] 0 <= i < cuts2.len() implies -1 <= cuts2[i]
        <= u64::MAX by {
        assert(-1 <= cuts[i]);
    }
    lemma_floor(rs, 0);
    assert forall|i: int| #![trigger rs[i]] 0 <= i < rs.len() implies covers(
        rs[i],
        log,
        cuts2[i + 1],
        cuts2[i],
    ) by {
        assert(covers(rs[i], log, cuts[i + 1], cuts[i]));
        assert(cuts[i] >= cuts[i + 1] >= -1);
        crate::sstable::table::lemma_flat_part(rs, i);
        let at = flat(rs.subrange(0, i)).len() as int;
        let run = rs[i];
        assert forall|j: int| #![trigger run[j]] 0 <= j < run.len() implies cuts2[i + 1]
            < run[j].seqno <= cuts2[i] by {
            assert(run[j] == flat(rs).subrange(at, at + run.len())[j]);
            assert(flat(rs)[at + j].seqno <= floor);
        }
        assert forall|key: Seq<u8>, snapshot: u64| #[trigger]
            lookup(run, key, snapshot) == answer_in(
                log,
                key,
                snapshot,
                cuts2[i + 1],
                cuts2[i],
            ) by {
            if cuts[i] > top {
                let at_hi = if snapshot <= cuts[i] {
                    snapshot
                } else {
                    cuts[i] as u64
                };
                if at_hi > top {
                    crate::engine::history::lemma_lookup_beyond(log, key, top, at_hi);
                }
                let e = lookup(log, key, at_hi);
            }
        }
    }
    assert forall|key: Seq<u8>, snapshot: u64| #[trigger]
        lookup(wal_log(records, floor), key, snapshot) == answer_in(
            log,
            key,
            snapshot,
            cuts2[0],
            u64::MAX as int,
        ) by {
        assert(lookup(wal_log(records, floor), key, snapshot) == answer_in(
            log,
            key,
            snapshot,
            cuts[0],
            u64::MAX as int,
        ));
        let e = lookup(log, key, snapshot);
    }
}

/// The layers that recovery puts together hold the directory's history.
#[verifier::rlimit(60)]
pub proof fn law_recovery_restores_history(disk: Disk, log: Seq<Entry>, top: u64)
    requires
        history_ok(disk, log),
        top >= floor_of(runs(disk.tables)),
        top >= last_seqno(all_records(disk.segments)),
        top >= disk.cuts[0],
    ensures
        layers_ok(
            seq![replayed(all_records(disk.segments), floor_of(runs(disk.tables)))] + runs(
                disk.tables,
            ),
            seq![top as int] + disk.cuts,
            log,
        ),
        sorted(replayed(all_records(disk.segments), floor_of(runs(disk.tables)))),
{
    let rs = runs(disk.tables);
    let records = all_records(disk.segments);
    let floor = floor_of(rs);
    let mem = replayed(records, floor);
    let layers = seq![mem] + rs;
    let cuts = seq![top as int] + disk.cuts;
    lemma_disk_settled(disk, log, top as int);
    lemma_replayed(records, floor);
    crate::engine::history::law_layers_answer_as_history(
        seq![mem],
        seq![last_seqno(records), -1],
        wal_log(records, floor),
    );
    lemma_flat_one(mem);
    assert(covers(mem, log, disk.cuts[0], top as int)) by {
        assert forall|key: Seq<u8>, snapshot: u64| #[trigger]
            lookup(mem, key, snapshot) == answer_in(
                log,
                key,
                snapshot,
                disk.cuts[0],
                top as int,
            ) by {
            assert(lookup(mem, key, snapshot) == lookup(wal_log(records, floor), key, snapshot));
            if snapshot > top {
                crate::engine::history::lemma_lookup_beyond(log, key, top, snapshot);
            }
        }
        assert forall|i: int| #![trigger mem[i]] 0 <= i < mem.len() implies disk.cuts[0]
            < mem[i].seqno <= top by {
            assert(covers(seq![mem][0], wal_log(records, floor), -1, last_seqno(records)));
            crate::engine::history::lemma_entry_answers(mem, i);
            lemma_answer_is_entry(mem, mem[i].key, mem[i].seqno);
            assert(lookup(mem, mem[i].key, mem[i].seqno) == answer_in(
                log,
                mem[i].key,
                mem[i].seqno,
                disk.cuts[0],
                top as int,
            ));
        }
    }
    assert(cuts_ok(cuts, layers.len())) by {
        assert forall|i: int, j: int|
            #![trigger cuts[i], cuts[j]]
            0 <= i <= j < cuts.len() implies cuts[i] >= cuts[j] by {
            if i > 0 {
                assert(disk.cuts[i - 1] >= disk.cuts[j - 1]);
            } else if j > 0 {
                assert(disk.cuts[0] >= disk.cuts[j - 1]);
            }
        }
    }
    assert forall|i: int| #![trigger layers[i]] 0 <= i < layers.len() implies covers(
        layers[i],
        log,
        cuts[i + 1],
        cuts[i],
    ) by {
        if i > 0 {
            assert(layers[i] == rs[i - 1]);
            assert(covers(rs[i - 1], log, disk.cuts[i], disk.cuts[i - 1]));
        }
    }
}

// ----- Lemmas on files -----

/// Writing one file leaves the others as they are, and names in order.
#[verifier::rlimit(60)]
pub proof fn lemma_write_keeps(state: FsState, after: FsState, path: Seq<char>, id: int)
    requires
        names_ok(state),
        wrote_file(state, after, path, id),
    ensures
        names_ok(after),
        stored(after, path) == Some(after.files[id]),
        forall|p: Seq<char>|
            #![trigger stored(after, p)]
            p != path ==> stored(after, p) == stored(state, p),
        forall|p: Seq<char>|
            #![trigger after.names.dom().contains(p)]
            after.names.dom().contains(p) <==> p == path || state.names.dom().contains(p),
{
    assert forall|p: Seq<char>|
        #![trigger stored(after, p)]
        p != path implies stored(after, p) == stored(state, p) by {
        if state.names.dom().contains(p) {
            assert(after.names[p] == state.names[p]);
            assert(state.files.dom().contains(state.names[p]));
            if state.names.dom().contains(path) && state.names[p] == state.names[path] {
                assert(p == path);
            }
        }
    }
    assert forall|p: Seq<char>|
        #![trigger after.names[p]]
        after.names.dom().contains(p) implies after.files.dom().contains(after.names[p]) by {
        if p != path {
            assert(state.files.dom().contains(state.names[p]));
        }
    }
    assert forall|p: Seq<char>, q: Seq<char>|
        #![trigger after.names[p], after.names[q]]
        after.names.dom().contains(p) && after.names.dom().contains(q) && after.names[p]
            == after.names[q] implies p == q by {
        if p != path && q != path {
            assert(state.names[p] == state.names[q]);
        } else if p != path {
            assert(state.files.dom().contains(state.names[p]));
            if state.names.dom().contains(path) {
                assert(state.names[p] == state.names[path]);
            }
        } else if q != path {
            assert(state.files.dom().contains(state.names[q]));
            if state.names.dom().contains(path) {
                assert(state.names[q] == state.names[path]);
            }
        }
    }
}

/// Removing a name leaves the other files as they are, and names in order.
#[verifier::rlimit(60)]
pub proof fn lemma_remove_keeps(state: FsState, after: FsState, path: Seq<char>)
    requires
        names_ok(state),
        after == (FsState { names: state.names.remove(path), ..state }),
    ensures
        names_ok(after),
        forall|p: Seq<char>|
            #![trigger stored(after, p)]
            p != path ==> stored(after, p) == stored(state, p),
{
    assert forall|p: Seq<char>|
        #![trigger after.names[p]]
        after.names.dom().contains(p) implies after.files.dom().contains(after.names[p]) by {
        assert(state.files.dom().contains(state.names[p]));
    }
    assert forall|p: Seq<char>, q: Seq<char>|
        #![trigger after.names[p], after.names[q]]
        after.names.dom().contains(p) && after.names.dom().contains(q) && after.names[p]
            == after.names[q] implies p == q by {
        assert(state.names[p] == state.names[q]);
    }
}

/// A segment that has been written further.
#[verifier::rlimit(60)]
pub proof fn lemma_files_append(
    state: FsState,
    after: FsState,
    dir: Seq<char>,
    master: Option<Seq<u8>>,
    disk: Disk,
    records: Seq<LogRecord>,
    bytes: Seq<u8>,
)
    requires
        files_ok(state, dir, master, disk),
        disk.segments.len() > 0,
        after == state.with_bytes(state.names[wal_path(dir, disk.segments.last().id)], bytes),
        segment_ok(bytes, records),
    ensures
        files_ok(
            after,
            dir,
            master,
            (Disk {
                segments: disk.segments.drop_last().push(
                    Segment { id: disk.segments.last().id, records },
                ),
                ..disk
            }),
        ),
{
    reveal(files_ok);
    let id = disk.segments.last().id;
    let path = wal_path(dir, id);
    let fid = state.names[path];
    let n = disk.segments.len() - 1;
    assert(disk.segments[n].id == id);
    assert(stored(state, path) is Some);
    assert(after.names =~= state.names.insert(path, fid));
    assert(state.files.dom().contains(state.names[path]));
    assert(wrote_file(state, after, path, fid));
    lemma_write_keeps(state, after, path, fid);
    let disk2 = Disk {
        segments: disk.segments.drop_last().push(Segment { id, records }),
        ..disk
    };
    assert forall|i: int| 0 <= i < disk2.segments.len() implies #[trigger] disk2.segments[i].id
        == disk.segments[i].id by {}
    assert forall|name: Seq<char>|
        #![trigger path_in(dir, name)]
        after.names.dom().contains(path_in(dir, name)) && !name.contains('/') implies {
        &&& parse_wal_name(name) matches Some(id) ==> name == wal_name(id) && exists|i: int|
            0 <= i < disk2.segments.len() && #[trigger] disk2.segments[i].id == id
        &&& parse_sst(name) matches Some(id) ==> name == sst_name(id) && exists|i: int|
            0 <= i < disk2.tables.len() && #[trigger] disk2.tables[i].id == id
    } by {
        assert(state.names.dom().contains(path_in(dir, name)));
        if parse_wal_name(name) is Some {
            let k = choose|i: int|
                0 <= i < disk.segments.len() && #[trigger] disk.segments[i].id == parse_wal_name(
                    name,
                )->Some_0;
            assert(disk2.segments[k].id == disk.segments[k].id);
        }
    }
    assert forall|i: int|
        #![trigger disk2.segments[i]]
        0 <= i < disk2.segments.len() implies (stored(
        after,
        wal_path(dir, disk2.segments[i].id),
    ) matches Some(b) && segment_ok(b, disk2.segments[i].records)) by {
        if i < n {
            assert(disk2.segments[i] == disk.segments[i]);
            assert(disk.segments[i].id < disk.segments[n].id);
            lemma_paths_differ(dir, disk.segments[i].id, id);
            assert(stored(after, wal_path(dir, disk.segments[i].id)) == stored(
                state,
                wal_path(dir, disk.segments[i].id),
            ));
        }
    }
    assert forall|i: int|
        #![trigger disk2.tables[i]]
        0 <= i < disk2.tables.len() implies (stored(
        after,
        table_path(dir, disk2.tables[i].id),
    ) matches Some(b) && is_table(
        b,
        table_crypto(master, disk2.tables[i].id),
        disk2.tables[i].run,
    )) by {
        assert(disk2.tables[i] == disk.tables[i]);
        lemma_paths_differ(dir, id, disk.tables[i].id);
        assert(stored(after, table_path(dir, disk.tables[i].id)) == stored(
            state,
            table_path(dir, disk.tables[i].id),
        ));
    }
}

/// A number beyond those of all segments names no file yet.
pub proof fn lemma_segment_is_new(
    state: FsState,
    dir: Seq<char>,
    master: Option<Seq<u8>>,
    disk: Disk,
    id: u64,
)
    requires
        files_ok(state, dir, master, disk),
        forall|i: int|
            #![trigger disk.segments[i]]
            0 <= i < disk.segments.len() ==> disk.segments[i].id < id,
    ensures
        !state.names.dom().contains(wal_path(dir, id)),
{
    reveal(files_ok);
    law_names_round_trip(id);
    lemma_name_shape(id);
    if state.names.dom().contains(path_in(dir, wal_name(id))) {
        let k = choose|i: int|
            0 <= i < disk.segments.len() && #[trigger] disk.segments[i].id == id;
        assert(disk.segments[k].id < id);
    }
}

/// A number beyond those of all tables names no file yet.
pub proof fn lemma_table_is_new(
    state: FsState,
    dir: Seq<char>,
    master: Option<Seq<u8>>,
    disk: Disk,
    id: u64,
)
    requires
        files_ok(state, dir, master, disk),
        forall|i: int|
            #![trigger disk.tables[i]]
            0 <= i < disk.tables.len() ==> disk.tables[i].id < id,
    ensures
        !state.names.dom().contains(table_path(dir, id)),
{
    reveal(files_ok);
    law_names_round_trip(id);
    lemma_name_shape(id);
    if state.names.dom().contains(path_in(dir, sst_name(id))) {
        let k = choose|i: int| 0 <= i < disk.tables.len() && #[trigger] disk.tables[i].id == id;
        assert(disk.tables[k].id < id);
    }
}

/// A new segment.
#[verifier::rlimit(60)]
pub proof fn lemma_files_new_segment(
    state: FsState,
    after: FsState,
    dir: Seq<char>,
    master: Option<Seq<u8>>,
    disk: Disk,
    seg: Segment,
    fid: int,
)
    requires
        files_ok(state, dir, master, disk),
        forall|i: int|
            #![trigger disk.segments[i]]
            0 <= i < disk.segments.len() ==> disk.segments[i].id < seg.id,
        wrote_file(state, after, wal_path(dir, seg.id), fid),
        segment_ok(after.files[fid], seg.records),
    ensures
        files_ok(after, dir, master, (Disk { segments: disk.segments.push(seg), ..disk })),
{
    reveal(files_ok);
    let path = wal_path(dir, seg.id);
    let n = disk.segments.len() as int;
    lemma_write_keeps(state, after, path, fid);
    let disk2 = Disk { segments: disk.segments.push(seg), ..disk };
    assert forall|i: int| 0 <= i < n implies #[trigger] disk2.segments[i] == disk.segments[i] by {}
    assert(disk2.segments[n] == seg);
    assert forall|name: Seq<char>|
        #![trigger path_in(dir, name)]
        after.names.dom().contains(path_in(dir, name)) && !name.contains('/') implies {
        &&& parse_wal_name(name) matches Some(id) ==> name == wal_name(id) && exists|i: int|
            0 <= i < disk2.segments.len() && #[trigger] disk2.segments[i].id == id
        &&& parse_sst(name) matches Some(id) ==> name == sst_name(id) && exists|i: int|
            0 <= i < disk2.tables.len() && #[trigger] disk2.tables[i].id == id
    } by {
        if path_in(dir, name) == path {
            lemma_path_names(dir, name, wal_name(seg.id));
            law_names_round_trip(seg.id);
            lemma_name_shape(seg.id);
            assert(disk2.segments[n].id == seg.id);
        } else {
            assert(state.names.dom().contains(path_in(dir, name)));
            if parse_wal_name(name) is Some {
                let k = choose|i: int|
                    0 <= i < disk.segments.len() && #[trigger] disk.segments[i].id
                        == parse_wal_name(name)->Some_0;
                assert(disk2.segments[k].id == disk.segments[k].id);
            }
        }
    }
    assert forall|i: int|
        #![trigger disk2.segments[i]]
        0 <= i < disk2.segments.len() implies (stored(
        after,
        wal_path(dir, disk2.segments[i].id),
    ) matches Some(b) && segment_ok(b, disk2.segments[i].records)) by {
        if i < n {
            assert(disk2.segments[i] == disk.segments[i]);
            lemma_paths_differ(dir, disk.segments[i].id, seg.id);
            assert(stored(after, wal_path(dir, disk.segments[i].id)) == stored(
                state,
                wal_path(dir, disk.segments[i].id),
            ));
        }
    }
    assert forall|i: int|
        #![trigger disk2.tables[i]]
        0 <= i < disk2.tables.len() implies (stored(
        after,
        table_path(dir, disk2.tables[i].id),
    ) matches Some(b) && is_table(
        b,
        table_crypto(master, disk2.tables[i].id),
        disk2.tables[i].run,
    )) by {
        assert(disk2.tables[i] == disk.tables[i]);
        lemma_paths_differ(dir, seg.id, disk.tables[i].id);
        assert(stored(after, table_path(dir, disk.tables[i].id)) == stored(
            state,
            table_path(dir, disk.tables[i].id),
        ));
    }
}

/// A new table.
#[verifier::rlimit(60)]
pub proof fn lemma_files_new_table(
    state: FsState,
    after: FsState,
    dir: Seq<char>,
    master: Option<Seq<u8>>,
    disk: Disk,
    t: TableFile,
    fid: int,
)
    requires
        files_ok(state, dir, master, disk),
        forall|i: int|
            #![trigger disk.tables[i]]
            0 <= i < disk.tables.len() ==> disk.tables[i].id < t.id,
        wrote_file(state, after, table_path(dir, t.id), fid),
        is_table(after.files[fid], table_crypto(master, t.id), t.run),
    ensures
        files_ok(after, dir, master, (Disk { tables: seq![t] + disk.tables, ..disk })),
{
    reveal(files_ok);
    let path = table_path(dir, t.id);
    lemma_write_keeps(state, after, path, fid);
    let disk2 = Disk { tables: seq![t] + disk.tables, ..disk };
    assert forall|i: int| 0 < i < disk2.tables.len() implies #[trigger] disk2.tables[i]
        == disk.tables[i - 1] by {}
    assert(disk2.tables[0] == t);
    assert forall|name: Seq<char>|
        #![trigger path_in(dir, name)]
        after.names.dom().contains(path_in(dir, name)) && !name.contains('/') implies {
        &&& parse_wal_name(name) matches Some(id) ==> name == wal_name(id) && exists|i: int|
            0 <= i < disk2.segments.len() && #[trigger] disk2.segments[i].id == id
        &&& parse_sst(name) matches Some(id) ==> name == sst_name(id) && exists|i: int|
            0 <= i < disk2.tables.len() && #[trigger] disk2.tables[i].id == id
    } by {
        if path_in(dir, name) == path {
            lemma_path_names(dir, name, sst_name(t.id));
            law_names_round_trip(t.id);
            lemma_name_shape(t.id);
            assert(disk2.tables[0].id == t.id);
        } else {
            assert(state.names.dom().contains(path_in(dir, name)));
            if parse_sst(name) is Some {
                let k = choose|i: int|
                    0 <= i < disk.tables.len() && #[trigger] disk.tables[i].id == parse_sst(
                        name,
                    )->Some_0;
                assert(disk2.tables[k + 1].id == disk.tables[k].id);
            }
        }
    }
    assert forall|i: int|
        #![trigger disk2.segments[i]]
        0 <= i < disk2.segments.len() implies (stored(
        after,
        wal_path(dir, disk2.segments[i].id),
    ) matches Some(b) && segment_ok(b, disk2.segments[i].records)) by {
        assert(disk2.segments[i] == disk.segments[i]);
        lemma_paths_differ(dir, disk.segments[i].id, t.id);
        assert(stored(after, wal_path(dir, disk.segments[i].id)) == stored(
            state,
            wal_path(dir, disk.segments[i].id),
        ));
    }
    assert forall|i: int|
        #![trigger disk2.tables[i]]
        0 <= i < disk2.tables.len() implies (stored(
        after,
        table_path(dir, disk2.tables[i].id),
    ) matches Some(b) && is_table(
        b,
        table_crypto(master, disk2.tables[i].id),
        disk2.tables[i].run,
    )) by {
        if i > 0 {
            assert(disk2.tables[i] == disk.tables[i - 1]);
            lemma_paths_differ(dir, disk.tables[i - 1].id, t.id);
            assert(stored(after, table_path(dir, disk.tables[i - 1].id)) == stored(
                state,
                table_path(dir, disk.tables[i - 1].id),
            ));
        }
    }
}

/// A segment is removed.
#[verifier::rlimit(60)]
pub proof fn lemma_files_drop_segment(
    state: FsState,
    after: FsState,
    dir: Seq<char>,
    master: Option<Seq<u8>>,
    disk: Disk,
    k: int,
)
    requires
        files_ok(state, dir, master, disk),
        0 <= k < disk.segments.len(),
        after == (FsState {
            names: state.names.remove(wal_path(dir, disk.segments[k].id)),
            ..state
        }),
    ensures
        files_ok(after, dir, master, (Disk { segments: disk.segments.remove(k), ..disk })),
{
    reveal(files_ok);
    let gone = disk.segments[k].id;
    let path = wal_path(dir, gone);
    lemma_remove_keeps(state, after, path);
    let disk2 = Disk { segments: disk.segments.remove(k), ..disk };
    assert forall|i: int| 0 <= i < disk2.segments.len() implies #[trigger] disk2.segments[i]
        == disk.segments[if i < k {
        i
    } else {
        i + 1
    }] by {}
    assert forall|name: Seq<char>|
        #![trigger path_in(dir, name)]
        after.names.dom().contains(path_in(dir, name)) && !name.contains('/') implies {
        &&& parse_wal_name(name) matches Some(id) ==> name == wal_name(id) && exists|i: int|
            0 <= i < disk2.segments.len() && #[trigger] disk2.segments[i].id == id
        &&& parse_sst(name) matches Some(id) ==> name == sst_name(id) && exists|i: int|
            0 <= i < disk2.tables.len() && #[trigger] disk2.tables[i].id == id
    } by {
        assert(state.names.dom().contains(path_in(dir, name)));
        if parse_wal_name(name) is Some {
            let j = choose|i: int|
                0 <= i < disk.segments.len() && #[trigger] disk.segments[i].id == parse_wal_name(
                    name,
                )->Some_0;
            assert(j != k);
            let j2 = if j < k {
                j
            } else {
                j - 1
            };
            assert(disk2.segments[j2].id == disk.segments[j].id);
        }
    }
    assert forall|i: int|
        #![trigger disk2.segments[i]]
        0 <= i < disk2.segments.len() implies (stored(
        after,
        wal_path(dir, disk2.segments[i].id),
    ) matches Some(b) && segment_ok(b, disk2.segments[i].records)) by {
        let j = if i < k {
            i
        } else {
            i + 1
        };
        assert(disk2.segments[i] == disk.segments[j]);
        assert(disk.segments[j].id != gone) by {
            if j < k {
                assert(disk.segments[j].id < disk.segments[k].id);
            } else {
                assert(disk.segments[k].id < disk.segments[j].id);
            }
        }
        lemma_paths_differ(dir, disk.segments[j].id, gone);
        assert(stored(after, wal_path(dir, disk.segments[j].id)) == stored(
            state,
            wal_path(dir, disk.segments[j].id),
        ));
    }
    assert forall|i: int|
        #![trigger disk2.tables[i]]
        0 <= i < disk2.tables.len() implies (stored(
        after,
        table_path(dir, disk2.tables[i].id),
    ) matches Some(b) && is_table(
        b,
        table_crypto(master, disk2.tables[i].id),
        disk2.tables[i].run,
    )) by {
        assert(disk2.tables[i] == disk.tables[i]);
        lemma_paths_differ(dir, gone, disk.tables[i].id);
        assert(stored(after, table_path(dir, disk.tables[i].id)) == stored(
            state,
            table_path(dir, disk.tables[i].id),
        ));
    }
}

/// A table is removed.
#[verifier::rlimit(60)]
pub proof fn lemma_files_drop_table(
    state: FsState,
    after: FsState,
    dir: Seq<char>,
    master: Option<Seq<u8>>,
    disk: Disk,
    k: int,
)
    requires
        files_ok(state, dir, master, disk),
        0 <= k < disk.tables.len(),
        after == (FsState {
            names: state.names.remove(table_path(dir, disk.tables[k].id)),
            ..state
        }),
    ensures
        files_ok(after, dir, master, (Disk { tables: disk.tables.remove(k), ..disk })),
{
    reveal(files_ok);
    let gone = disk.tables[k].id;
    let path = table_path(dir, gone);
    lemma_remove_keeps(state, after, path);
    let disk2 = Disk { tables: disk.tables.remove(k), ..disk };
    assert forall|i: int| 0 <= i < disk2.tables.len() implies #[trigger] disk2.tables[i]
        == disk.tables[if i < k {
        i
    } else {
        i + 1
    }] by {}
    assert forall|name: Seq<char>|
        #![trigger path_in(dir, name)]
        after.names.dom().contains(path_in(dir, name)) && !name.contains('/') implies {
        &&& parse_wal_name(name) matches Some(id) ==> name == wal_name(id) && exists|i: int|
            0 <= i < disk2.segments.len() && #[trigger] disk2.segments[i].id == id
        &&& parse_sst(name) matches Some(id) ==> name == sst_name(id) && exists|i: int|
            0 <= i < disk2.tables.len() && #[trigger] disk2.tables[i].id == id
    } by {
        assert(state.names.dom().contains(path_in(dir, name)));
        if parse_sst(name) is Some {
            let j = choose|i: int|
                0 <= i < disk.tables.len() && #[trigger] disk.tables[i].id == parse_sst(
                    name,
                )->Some_0;
            assert(j != k);
            let j2 = if j < k {
                j
            } else {
                j - 1
            };
            assert(disk2.tables[j2].id == disk.tables[j].id);
        }
    }
    assert forall|i: int|
        #![trigger disk2.segments[i]]
        0 <= i < disk2.segments.len() implies (stored(
        after,
        wal_path(dir, disk2.segments[i].id),
    ) matches Some(b) && segment_ok(b, disk2.segments[i].records)) by {
        assert(disk2.segments[i] == disk.segments[i]);
        lemma_paths_differ(dir, disk.segments[i].id, gone);
        assert(stored(after, wal_path(dir, disk.segments[i].id)) == stored(
            state,
            wal_path(dir, disk.segments[i].id),
        ));
    }
    assert forall|i: int|
        #![trigger disk2.tables[i]]
        0 <= i < disk2.tables.len() implies (stored(
        after,
        table_path(dir, disk2.tables[i].id),
    ) matches Some(b) && is_table(
        b,
        table_crypto(master, disk2.tables[i].id),
        disk2.tables[i].run,
    )) by {
        let j = if i < k {
            i
        } else {
            i + 1
        };
        assert(disk2.tables[i] == disk.tables[j]);
        assert(disk.tables[j].id != gone) by {
            if j < k {
                assert(disk.tables[j].id > disk.tables[k].id);
            } else {
                assert(disk.tables[k].id > disk.tables[j].id);
            }
        }
        lemma_paths_differ(dir, disk.tables[j].id, gone);
        assert(stored(after, table_path(dir, disk.tables[j].id)) == stored(
            state,
            table_path(dir, disk.tables[j].id),
        ));
    }
}

} // verus!
