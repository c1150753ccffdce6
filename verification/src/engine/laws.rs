//! What the engine promises, over the history of writes.
//!
//! The contracts of [`Db`](crate::engine::Db) say what each operation does to
//! the history, and that reading is looking up in it. The laws here say what
//! follows for readers.
use vstd::prelude::*;

use crate::compaction::compact::{
    input_queues, law_capacity_counts_every_record, output_capacity,
};
use crate::compaction::merger::{law_merge_keeps_entries, merged, runs_of};
use crate::engine::db::{
    is_table_file, known_seqno, memtable_layers, next_number, nothing_pending, numbers_left,
    open_fault, readers, segment_gone, state_get, table_layers, table_numbers, table_synced,
    tables_get, Db,
};
use crate::engine::disk::{
    all_records, counted, disk_ok, disk_top, files_ok, law_counter_is_known, op_fits,
    records_cover, runs, Disk, Segment,
};
use crate::engine::flush::{law_light_memtables_are_written, master_view};
use crate::engine::history::{
    batch_entries, entry_of, lemma_batch_entries, lemma_lookup_earlier, same_answers, stack_ok,
};
use crate::engine::names::{table_path, wal_path};
use crate::engine::recovery::{
    ascending, record_fault, record_top, records_fault, segment_fault, segments_at, segments_fault,
    table_fault, tables_fault, tables_top,
};
use crate::error::Result;
use crate::filter::blocked_bloom::{blocks_for, law_blocks_make_up_the_budget};
use crate::io::vfs::{bytes_of, FsState, Vfs, VfsFile};
use crate::model::{
    lemma_lookup_concat, lemma_lookup_first, lemma_lookup_none, lemma_payload_concat, live_value,
    lookup, payload, visible, Entry,
};
use crate::sstable::format::{RecordOp, DEFAULT_BLOCK_SIZE};
use crate::sstable::table::{flat, parse_table, table_get, Fault};
use crate::sstable::writer::law_light_table_is_accepted;
use crate::wal::batch::{
    encoded_batch, law_batch_size, lengths_fit, ops_payload, parse_batch, OpView,
};
use crate::wal::format::{RecordHeader, SegmentHeader};
use crate::wal::reader::{parse_segment, replay_from, LogRecord};
use crate::wal::writer::{
    block_room, fragment_type, fragments, lemma_next_block, padding, record_bytes,
};

verus! {

/// The key that an operation is about.
pub open spec fn op_key(op: OpView) -> Seq<u8> {
    match op {
        OpView::Put { key, value } => key,
        OpView::Delete { key } => key,
    }
}

/// The value that an operation leaves.
pub open spec fn op_value(op: OpView) -> Option<Seq<u8>> {
    match op {
        OpView::Put { key, value } => Some(value),
        OpView::Delete { key } => None,
    }
}

/// Law: after a batch, a reader that may see it reads of each key what the
/// last operation on it in the batch left.
pub proof fn law_batch_is_read_back(
    log: Seq<Entry>,
    n: u64,
    ops: Seq<OpView>,
    i: int,
    snapshot: u64,
)
    requires
        0 <= i < ops.len(),
        forall|j: int| i < j < ops.len() ==> op_key(#[trigger] ops[j]) != op_key(ops[i]),
        snapshot >= n,
    ensures
        live_value(lookup(batch_entries(n, ops) + log, op_key(ops[i]), snapshot)) == op_value(
            ops[i],
        ),
    decreases ops.len(),
{
    let less = ops.drop_last();
    let e = entry_of(n, ops.last());
    let rest = batch_entries(n, less) + log;
    assert(batch_entries(n, ops) + log =~= seq![e] + rest);
    lemma_lookup_concat(seq![e], rest, op_key(ops[i]), snapshot);
    assert(seq![e][0] == e);
    if i == ops.len() - 1 {
        lemma_lookup_first(seq![e], op_key(ops[i]), snapshot, 0);
    } else {
        assert(op_key(ops[ops.len() - 1]) != op_key(ops[i]));
        lemma_lookup_none(seq![e], op_key(ops[i]), snapshot);
        assert forall|j: int| i < j < less.len() implies op_key(#[trigger] less[j]) != op_key(
            less[i],
        ) by {
            assert(less[j] == ops[j]);
        }
        law_batch_is_read_back(log, n, less, i, snapshot);
    }
}

/// Law: a put is read back by every reader that may see it.
pub proof fn law_put_is_read_back(
    log: Seq<Entry>,
    n: u64,
    key: Seq<u8>,
    value: Seq<u8>,
    snapshot: u64,
)
    requires
        snapshot >= n,
    ensures
        live_value(
            lookup(batch_entries(n, seq![OpView::Put { key, value }]) + log, key, snapshot),
        ) == Some(value),
{
    law_batch_is_read_back(log, n, seq![OpView::Put { key, value }], 0, snapshot);
}

/// Law: a delete hides every older version from every reader that may see it.
pub proof fn law_delete_hides(log: Seq<Entry>, n: u64, key: Seq<u8>, snapshot: u64)
    requires
        snapshot >= n,
    ensures
        live_value(lookup(batch_entries(n, seq![OpView::Delete { key }]) + log, key, snapshot))
            is None,
{
    law_batch_is_read_back(log, n, seq![OpView::Delete { key }], 0, snapshot);
}

/// Law: a batch changes nothing for keys that it does not mention.
pub proof fn law_other_keys_are_untouched(
    log: Seq<Entry>,
    n: u64,
    ops: Seq<OpView>,
    key: Seq<u8>,
    snapshot: u64,
)
    requires
        forall|j: int| 0 <= j < ops.len() ==> op_key(#[trigger] ops[j]) != key,
    ensures
        lookup(batch_entries(n, ops) + log, key, snapshot) == lookup(log, key, snapshot),
    decreases ops.len(),
{
    if ops.len() == 0 {
        assert(batch_entries(n, ops) + log =~= log);
    } else {
        let less = ops.drop_last();
        let e = entry_of(n, ops.last());
        let rest = batch_entries(n, less) + log;
        assert(batch_entries(n, ops) + log =~= seq![e] + rest);
        lemma_lookup_concat(seq![e], rest, key, snapshot);
        assert(seq![e][0] == e);
        assert(op_key(ops[ops.len() - 1]) != key);
        lemma_lookup_none(seq![e], key, snapshot);
        assert forall|j: int| 0 <= j < less.len() implies op_key(#[trigger] less[j]) != key by {
            assert(less[j] == ops[j]);
        }
        law_other_keys_are_untouched(log, n, less, key, snapshot);
    }
}

/// Law: a snapshot is stable. Whatever is written later, under greater
/// sequence numbers, a reader at the snapshot sees what it saw: of a later
/// batch nothing at all.
pub proof fn law_snapshot_is_stable(
    log: Seq<Entry>,
    n: u64,
    ops: Seq<OpView>,
    key: Seq<u8>,
    snapshot: u64,
)
    requires
        snapshot < n,
    ensures
        lookup(batch_entries(n, ops) + log, key, snapshot) == lookup(log, key, snapshot),
{
    let batch = batch_entries(n, ops);
    lemma_batch_entries(n, ops);
    lemma_lookup_concat(batch, log, key, snapshot);
    assert forall|j: int| 0 <= j < batch.len() implies !visible(
        #[trigger] batch[j],
        key,
        snapshot,
    ) by {
        assert(n - 1 < batch[j].seqno);
    }
    lemma_lookup_none(batch, key, snapshot);
}

/// Law: a batch that is not empty counts: its number is that of an answer.
pub proof fn law_write_counts(log: Seq<Entry>, n: u64, ops: Seq<OpView>)
    requires
        ops.len() > 0,
    ensures
        counted(batch_entries(n, ops) + log, n),
{
    let e = entry_of(n, ops.last());
    let rest = batch_entries(n, ops.drop_last()) + log;
    let key = op_key(ops.last());
    assert(batch_entries(n, ops) + log =~= seq![e] + rest);
    assert(seq![e][0] == e);
    lemma_lookup_first(seq![e], key, n, 0);
    lemma_lookup_concat(seq![e], rest, key, n);
    assert(lookup(batch_entries(n, ops) + log, key, n) == Some(e));
}

/// Law: reopening restores the engine. Of an engine whose directory holds its
/// history, and whose last write was not empty, `after` is what opening that
/// directory gives: the sequence numbers go on where they were, and every key
/// reads as it did, at the latest state and at every snapshot. The next
/// reopening restores it again.
pub proof fn law_reopening_restores<V: Vfs>(before: Db<V>, after: Db<V>)
    requires
        before.durable(),
        counted(before@, before.last_seqno()),
        same_answers(after@, before@),
        after.last_seqno() == disk_top(before.disk()),
    ensures
        after.last_seqno() == before.last_seqno(),
        counted(after@, after.last_seqno()),
        forall|key: Seq<u8>|
            live_value(#[trigger] lookup(after@, key, after.last_seqno())) == live_value(
                lookup(before@, key, before.last_seqno()),
            ),
{
    let top = before.last_seqno();
    before.lemma_durable();
    law_counter_is_known(before.disk(), before@, top);
    if top > 0 {
        let key = choose|key: Seq<u8>|
            (#[trigger] lookup(before@, key, top)) is Some && lookup(before@, key, top)->0.seqno
                == top;
        assert(lookup(after@, key, top) == lookup(before@, key, top));
    }
}

// ----- Any number of calls -----

/// A call on an engine that succeeded. `Reopen` drops it and opens the same
/// directory of the same file system again, with the same configuration.
pub enum Call {
    Write { ops: Seq<OpView> },
    Flush,
    Compact,
    Reopen,
}

/// What each call does, from one state of the engine to the next.
pub open spec fn follows<V: Vfs>(before: Db<V>, call: Call, after: Db<V>) -> bool {
    match call {
        Call::Write { ops } => Db::writes(before, after, Ok(()), ops),
        Call::Flush => Db::flushed(before, after),
        Call::Compact => Db::compacted(before, after),
        Call::Reopen => {
            &&& after.same_place(&before)
            &&& before.reliable() ==> after.reliable()
            &&& forall|disk: Disk, log: Seq<Entry>|
                before.reliable() && #[trigger] disk_ok(
                    before.fs_state(),
                    before.dir(),
                    master_view(&before.settings().master_key),
                    disk,
                    log,
                ) && numbers_left(disk) ==> after.restores(disk, log)
        },
    }
}

/// `dbs` are the states of an engine: the first, and the one after each call.
pub open spec fn run_of<V: Vfs>(dbs: Seq<Db<V>>, calls: Seq<Call>) -> bool {
    &&& dbs.len() == calls.len() + 1
    &&& forall|i: int|
        0 <= i < calls.len() ==> follows(dbs[i], #[trigger] calls[i], dbs[i + 1])
}

/// The batches that calls wrote, oldest first.
pub open spec fn batches_of(calls: Seq<Call>) -> Seq<Seq<OpView>>
    decreases calls.len(),
{
    if calls.len() == 0 {
        Seq::empty()
    } else {
        match calls.last() {
            Call::Write { ops } => batches_of(calls.drop_last()).push(ops),
            _ => batches_of(calls.drop_last()),
        }
    }
}

/// The history after batches were written on top of one that ended with number
/// `n`.
pub open spec fn written(log: Seq<Entry>, n: int, batches: Seq<Seq<OpView>>) -> Seq<Entry>
    decreases batches.len(),
{
    if batches.len() == 0 {
        log
    } else {
        batch_entries((n + batches.len()) as u64, batches.last()) + written(
            log,
            n,
            batches.drop_last(),
        )
    }
}

/// Operation `j` of batch `i` is about `key`, and a reader at `snapshot` may
/// see it. The batches are numbered from behind `n`.
pub open spec fn reads_op(
    batches: Seq<Seq<OpView>>,
    n: int,
    key: Seq<u8>,
    snapshot: u64,
    i: int,
    j: int,
) -> bool {
    &&& 0 <= i < batches.len()
    &&& 0 <= j < batches[i].len()
    &&& n + 1 + i <= snapshot
    &&& op_key(batches[i][j]) == key
}

/// Law: a reader reads of a key what the last operation on it left that the
/// reader may see: in the last such batch, the last of the batch. Without one
/// it reads what was there before. The result names that operation.
#[verifier::rlimit(30)]
pub proof fn law_reads_the_last_operation(
    log: Seq<Entry>,
    n: int,
    batches: Seq<Seq<OpView>>,
    key: Seq<u8>,
    snapshot: u64,
) -> (last: Option<(int, int)>)
    requires
        0 <= n,
        n + batches.len() <= u64::MAX,
    ensures
        match last {
            Some((i, j)) => reads_op(batches, n, key, snapshot, i, j) && (forall|i2: int, j2: int|
                #[trigger] reads_op(batches, n, key, snapshot, i2, j2) ==> i2 < i || (i2 == i && j2
                    <= j)) && live_value(lookup(written(log, n, batches), key, snapshot))
                == op_value(batches[i][j]),
            None => (forall|i2: int, j2: int| !#[trigger]
                reads_op(batches, n, key, snapshot, i2, j2)) && lookup(
                written(log, n, batches),
                key,
                snapshot,
            ) == lookup(log, key, snapshot),
        },
    decreases batches.len(),
{
    if batches.len() == 0 {
        None
    } else {
        let less = batches.drop_last();
        let ops = batches.last();
        let top = (n + batches.len()) as u64;
        let k = batches.len() - 1;
        let before = written(log, n, less);
        let found = law_reads_the_last_operation(log, n, less, key, snapshot);
        assert forall|i2: int, j2: int| i2 < k implies #[trigger] reads_op(
            batches,
            n,
            key,
            snapshot,
            i2,
            j2,
        ) == reads_op(less, n, key, snapshot, i2, j2) by {}
        if snapshot < top {
            law_snapshot_is_stable(before, top, ops, key, snapshot);
            assert forall|i2: int, j2: int| #[trigger]
                reads_op(batches, n, key, snapshot, i2, j2) implies reads_op(
                less,
                n,
                key,
                snapshot,
                i2,
                j2,
            ) by {}
            found
        } else {
            match last_on(ops, key) {
                Some(j) => {
                    law_batch_is_read_back(before, top, ops, j, snapshot);
                    assert(reads_op(batches, n, key, snapshot, k, j));
                    Some((k, j))
                },
                None => {
                    law_other_keys_are_untouched(before, top, ops, key, snapshot);
                    assert forall|i2: int, j2: int| #[trigger]
                        reads_op(batches, n, key, snapshot, i2, j2) implies reads_op(
                        less,
                        n,
                        key,
                        snapshot,
                        i2,
                        j2,
                    ) by {
                        if i2 == k {
                            assert(op_key(ops[j2]) != key);
                        }
                    }
                    found
                },
            }
        }
    }
}

/// The last operation on a key.
proof fn last_on(ops: Seq<OpView>, key: Seq<u8>) -> (r: Option<int>)
    ensures
        match r {
            Some(j) => 0 <= j < ops.len() && op_key(ops[j]) == key && forall|k: int|
                j < k < ops.len() ==> op_key(#[trigger] ops[k]) != key,
            None => forall|k: int| 0 <= k < ops.len() ==> op_key(#[trigger] ops[k]) != key,
        },
    decreases ops.len(),
{
    if ops.len() == 0 {
        None
    } else {
        let n = ops.len() - 1;
        if op_key(ops[n]) == key {
            Some(n)
        } else {
            let less = ops.drop_last();
            let r = last_on(less, key);
            assert forall|k: int| 0 <= k < n implies #[trigger] ops[k] == less[k] by {}
            r
        }
    }
}

/// What was written on top of two histories that answer alike answers alike.
proof fn lemma_same_on_top(n: u64, ops: Seq<OpView>, a: Seq<Entry>, b: Seq<Entry>)
    requires
        same_answers(a, b),
    ensures
        same_answers(batch_entries(n, ops) + a, batch_entries(n, ops) + b),
{
    let batch = batch_entries(n, ops);
    assert forall|key: Seq<u8>, snapshot: u64|
        #![trigger lookup(batch + a, key, snapshot)]
        #![trigger lookup(batch + b, key, snapshot)]
        lookup(batch + a, key, snapshot) == lookup(batch + b, key, snapshot) by {
        lemma_lookup_concat(batch, a, key, snapshot);
        lemma_lookup_concat(batch, b, key, snapshot);
        assert(lookup(a, key, snapshot) == lookup(b, key, snapshot));
    }
}

/// A snapshot that is older than the batches sees none of them.
proof fn lemma_older_snapshot(
    log: Seq<Entry>,
    n: int,
    batches: Seq<Seq<OpView>>,
    key: Seq<u8>,
    snapshot: u64,
)
    requires
        snapshot <= n,
        n + batches.len() <= u64::MAX,
    ensures
        lookup(written(log, n, batches), key, snapshot) == lookup(log, key, snapshot),
    decreases batches.len(),
{
    if batches.len() > 0 {
        lemma_older_snapshot(log, n, batches.drop_last(), key, snapshot);
        law_snapshot_is_stable(
            written(log, n, batches.drop_last()),
            (n + batches.len()) as u64,
            batches.last(),
            key,
            snapshot,
        );
    }
}

/// Law: whatever writes, flushes and compactions follow, the history of a sound
/// engine is what it was with the batches on top. So a snapshot that was taken
/// before them reads what it read, and every other reader what the last
/// operations left that it may see.
pub proof fn law_calls_write_the_history<V: Vfs>(dbs: Seq<Db<V>>, calls: Seq<Call>)
    requires
        run_of(dbs, calls),
        forall|i: int| 0 <= i < calls.len() ==> !(#[trigger] calls[i] is Reopen),
        dbs[0].sound(),
    ensures
        dbs.last().sound(),
        dbs.last().last_seqno() == dbs[0].last_seqno() + batches_of(calls).len(),
        dbs.last()@ == written(dbs[0]@, dbs[0].last_seqno() as int, batches_of(calls)),
        forall|key: Seq<u8>, snapshot: u64|
            snapshot <= dbs[0].last_seqno() ==> #[trigger] lookup(dbs.last()@, key, snapshot)
                == lookup(dbs[0]@, key, snapshot),
    decreases calls.len(),
{
    let n = dbs[0].last_seqno() as int;
    if calls.len() > 0 {
        let k = calls.len() - 1;
        let less = calls.drop_last();
        assert(run_of(dbs.drop_last(), less)) by {
            assert forall|i: int| 0 <= i < less.len() implies follows(
                dbs.drop_last()[i],
                #[trigger] less[i],
                dbs.drop_last()[i + 1],
            ) by {
                assert(less[i] == calls[i]);
            }
        }
        assert forall|i: int| 0 <= i < less.len() implies !(#[trigger] less[i] is Reopen) by {
            assert(less[i] == calls[i]);
        }
        law_calls_write_the_history(dbs.drop_last(), less);
        assert(follows(dbs[k], calls[k], dbs[k + 1]));
        if let Call::Write { ops } = calls[k] {
            assert(batches_of(calls).drop_last() =~= batches_of(less));
        }
    }
    assert forall|key: Seq<u8>, snapshot: u64|
        snapshot <= dbs[0].last_seqno() implies #[trigger] lookup(dbs.last()@, key, snapshot)
        == lookup(dbs[0]@, key, snapshot) by {
        lemma_older_snapshot(dbs[0]@, n, batches_of(calls), key, snapshot);
    }
}

/// Law: after any writes, flushes and compactions, a reader of a sound engine
/// reads of a key what the last operation on it left that the reader may see,
/// and without one what was there before. The result names that operation.
pub proof fn law_reads_after_calls<V: Vfs>(
    dbs: Seq<Db<V>>,
    calls: Seq<Call>,
    key: Seq<u8>,
    snapshot: u64,
) -> (last: Option<(int, int)>)
    requires
        run_of(dbs, calls),
        forall|i: int| 0 <= i < calls.len() ==> !(#[trigger] calls[i] is Reopen),
        dbs[0].sound(),
    ensures
        ({
            let batches = batches_of(calls);
            let n = dbs[0].last_seqno() as int;
            match last {
                Some((i, j)) => reads_op(batches, n, key, snapshot, i, j) && (forall|
                    i2: int,
                    j2: int,
                | #[trigger]
                    reads_op(batches, n, key, snapshot, i2, j2) ==> i2 < i || (i2 == i && j2 <= j))
                    && live_value(lookup(dbs.last()@, key, snapshot)) == op_value(batches[i][j]),
                None => (forall|i2: int, j2: int| !#[trigger]
                    reads_op(batches, n, key, snapshot, i2, j2)) && lookup(
                    dbs.last()@,
                    key,
                    snapshot,
                ) == lookup(dbs[0]@, key, snapshot),
            }
        }),
{
    law_calls_write_the_history(dbs, calls);
    law_reads_the_last_operation(
        dbs[0]@,
        dbs[0].last_seqno() as int,
        batches_of(calls),
        key,
        snapshot,
    )
}

/// Law: an engine that is dropped and opened again, any number of times with
/// any calls in between, goes on as if it had stayed open: every lookup answers
/// as the history with all batches on top, sequence numbers go on where they
/// were, and the directory can be opened once more. No batch is empty, and
/// numbers last whenever the engine is opened again.
#[verifier::rlimit(30)]
pub proof fn law_rounds_write_the_history<V: Vfs>(dbs: Seq<Db<V>>, calls: Seq<Call>)
    requires
        run_of(dbs, calls),
        forall|i: int|
            #![trigger calls[i]]
            0 <= i < calls.len() ==> (calls[i] matches Call::Write { ops } ==> ops.len() > 0) && (
            calls[i] is Reopen ==> dbs[i].next_file() < u64::MAX && dbs[i].last_seqno()
                < u64::MAX),
        dbs[0].reliable(),
        dbs[0].durable(),
        counted(dbs[0]@, dbs[0].last_seqno()),
    ensures
        dbs.last().reliable(),
        dbs.last().durable(),
        counted(dbs.last()@, dbs.last().last_seqno()),
        dbs.last().same_place(&dbs[0]),
        dbs.last().last_seqno() == dbs[0].last_seqno() + batches_of(calls).len(),
        same_answers(
            dbs.last()@,
            written(dbs[0]@, dbs[0].last_seqno() as int, batches_of(calls)),
        ),
        disk_ok(
            dbs.last().fs_state(),
            dbs.last().dir(),
            master_view(&dbs.last().settings().master_key),
            dbs.last().disk(),
            dbs.last()@,
        ),
        dbs.last().next_file() < u64::MAX && dbs.last().last_seqno() < u64::MAX ==> numbers_left(
            dbs.last().disk(),
        ),
    decreases calls.len(),
{
    if calls.len() > 0 {
        let k = calls.len() - 1;
        let less = calls.drop_last();
        let n = dbs[0].last_seqno() as int;
        let mid = dbs[k];
        assert(run_of(dbs.drop_last(), less)) by {
            assert forall|i: int| 0 <= i < less.len() implies follows(
                dbs.drop_last()[i],
                #[trigger] less[i],
                dbs.drop_last()[i + 1],
            ) by {
                assert(less[i] == calls[i]);
            }
        }
        assert forall|i: int| #![trigger less[i]] 0 <= i < less.len() implies (
        less[i] matches Call::Write { ops } ==> ops.len() > 0) && (less[i] is Reopen
            ==> dbs.drop_last()[i].next_file() < u64::MAX && dbs.drop_last()[i].last_seqno()
            < u64::MAX) by {
            assert(less[i] == calls[i]);
        }
        law_rounds_write_the_history(dbs.drop_last(), less);
        assert(follows(mid, calls[k], dbs[k + 1]));
        match calls[k] {
            Call::Write { ops } => {
                assert(batches_of(calls).drop_last() =~= batches_of(less));
                lemma_same_on_top(
                    (n + batches_of(calls).len()) as u64,
                    ops,
                    mid@,
                    written(dbs[0]@, n, batches_of(less)),
                );
                law_write_counts(mid@, dbs[k + 1].last_seqno(), ops);
            },
            Call::Reopen => {
                mid.lemma_durable();
                assert(dbs[k + 1].restores(mid.disk(), mid@));
                law_reopening_restores(mid, dbs[k + 1]);
                let log = written(dbs[0]@, n, batches_of(less));
                assert forall|key: Seq<u8>, snapshot: u64|
                    #![trigger lookup(dbs[k + 1]@, key, snapshot)]
                    #![trigger lookup(log, key, snapshot)]
                    lookup(dbs[k + 1]@, key, snapshot) == lookup(log, key, snapshot) by {
                    assert(lookup(dbs[k + 1]@, key, snapshot) == lookup(mid@, key, snapshot));
                }
            },
            _ => {},
        }
    }
    dbs.last().lemma_durable();
}

/// Law: a flush leaves no memtable that holds something, and one table more for
/// each that did. Every lookup answers as before, at every snapshot, and the
/// sequence numbers stay. A second flush has nothing to do.
pub proof fn law_flush<V: Vfs>(before: Db<V>, after: Db<V>)
    requires
        Db::flushed(before, after),
    ensures
        ({
            let a = before.layers_state();
            let b = after.layers_state();
            &&& b.active_memtable@.len() == 0
            &&& b.immutable_memtables@.len() == 0
            &&& b.sstables@.len() == a.sstables@.len() + a.immutable_memtables@.len() + (
            if a.active_memtable@.len() > 0 {
                1int
            } else {
                0
            })
            &&& nothing_pending(b)
        }),
        after.last_seqno() == before.last_seqno(),
        same_answers(after@, before@),
        same_answers(flat(after.layers()), flat(before.layers())),
        before.sound() ==> after.sound(),
{
    let mem = memtable_layers(after.layers_state());
    assert(mem[0] == after.layers_state().active_memtable@);
    assert(memtable_layers(before.layers_state())[0]
        == before.layers_state().active_memtable@);
}

/// Law: what a flush wrote is durable before it returns: the bytes of every new table
/// (table `i`) are those that were made durable. On a file system that does what it is
/// asked, the log of each memtable that was written (memtable `j` of the frozen ones, or
/// the active one) has no name any more.
pub proof fn law_flush_is_durable<V: Vfs>(before: Db<V>, after: Db<V>, i: int, j: int)
    requires
        Db::flushed(before, after),
    ensures
        ({
            let a = before.layers_state();
            let b = after.layers_state();
            let file = b.sstables@[i].reader.handle().id();
            let synced = V::File::fs_synced(&after.fs());
            0 <= i < b.sstables@.len() - a.sstables@.len() ==> synced.dom().contains(file)
                && synced[file] == after.fs_state().files[file]
        }),
        ({
            let frozen = before.layers_state().immutable_memtables@;
            let id = frozen[j].wal_segment_id;
            before.reliable() && 0 <= j < frozen.len() && id != 0
                ==> !after.fs_state().names.dom().contains(wal_path(before.dir(), id))
        }),
        before.reliable() && before.layers_state().active_memtable@.len() > 0
            && before.wal_segment() != 0 ==> !after.fs_state().names.dom().contains(
            wal_path(before.dir(), before.wal_segment()),
        ),
{
    let b = after.layers_state();
    assert(memtable_layers(before.layers_state())[0]
        == before.layers_state().active_memtable@);
    if 0 <= i < b.sstables@.len() - before.layers_state().sstables@.len() {
        assert(table_synced(&after.fs(), b.sstables@[i]));
    }
    let frozen = before.layers_state().immutable_memtables@;
    if before.reliable() && 0 <= j < frozen.len() {
        assert(segment_gone(after.fs_state(), before.dir(), frozen[j].wal_segment_id));
    }
}

/// Law: the table that a compaction wrote is durable before it returns, and holds every
/// record of the tables before, and no other.
pub proof fn law_compaction_is_durable<V: Vfs>(before: Db<V>, after: Db<V>)
    requires
        Db::compacted(before, after),
        before.layers_state().sstables@.len() >= 2,
    ensures
        ({
            let file = after.layers_state().sstables@[0].reader.handle().id();
            let synced = V::File::fs_synced(&after.fs());
            synced.dom().contains(file) && synced[file] == after.fs_state().files[file]
        }),
        table_layers(after.layers_state(), &after.fs())[0].to_multiset() == flat(
            table_layers(before.layers_state(), &before.fs()),
        ).to_multiset(),
{
    law_merge_keeps_entries(table_layers(before.layers_state(), &before.fs()));
}

/// Law: a compaction leaves one table, or none where there was none. Every
/// lookup answers as before, at every snapshot, and sequence numbers and
/// memtables stay. Of two tables or more, on a file system that does what it is
/// asked, the files go, and no other than one new one comes. It does come where
/// the directory holds the history.
pub proof fn law_compaction<V: Vfs>(before: Db<V>, after: Db<V>)
    requires
        Db::compacted(before, after),
    ensures
        ({
            let n = before.layers_state().sstables@.len();
            &&& after.layers_state().sstables@.len() == (if n < 1 {
                n
            } else {
                1
            })
            &&& n < 2 ==> after.fs_state() == before.fs_state()
            &&& n >= 2 && before.reliable() ==> {
                let new = table_path(before.dir(), after.layers_state().sstables@[0].id);
                let old_ids = table_numbers(before.layers_state());
                &&& forall|i: int|
                    0 <= i < n ==> !after.fs_state().names.dom().contains(
                        table_path(before.dir(), #[trigger] old_ids[i]),
                    )
                &&& before.durable() ==> after.fs_state().names.dom().contains(new)
                &&& forall|p: Seq<char>| #[trigger]
                    after.fs_state().names.dom().contains(p) ==> p == new
                        || before.fs_state().names.dom().contains(p)
            }
        }),
        after.last_seqno() == before.last_seqno(),
        memtable_layers(after.layers_state()) == memtable_layers(before.layers_state()),
        same_answers(after@, before@),
        before.sound() ==> after.sound(),
{
    let old_ids = table_numbers(before.layers_state());
    if before.layers_state().sstables@.len() >= 2 && before.reliable() {
        assert forall|i: int| 0 <= i < old_ids.len() implies !after.fs_state().names.dom().contains(
            table_path(before.dir(), #[trigger] old_ids[i]),
        ) by {
            assert(is_table_file(
                before.dir(),
                old_ids,
                table_path(before.dir(), old_ids[i]),
            ));
        }
        if before.durable() {
            before.lemma_durable();
            let new = before.next_file();
            assert forall|i: int| 0 <= i < old_ids.len() implies table_path(before.dir(), new)
                != table_path(before.dir(), #[trigger] old_ids[i]) by {
                assert(before.layers_state().sstables@[i].id < new);
                crate::engine::names::lemma_paths_differ(before.dir(), new, old_ids[i]);
            }
        }
    }
}

/// Law: in a sound engine no answer is newer than the last sequence number, so
/// a reader with a greater one sees the latest state.
pub proof fn law_latest_state<V: Vfs>(db: Db<V>, key: Seq<u8>, snapshot: u64)
    requires
        db.sound(),
        snapshot >= db.last_seqno(),
    ensures
        lookup(db@, key, snapshot) == lookup(db@, key, db.last_seqno()),
{
    db.lemma_sound();
    lemma_lookup_earlier(db@, key, snapshot, db.last_seqno());
    assert(lookup(db@, key, snapshot) matches Some(e) ==> e.seqno <= db.last_seqno());
}

// ----- Reads, table by table -----

/// What table `i` of an engine answers.
pub open spec fn table_answer<V: Vfs>(
    db: Db<V>,
    i: int,
    key: Seq<u8>,
    snapshot: u64,
) -> core::result::Result<Option<Entry>, Fault> {
    let rd = db.layers_state().sstables@[i].reader;
    table_get(bytes_of(&rd.handle(), &db.fs()), rd.crypto_view(), rd.table(), key, snapshot)
}

/// What the memtables of an engine answer.
pub open spec fn memory_answer<V: Vfs>(db: Db<V>, key: Seq<u8>, snapshot: u64) -> Option<Entry> {
    lookup(flat(memtable_layers(db.layers_state())), key, snapshot)
}

/// Neither the memtables nor the tables before table `i` answer anything.
pub open spec fn unanswered_before<V: Vfs>(
    db: Db<V>,
    i: int,
    key: Seq<u8>,
    snapshot: u64,
) -> bool {
    &&& memory_answer(db, key, snapshot) is None
    &&& forall|m: int|
        0 <= m < i ==> (#[trigger] table_answer(db, m, key, snapshot)) == Ok::<
            Option<Entry>,
            Fault,
        >(None)
}

/// Tables that answer nothing are passed over.
proof fn lemma_tables_passed<V: Vfs>(db: Db<V>, i: int, key: Seq<u8>, snapshot: u64, from: int)
    requires
        unanswered_before(db, i, key, snapshot),
        0 <= from <= i <= db.layers_state().sstables@.len(),
    ensures
        tables_get(db.layers_state().sstables@, &db.fs(), key, snapshot, from) == tables_get(
            db.layers_state().sstables@,
            &db.fs(),
            key,
            snapshot,
            i,
        ),
    decreases i - from,
{
    if from < i {
        assert(table_answer(db, from, key, snapshot) == Ok::<Option<Entry>, Fault>(None));
        lemma_tables_passed(db, i, key, snapshot, from + 1);
    }
}

/// Law: a read never passes over a table that cannot be read. If nothing before
/// it answers, the read fails, and for the very reason that the table gives: it
/// finds neither nothing nor what an older table holds.
pub proof fn law_read_meets_fault<V: Vfs>(
    db: Db<V>,
    r: Result<Option<Vec<u8>>>,
    i: int,
    f: Fault,
    key: Seq<u8>,
    snapshot: u64,
)
    requires
        db.read_gives(r, key, snapshot),
        0 <= i < db.layers_state().sstables@.len(),
        unanswered_before(db, i, key, snapshot),
        table_answer(db, i, key, snapshot) == Err::<Option<Entry>, Fault>(f),
    ensures
        state_get(db.layers_state(), &db.fs(), key, snapshot) == Err::<Option<Entry>, Fault>(f),
        r is Err,
        db.reliable() ==> (f matches Fault::Refused(why) ==> r->Err_0@ == why),
        f is Io ==> r->Err_0 is Io,
{
    lemma_tables_passed(db, i, key, snapshot, 0);
}

/// The first table that does not answer that it holds nothing, or their number.
proof fn first_answering<V: Vfs>(db: Db<V>, key: Seq<u8>, snapshot: u64, n: int) -> (i: int)
    requires
        0 <= n <= db.layers_state().sstables@.len(),
    ensures
        0 <= i <= n,
        forall|m: int|
            0 <= m < i ==> (#[trigger] table_answer(db, m, key, snapshot)) == Ok::<
                Option<Entry>,
                Fault,
            >(None),
        i < n ==> table_answer(db, i, key, snapshot) != Ok::<Option<Entry>, Fault>(None),
    decreases n,
{
    if n == 0 {
        0
    } else {
        let i = first_answering(db, key, snapshot, n - 1);
        if i == n - 1 && table_answer(db, i, key, snapshot) == Ok::<Option<Entry>, Fault>(None) {
            n
        } else {
            i
        }
    }
}

/// What a version of a key stands for: a value, or none where it is a tombstone.
pub open spec fn value_of(e: Entry) -> Option<Seq<u8>> {
    match e.op {
        RecordOp::Put => Some(e.value),
        RecordOp::Tombstone => None,
    }
}

/// Law: a read that succeeds gives what the newest layer that answers holds. It
/// is a memtable's version; or that of table `i`, and then the memtables and every
/// newer table were asked and answered that they hold nothing; or nothing, and
/// then all of them did.
pub proof fn law_read_is_the_newest_answer<V: Vfs>(
    db: Db<V>,
    r: Result<Option<Vec<u8>>>,
    key: Seq<u8>,
    snapshot: u64,
) -> (i: int)
    requires
        db.read_gives(r, key, snapshot),
        r is Ok,
    ensures
        ({
            let tables = db.layers_state().sstables@;
            let value = match r->Ok_0 {
                Some(v) => Some(v@),
                None => None::<Seq<u8>>,
            };
            match memory_answer(db, key, snapshot) {
                Some(e) => value == value_of(e),
                None => {
                    &&& 0 <= i <= tables.len()
                    &&& unanswered_before(db, i, key, snapshot)
                    &&& i == tables.len() ==> value is None
                    &&& i < tables.len() ==> (table_answer(db, i, key, snapshot) matches Ok(Some(e))
                        && value == value_of(e))
                },
            }
        }),
{
    let n = db.layers_state().sstables@.len() as int;
    if memory_answer(db, key, snapshot) is Some {
        0
    } else {
        let i = first_answering(db, key, snapshot, n);
        lemma_tables_passed(db, i, key, snapshot, 0);
        i
    }
}

// ----- What is refused -----

/// The operation can be written and held: its key and value have lengths that
/// four bytes can hold, and together with a node's header fit in memory.
pub open spec fn op_in_range(op: OpView) -> bool {
    match op {
        OpView::Put { key, value } => key.len() <= 0xFFFF_FFFF && value.len() <= 0xFFFF_FFFF
            && key.len() + value.len() + 152 <= usize::MAX,
        OpView::Delete { key } => key.len() <= 0xFFFF_FFFF && key.len() + 152 <= usize::MAX,
    }
}

/// Law: a write is refused only where it must be. On a file system that does
/// what it is asked, with the history in the directory and numbers left, every
/// batch of up to 1048576 operations whose keys and values are in range is
/// written. It takes the next sequence number, every key reads as its last
/// operation left it, and all others as before.
pub proof fn law_write_succeeds<V: Vfs>(
    before: Db<V>,
    after: Db<V>,
    r: Result<()>,
    ops: Seq<OpView>,
)
    requires
        Db::writes(before, after, r, ops),
        before.reliable(),
        before.durable(),
        before.next_file() < u64::MAX,
        before.last_seqno() <= u64::MAX - 2,
        ops.len() <= 1048576,
        forall|i: int| 0 <= i < ops.len() ==> op_in_range(#[trigger] ops[i]),
    ensures
        r is Ok,
        after.durable(),
        after.last_seqno() == before.last_seqno() + 1,
        forall|i: int|
            #![trigger ops[i]]
            0 <= i < ops.len() && (forall|j: int|
                i < j < ops.len() ==> op_key(#[trigger] ops[j]) != op_key(ops[i])) ==> live_value(
                lookup(after@, op_key(ops[i]), after.last_seqno()),
            ) == op_value(ops[i]),
        forall|key: Seq<u8>, snapshot: u64|
            (snapshot <= before.last_seqno() || forall|j: int|
                0 <= j < ops.len() ==> op_key(#[trigger] ops[j]) != key) ==> #[trigger] lookup(
                after@,
                key,
                snapshot,
            ) == lookup(before@, key, snapshot),
{
    before.lemma_can_rotate();
    let n = (before.last_seqno() + 1) as u64;
    assert forall|i: int| 0 <= i < ops.len() implies (#[trigger] ops[i]).encodable()
        && crate::engine::disk::op_fits(ops[i]) by {
        assert(op_in_range(ops[i]));
    }
    assert forall|i: int|
        #![trigger ops[i]]
        0 <= i < ops.len() && (forall|j: int|
            i < j < ops.len() ==> op_key(#[trigger] ops[j]) != op_key(ops[i])) implies live_value(
        lookup(after@, op_key(ops[i]), n),
    ) == op_value(ops[i]) by {
        law_batch_is_read_back(before@, n, ops, i, n);
    }
    assert forall|key: Seq<u8>, snapshot: u64|
        (snapshot <= before.last_seqno() || forall|j: int|
            0 <= j < ops.len() ==> op_key(#[trigger] ops[j]) != key) implies #[trigger] lookup(
        after@,
        key,
        snapshot,
    ) == lookup(before@, key, snapshot) by {
        if snapshot <= before.last_seqno() {
            law_snapshot_is_stable(before@, n, ops, key, snapshot);
        } else {
            law_other_keys_are_untouched(before@, n, ops, key, snapshot);
        }
    }
}

/// Law: a batch with more operations than 1048576, or with one that is out of
/// range, is refused, and so is any batch where sequence numbers run out. Then
/// nothing at all is written.
pub proof fn law_write_is_refused_whole<V: Vfs>(
    before: Db<V>,
    after: Db<V>,
    r: Result<()>,
    ops: Seq<OpView>,
)
    requires
        Db::writes(before, after, r, ops),
        ops.len() > 1048576 || before.last_seqno() > u64::MAX - 2 || exists|i: int|
            0 <= i < ops.len() && !op_in_range(#[trigger] ops[i]),
    ensures
        r matches Err(e) && e@ is InvalidArgument,
        after == before,
{
    if exists|i: int| 0 <= i < ops.len() && !op_in_range(#[trigger] ops[i]) {
        let i = choose|i: int| 0 <= i < ops.len() && !op_in_range(#[trigger] ops[i]);
        assert(!ops[i].encodable() || !crate::engine::disk::op_fits(ops[i]));
    }
}

/// Law: a flush is refused only for weight, and for want of numbers. Where the
/// keys and values of each memtable, with 64 bytes for each entry, make up no more
/// than 2147418112 bytes, nothing stands against it.
pub proof fn law_flush_is_refused_for_weight_only<V: Vfs>(db: Db<V>)
    requires
        ({
            let mem = memtable_layers(db.layers_state());
            &&& forall|i: int|
                0 <= i < mem.len() ==> payload(#[trigger] mem[i]) + 64 * mem[i].len()
                    <= 2_147_418_112
            &&& db.last_seqno() < u64::MAX
            &&& db.next_file() + mem.len() < u64::MAX
        }),
    ensures
        db.flush_refused() is None,
{
    let mem = memtable_layers(db.layers_state());
    let bits = db.settings().bloom_bits_per_key;
    let encrypted = db.settings().master_key is Some;
    let frozen = mem.subrange(1, mem.len() as int);
    assert forall|i: int| 0 <= i < frozen.len() implies payload(#[trigger] frozen[i]) + 64
        * frozen[i].len() <= 2_147_418_112 by {
        assert(frozen[i] == mem[i + 1]);
    }
    law_light_memtables_are_written(frozen, db.next_file() as int, bits, encrypted);
    law_light_memtables_are_written(mem, db.next_file() + 1, bits, encrypted);
}

/// Law: a compaction is refused only for weight, and for want of numbers, where
/// the directory holds the history. The keys and values of all tables, with 64
/// bytes for each entry, may make up 2147418112 bytes, and the filter be asked to
/// hold 33554432 keys at least.
pub proof fn law_compaction_is_refused_for_weight_only<V: Vfs>(db: Db<V>)
    requires
        db.valid(),
        db.durable(),
        db.next_file() < u64::MAX,
        db.settings().sstable_capacity_hint <= 33_554_432,
        ({
            let all = flat(table_layers(db.layers_state(), &db.fs()));
            payload(all) + 64 * all.len() <= 2_147_418_112
        }),
    ensures
        db.merge_refused() is None,
{
    let runs = table_layers(db.layers_state(), &db.fs());
    let all = merged(runs);
    let inputs = readers(&db.layers_state());
    let floor = db.settings().sstable_capacity_hint;
    let bits = db.settings().bloom_bits_per_key;
    db.lemma_merge_refused();
    db.lemma_durable();
    db.lemma_sound_tables();
    law_merge_keeps_entries(runs);
    lemma_payload_of_multiset(all, flat(runs));
    assert(runs_of(input_queues(inputs, &db.fs())) =~= runs);
    law_capacity_counts_every_record(inputs, &db.fs(), floor);
    let n = output_capacity(inputs, floor) as usize;
    law_blocks_make_up_the_budget(n, n, bits);
    assert(n * bits <= 33_554_432 * 255) by (nonlinear_arith)
        requires
            0 <= n <= 33_554_432,
            0 <= bits <= 255,
    ;
    law_light_table_is_accepted(
        all,
        DEFAULT_BLOCK_SIZE as nat,
        db.settings().master_key is Some,
        Some(blocks_for(n, bits)),
    );
}

/// Entries weigh the same in whatever order they stand.
proof fn lemma_payload_of_multiset(a: Seq<Entry>, b: Seq<Entry>)
    requires
        a.to_multiset() == b.to_multiset(),
    ensures
        payload(a) == payload(b),
        a.len() == b.len(),
    decreases a.len(),
{
    broadcast use vstd::seq_lib::group_to_multiset_ensures;

    if a.len() > 0 {
        let e = a.last();
        let less = a.drop_last();
        assert(a =~= less.push(e));
        assert(a.to_multiset().count(e) > 0);
        assert(b.contains(e));
        let i = choose|i: int| 0 <= i < b.len() && b[i] == e;
        let rest = b.remove(i);
        assert(rest.to_multiset() =~= b.to_multiset().remove(e));
        assert(less.to_multiset() =~= rest.to_multiset()) by {
            assert(a.to_multiset() =~= less.to_multiset().insert(e));
        }
        lemma_payload_of_multiset(less, rest);
        let (x, y) = (b.subrange(0, i), b.subrange(i + 1, b.len() as int));
        assert(b =~= x + (seq![e] + y));
        assert(rest =~= x + y);
        lemma_payload_concat(x, seq![e] + y);
        lemma_payload_concat(seq![e], y);
        lemma_payload_concat(x, y);
        assert(payload(seq![e]) == e.key.len() + e.value.len()) by {
            reveal_with_fuel(payload, 2);
            assert(seq![e].drop_last() =~= Seq::<Entry>::empty());
        }
    } else if b.len() > 0 {
        assert(b.to_multiset().count(b[0]) > 0);
        assert(b.contains(b[0]));
    }
}

// ----- Opening what is damaged -----

/// A table that does not load fails the opening.
proof fn lemma_tables_fault(
    state: FsState,
    dir: Seq<char>,
    master: Option<Seq<u8>>,
    ids: Seq<u64>,
    i: int,
)
    requires
        0 <= i < ids.len(),
        table_fault(state, dir, master, ids[i]) is Some,
    ensures
        tables_fault(state, dir, master, ids) is Some,
    decreases ids.len(),
{
    if i < ids.len() - 1 {
        assert(ids.drop_last()[i] == ids[i]);
        lemma_tables_fault(state, dir, master, ids.drop_last(), i);
    }
}

/// A segment that does not load fails the opening.
proof fn lemma_segments_fault(state: FsState, dir: Seq<char>, ids: Seq<u64>, i: int, from: int)
    requires
        0 <= from <= i < ids.len(),
        segment_fault(state, dir, ids[i]) is Some,
    ensures
        segments_fault(state, dir, ids, from as nat) is Some,
    decreases i - from,
{
    if from < i {
        lemma_segments_fault(state, dir, ids, i, from + 1);
    }
}

/// A record that cannot be applied fails the segment.
proof fn lemma_records_fault(records: Seq<LogRecord>, i: int, from: int)
    requires
        0 <= from <= i < records.len(),
        record_fault(records[i]) is Some,
    ensures
        records_fault(records, from as nat) is Some,
    decreases i - from,
{
    if from < i {
        lemma_records_fault(records, i, from + 1);
    }
}

/// Law: an engine does not open without one of its tables. Where the file of a
/// listed table is gone or does not open, neither does the directory.
pub proof fn law_open_meets_damaged_table(
    state: FsState,
    dir: Seq<char>,
    master: Option<Seq<u8>>,
    wals: Seq<u64>,
    tables: Seq<u64>,
    i: int,
)
    requires
        0 <= i < tables.len(),
        ({
            let path = table_path(dir, tables[i]);
            state.names.dom().contains(path) ==> parse_table(
                state.files[state.names[path]],
                master is Some,
            ) is Err
        }),
    ensures
        open_fault(state, dir, master, wals, tables) is Some,
{
    lemma_tables_fault(state, dir, master, tables, i);
}

/// Law: an engine does not open past a segment of its log that is damaged in a
/// way that no torn write leaves. Where the file of a listed segment is gone, its
/// header is not accepted, its fragments do not make up records, or a record is
/// no batch, the directory does not open.
pub proof fn law_open_meets_damaged_segment(
    state: FsState,
    dir: Seq<char>,
    master: Option<Seq<u8>>,
    wals: Seq<u64>,
    tables: Seq<u64>,
    i: int,
    k: int,
)
    requires
        0 <= i < wals.len(),
        ({
            let path = wal_path(dir, wals[i]);
            let bytes = state.files[state.names[path]];
            let area = bytes.subrange(32, bytes.len() as int);
            state.names.dom().contains(path) ==> {
                ||| parse_segment(bytes) is Err
                ||| replay_from(area, 0).1 is Bad
                ||| 0 <= k < replay_from(area, 0).0.len() && parse_batch(
                    replay_from(area, 0).0[k].payload,
                ) is Err
            }
        }),
    ensures
        open_fault(state, dir, master, wals, tables) is Some,
{
    let path = wal_path(dir, wals[i]);
    let bytes = state.files[state.names[path]];
    let records = replay_from(bytes.subrange(32, bytes.len() as int), 0).0;
    if state.names.dom().contains(path) && 0 <= k < records.len() && parse_batch(
        records[k].payload,
    ) is Err {
        assert(record_fault(records[k]) is Some);
        lemma_records_fault(records, k, 0);
    }
    lemma_segments_fault(state, dir, wals, i, 0);
}

/// Tables that all load are no fault.
proof fn lemma_no_tables_fault(
    state: FsState,
    dir: Seq<char>,
    master: Option<Seq<u8>>,
    ids: Seq<u64>,
)
    requires
        forall|i: int|
            0 <= i < ids.len() ==> table_fault(state, dir, master, #[trigger] ids[i]) is None,
    ensures
        tables_fault(state, dir, master, ids) is None,
    decreases ids.len(),
{
    if ids.len() > 0 {
        assert(ids[ids.len() - 1] == ids.last());
        assert forall|i: int| 0 <= i < ids.len() - 1 implies table_fault(
            state,
            dir,
            master,
            #[trigger] ids.drop_last()[i],
        ) is None by {
            assert(ids.drop_last()[i] == ids[i]);
        }
        lemma_no_tables_fault(state, dir, master, ids.drop_last());
    }
}

/// Segments that all load are no fault.
proof fn lemma_no_segments_fault(state: FsState, dir: Seq<char>, ids: Seq<u64>, from: int)
    requires
        0 <= from <= ids.len(),
        forall|i: int| 0 <= i < ids.len() ==> segment_fault(state, dir, #[trigger] ids[i]) is None,
    ensures
        segments_fault(state, dir, ids, from as nat) is None,
    decreases ids.len() - from,
{
    if from < ids.len() {
        assert(segment_fault(state, dir, ids[from]) is None);
        lemma_no_segments_fault(state, dir, ids, from + 1);
    }
}

/// Records that can all be applied are no fault.
proof fn lemma_no_records_fault(records: Seq<LogRecord>, from: int)
    requires
        0 <= from <= records.len(),
        forall|i: int| 0 <= i < records.len() ==> record_fault(#[trigger] records[i]) is None,
    ensures
        records_fault(records, from as nat) is None,
    decreases records.len() - from,
{
    if from < records.len() {
        assert(record_fault(records[from]) is None);
        lemma_no_records_fault(records, from + 1);
    }
}

/// The record holds a batch, of operations of less than four gigabytes each.
pub open spec fn holds_batch(r: LogRecord) -> bool {
    parse_batch(r.payload) matches Ok(ops) && forall|i: int|
        0 <= i < ops.len() ==> ops_payload(seq![#[trigger] ops[i]]) < 0xFFFF_0000
}

/// Law: a directory opens unless something is wrong with it. It does where every
/// listed table opens, every listed segment has a good header, is not torn but at
/// its end, and holds nothing but batches, numbers are left, and nothing lies where
/// the new segment goes.
pub proof fn law_sound_directory_opens(
    state: FsState,
    dir: Seq<char>,
    master: Option<Seq<u8>>,
    wals: Seq<u64>,
    tables: Seq<u64>,
)
    requires
        forall|i: int|
            0 <= i < tables.len() ==> ({
                let path = table_path(dir, #[trigger] tables[i]);
                state.names.dom().contains(path) && parse_table(
                    state.files[state.names[path]],
                    master is Some,
                ) is Ok
            }),
        forall|i: int|
            0 <= i < wals.len() ==> ({
                let path = wal_path(dir, #[trigger] wals[i]);
                let bytes = state.files[state.names[path]];
                let found = replay_from(bytes.subrange(32, bytes.len() as int), 0);
                &&& state.names.dom().contains(path)
                &&& parse_segment(bytes) is Ok
                &&& found.1 !is Bad
                &&& forall|k: int| 0 <= k < found.0.len() ==> holds_batch(#[trigger] found.0[k])
            }),
        next_number(wals, tables) < u64::MAX,
        known_seqno(state, dir, master, wals, tables) < u64::MAX,
        !state.names.dom().contains(wal_path(dir, next_number(wals, tables) as u64)),
    ensures
        open_fault(state, dir, master, wals, tables) is None,
{
    assert forall|i: int| 0 <= i < tables.len() implies table_fault(
        state,
        dir,
        master,
        #[trigger] tables[i],
    ) is None by {}
    lemma_no_tables_fault(state, dir, master, tables);
    assert forall|i: int| 0 <= i < wals.len() implies segment_fault(
        state,
        dir,
        #[trigger] wals[i],
    ) is None by {
        let bytes = state.files[state.names[wal_path(dir, wals[i])]];
        let found = replay_from(bytes.subrange(32, bytes.len() as int), 0);
        assert forall|k: int| 0 <= k < found.0.len() implies record_fault(
            #[trigger] found.0[k],
        ) is None by {
            assert(holds_batch(found.0[k]));
            let ops = parse_batch(found.0[k].payload)->Ok_0;
            assert forall|j: int| 0 <= j < ops.len() implies op_fits(#[trigger] ops[j]) by {
                reveal_with_fuel(ops_payload, 2);
                assert(ops_payload(seq![ops[j]]) < 0xFFFF_0000);
                assert(seq![ops[j]].drop_last() =~= Seq::<OpView>::empty());
                assert(seq![ops[j]].last() == ops[j]);
            }
        }
        lemma_no_records_fault(found.0, 0);
    }
    lemma_no_segments_fault(state, dir, wals, 0);
}

proof fn lemma_record_listed(segments: Seq<Segment>, i: int, k: int)
    requires
        0 <= i < segments.len(),
        0 <= k < segments[i].records.len(),
    ensures
        all_records(segments).contains(segments[i].records[k]),
    decreases segments.len(),
{
    let front = all_records(segments.drop_last());
    let all = all_records(segments);
    if i < segments.len() - 1 {
        assert(segments.drop_last()[i] == segments[i]);
        lemma_record_listed(segments.drop_last(), i, k);
        let p = choose|p: int| 0 <= p < front.len() && front[p] == segments[i].records[k];
        assert(all[p] == segments[i].records[k]);
    } else {
        assert(all[front.len() + k] == segments[i].records[k]);
    }
}

proof fn lemma_record_top_covers(records: Seq<LogRecord>, start: u64, i: int)
    ensures
        start <= record_top(records, start),
        0 <= i < records.len() ==> records[i].seqno <= record_top(records, start),
    decreases records.len(),
{
    if records.len() > 0 {
        lemma_record_top_covers(records.drop_last(), start, i);
    }
}

proof fn lemma_tables_top_covers(
    state: FsState,
    dir: Seq<char>,
    master: Option<Seq<u8>>,
    ids: Seq<u64>,
    i: int,
)
    requires
        0 <= i < ids.len(),
    ensures
        parse_table(
            state.files[state.names[table_path(dir, ids[i])]],
            master is Some,
        )->Ok_0.header.max_seqno <= tables_top(state, dir, master, ids),
    decreases ids.len(),
{
    let rest = ids.subrange(1, ids.len() as int);
    if i > 0 {
        assert(rest[i - 1] == ids[i]);
        lemma_tables_top_covers(state, dir, master, rest, i - 1);
    }
}

/// Law: no sequence number is given out again after a directory was opened: the one
/// that the engine goes on from is at least that of every record of every segment
/// (record `k` of segment `i`), and that of every record of every table (table `j`),
/// as its header tells.
pub proof fn law_sequence_numbers_go_on(
    state: FsState,
    dir: Seq<char>,
    master: Option<Seq<u8>>,
    wals: Seq<u64>,
    tables: Seq<u64>,
    i: int,
    k: int,
    j: int,
)
    ensures
        ({
            let bytes = state.files[state.names[wal_path(dir, wals[i])]];
            let records = replay_from(bytes.subrange(32, bytes.len() as int), 0).0;
            0 <= i < wals.len() && 0 <= k < records.len() ==> records[k].seqno <= known_seqno(
                state,
                dir,
                master,
                wals,
                tables,
            )
        }),
        0 <= j < tables.len() ==> parse_table(
            state.files[state.names[table_path(dir, tables[j])]],
            master is Some,
        )->Ok_0.header.max_seqno <= known_seqno(state, dir, master, wals, tables),
{
    let segments = segments_at(state, dir, wals);
    let all = all_records(segments);
    let top = tables_top(state, dir, master, tables);
    if 0 <= i < wals.len() && 0 <= k < segments[i].records.len() {
        lemma_record_listed(segments, i, k);
        let p = choose|p: int| 0 <= p < all.len() && all[p] == segments[i].records[k];
        lemma_record_top_covers(all, top, p);
    }
    if 0 <= j < tables.len() {
        lemma_tables_top_covers(state, dir, master, tables, j);
        lemma_record_top_covers(all, top, 0);
    }
}

/// Law: new files get numbers that none has had. The next one is beyond every
/// segment and every table, and no further than it must be.
pub proof fn law_next_number_is_new(wals: Seq<u64>, tables: Seq<u64>, i: int)
    requires
        ascending(wals),
        ascending(tables),
    ensures
        0 <= i < wals.len() ==> wals[i] < next_number(wals, tables),
        0 <= i < tables.len() ==> tables[i] < next_number(wals, tables),
        next_number(wals, tables) >= 1,
        next_number(wals, tables) == 1 || (exists|j: int|
            0 <= j < wals.len() && #[trigger] wals[j] + 1 == next_number(wals, tables)) || (exists|
            j: int,
        | 0 <= j < tables.len() && #[trigger] tables[j] + 1 == next_number(wals, tables)),
{
    if wals.len() > 0 {
        assert(wals[wals.len() - 1] == wals.last());
    }
    if tables.len() > 0 {
        assert(tables[tables.len() - 1] == tables.last());
    }
}

// ----- The log -----

/// Law: a write adds to the log and changes no other file. What the log's file held
/// it still holds; behind it lies the record, no shorter than the keys and values.
pub proof fn law_write_is_logged<V: Vfs>(
    before: Db<V>,
    after: Db<V>,
    r: Result<()>,
    ops: Seq<OpView>,
    file: int,
)
    requires
        before.valid(),
        Db::writes(before, after, r, ops),
        r is Ok,
    ensures
        ({
            let old_log = before.fs_state().files[before.wal_file()];
            let log = after.fs_state().files[before.wal_file()];
            &&& log.len() >= old_log.len() + 16 + ops_payload(ops)
            &&& log.subrange(0, old_log.len() as int) == old_log
        }),
        before.fs_state().files.dom().contains(file) && file != before.wal_file() && file
            != after.wal_file() ==> after.fs_state().files[file] == before.fs_state().files[file],
{
    assert forall|i: int| 0 <= i < ops.len() implies lengths_fit(#[trigger] ops[i]) by {
        assert(ops[i].encodable());
    }
    law_batch_size(ops);
    let n = (before.last_seqno() + 1) as u64;
    let old_log = before.fs_state().files[before.wal_file()];
    let log = after.fs_state().files[before.wal_file()];
    lemma_record_len(before.wal_position(), n, encoded_batch(ops));
    assert(log == before.logged(ops).files[before.wal_file()]);
    assert(log.subrange(0, old_log.len() as int) =~= old_log);
}

/// Law: where a write starts a new segment, the segment's file holds a header and
/// nothing else, with the segment's number, and the number of the first write that
/// will come to stand in it.
pub proof fn law_new_segment_is_for_the_next_write<V: Vfs>(
    before: Db<V>,
    after: Db<V>,
    r: Result<()>,
    ops: Seq<OpView>,
)
    requires
        Db::writes(before, after, r, ops),
        r is Ok,
        after.next_file() != before.next_file(),
        after.last_seqno() < u64::MAX,
    ensures
        ({
            let bytes = after.fs_state().files[after.wal_file()];
            let header = SegmentHeader::parse(bytes);
            &&& bytes.len() == 32
            &&& header.valid()
            &&& header.segment_id == before.next_file()
            &&& header.first_seqno == after.last_seqno() + 1
            &&& after.fs_state().names.dom().contains(wal_path(before.dir(), before.next_file()))
            &&& after.fs_state().names[wal_path(before.dir(), before.next_file())]
                == after.wal_file()
        }),
{
    SegmentHeader::signed(before.next_file(), (after.last_seqno() + 1) as u64).law_round_trip();
}

/// Law: opening a directory adds one file, and changes no other. It holds the header
/// of the segment in which the log goes on, with a number that no file had, and that
/// of the next write.
pub proof fn law_opening_starts_a_segment<V: Vfs>(
    db: Db<V>,
    state: FsState,
    wals: Seq<u64>,
    tables: Seq<u64>,
    file: int,
)
    requires
        db.recovered(state, wals, tables),
        next_number(wals, tables) <= u64::MAX,
        db.last_seqno() < u64::MAX,
    ensures
        ({
            let bytes = db.fs_state().files[db.wal_file()];
            let header = SegmentHeader::parse(bytes);
            &&& bytes.len() == 32
            &&& header.valid()
            &&& header.segment_id == next_number(wals, tables)
            &&& header.first_seqno == db.last_seqno() + 1
        }),
        state.files.dom().contains(file) && file != db.wal_file() ==> db.fs_state().files[file]
            == state.files[file],
{
    SegmentHeader::signed(db.wal_segment(), (db.last_seqno() + 1) as u64).law_round_trip();
}

/// A record takes more bytes than its payload.
proof fn lemma_record_len(pos: nat, seqno: u64, payload: Seq<u8>)
    ensures
        record_bytes(pos, seqno, payload).len() >= 16 + payload.len(),
{
    lemma_next_block(pos);
    lemma_fragments_len(pos + padding(pos).len(), seqno, payload, true);
}

proof fn lemma_fragments_len(pos: nat, seqno: u64, payload: Seq<u8>, is_first: bool)
    requires
        block_room(pos) >= 16,
    ensures
        fragments(pos, seqno, payload, is_first).len() >= 16 + payload.len(),
    decreases payload.len(), (if block_room(pos) == 16 { 1int } else { 0int }),
{
    let room = block_room(pos) - 16;
    if payload.len() <= room {
        RecordHeader::signed(fragment_type(is_first, true), seqno, payload).law_round_trip();
    } else {
        let front = payload.subrange(0, room);
        RecordHeader::signed(fragment_type(is_first, false), seqno, front).law_round_trip();
        lemma_next_block(pos);
        lemma_fragments_len(
            pos + block_room(pos),
            seqno,
            payload.subrange(room, payload.len() as int),
            false,
        );
    }
}

// ----- Rotation -----

/// Law: the memtable is frozen as soon as enough was written, and not before. Where
/// the keys and values alone reach the threshold, together with what was written
/// since the last time, a new memtable is there after the write; where they do not
/// reach it with all that the log adds, there is none. So what a memtable holds
/// beyond the threshold is one batch at most.
pub proof fn law_memtable_is_frozen_in_time<V: Vfs>(
    before: Db<V>,
    after: Db<V>,
    r: Result<()>,
    ops: Seq<OpView>,
)
    requires
        Db::writes(before, after, r, ops),
        r is Ok,
    ensures
        ({
            let threshold = before.settings().memtable_threshold_bytes;
            let frozen = before.layers_state().immutable_memtables@.len();
            let least = before.pending_bytes() + ops_payload(ops);
            let most = least + 11 * ops.len() + 5;
            &&& least >= threshold ==> after.layers_state().immutable_memtables@.len() == frozen
                + 1 && after.pending_bytes() == 0
            &&& most < threshold ==> after.layers_state().immutable_memtables@.len() == frozen
                && after.pending_bytes() >= least
            &&& after.pending_bytes() == 0 || after.pending_bytes() < threshold
        }),
{
    assert forall|i: int| 0 <= i < ops.len() implies lengths_fit(#[trigger] ops[i]) by {
        assert(ops[i].encodable());
    }
    law_batch_size(ops);
    let a = memtable_layers(before.layers_state());
    let b = memtable_layers(after.layers_state());
    assert(a.len() == before.layers_state().immutable_memtables@.len() + 1);
    assert(b.len() == after.layers_state().immutable_memtables@.len() + 1);
}

/// What a directory without segments and tables holds.
pub open spec fn nothing() -> Disk {
    Disk { segments: Seq::empty(), tables: Seq::empty(), cuts: seq![-1] }
}

/// Law: a file system without files holds the empty history, under every
/// directory and key.
pub proof fn law_empty_directory_holds_nothing(
    state: FsState,
    dir: Seq<char>,
    master: Option<Seq<u8>>,
)
    requires
        state.names == Map::<Seq<char>, int>::empty(),
        dir.len() > 0 ==> dir.last() != '/',
    ensures
        disk_ok(state, dir, master, nothing(), Seq::empty()),
        crate::engine::db::numbers_left(nothing()),
{
    let disk = nothing();
    let log = Seq::<Entry>::empty();
    reveal(files_ok);
    assert(runs(disk.tables) =~= Seq::<Seq<Entry>>::empty());
    assert(all_records(disk.segments) =~= Seq::empty());
    assert(stack_ok(runs(disk.tables), disk.cuts, log));
    assert(records_cover(all_records(disk.segments), 0, log, -1));
}

} // verus!
