//! The engine itself.
use vstd::prelude::*;

use crate::checksum::Algorithm;
use crate::compaction::compact::{
    clean, compact_sstables, compaction_fault, files_but, input_queues, lemma_compaction_clean,
    lemma_wrote, output_capacity, touches_only, vacant, wrote_file, CompactionConfig,
};
use crate::compaction::merger::{all_sorted, merged, newest_first, runs_of};
use crate::crypto::aead::AeadKey;
use crate::crypto::kdf::derive_sstable_key;
use crate::engine::disk::{
    all_records, clamped, disk_holds, disk_ok, disk_top, files_ok, history_ok, last_seqno, op_fits,
    replayed, runs, stored, table_crypto, Disk, Segment, TableFile,
};
use crate::engine::flush::{drain_refusal, flush_refusal, flushable, master_view, write_table};
use crate::engine::history::{
    applied, batch_entries, layers_ok, law_layers_answer_as_history, lemma_freeze, lemma_raise,
    lemma_write_batch, same_answers, settled, stack_ok,
};
use crate::engine::names::{sst_path, table_path, wal_path, wal_segment_path};
use crate::engine::recovery::{
    apply_batch_to_memtable, batch_fits, header_top, lemma_ascending_equal, lemma_disk_loads,
    lemma_header_top_of, lemma_listing, lemma_recovered, lemma_tables_top, list_files, open_tables,
    record_top, replay_segments, segment_ids, segment_loads, segments_at, segments_fault,
    sst_attached, ssts_opened, table_ids, table_listing, table_loads, tables_fault, tables_top,
    wal_listing,
};
use crate::engine::state::{DbConfig, EngineState, ImmutableMemtable, LiveSst, Snapshot};
use crate::error::{Error, ErrorView, IoErrorKind, Result};
use crate::filter::blocked_bloom::{blocks_for, BloomParams, BLOCK_BYTES, HEADER_SIZE};
use crate::io::vfs::{
    bytes_of, file_synced, is_open, others_synced, synced_kept, FsState, Vfs, VfsFile,
};
use crate::memtable::arena::capped;
use crate::memtable::skiplist::{NodeRef, OpType, SkipList};
use crate::model::{live_value, lookup, sorted, Entry};
use crate::sstable::format::{RecordOp, DEFAULT_BLOCK_SIZE};
use crate::sstable::reader::{answer_of, LookupHit, SstReader};
use crate::sstable::table::{
    failed_io, failed_with, flat, is_table, lemma_flat_front, lemma_flat_split, parse_table, shows,
    table_get, table_ok, Fault, TableView,
};
use crate::sstable::writer::{table_refusal, MAX_TABLE_WEIGHT};
use crate::wal::batch::{
    encodable_batch, encoded_batch, op_views, Op, OpView, WriteBatch, MAX_OPS_PER_BATCH,
};
use crate::wal::format::SegmentHeader;
use crate::wal::reader::{area_of, LogRecord};
use crate::wal::writer::SegmentWriter;

verus! {

/// What each memtable holds, newest first.
pub open spec fn memtable_layers<V: Vfs>(state: EngineState<V>) -> Seq<Seq<Entry>> {
    seq![state.active_memtable@] + state.immutable_memtables@.map_values(
        |m: ImmutableMemtable| m.memtable@,
    )
}

/// The names are those of `before`, or fewer, and perhaps `path`.
pub open spec fn names_within(after: FsState, before: FsState, path: Seq<char>) -> bool {
    forall|p: Seq<char>| #[trigger]
        after.names.dom().contains(p) ==> before.names.dom().contains(p) || p == path
}

/// WAL segment `id` has no name any more. The number zero stands for no
/// segment.
pub open spec fn segment_gone(state: FsState, dir: Seq<char>, id: u64) -> bool {
    id != 0 ==> !state.names.dom().contains(wal_path(dir, id))
}

/// The file of the table has been made durable.
pub open spec fn table_synced<V: Vfs>(vfs: &V, table: LiveSst<V::File>) -> bool {
    file_synced::<V::File>(vfs, table.reader.handle().id())
}

/// Everything that was written lives in tables.
pub open spec fn nothing_pending<V: Vfs>(state: EngineState<V>) -> bool {
    memtable_layers(state) == seq![Seq::<Entry>::empty()]
}

/// The numbers of the tables, newest first.
pub open spec fn table_numbers<V: Vfs>(state: EngineState<V>) -> Seq<u64> {
    state.sstables@.map_values(|t: LiveSst<V::File>| t.id)
}

/// `path` is that of one of the tables.
pub open spec fn is_table_file(dir: Seq<char>, ids: Seq<u64>, path: Seq<char>) -> bool {
    exists|i: int| 0 <= i < ids.len() && path == table_path(dir, #[trigger] ids[i])
}

/// What each frozen memtable holds.
pub open spec fn frozen_runs(frozen: Seq<ImmutableMemtable>) -> Seq<Seq<Entry>> {
    frozen.map_values(|m: ImmutableMemtable| m.memtable@)
}

/// What each table holds, newest first.
pub open spec fn table_layers<V: Vfs>(state: EngineState<V>, vfs: &V) -> Seq<Seq<Entry>> {
    state.sstables@.map_values(|s: LiveSst<V::File>| s.reader.queue(vfs).0)
}

/// What looking a key up in the tables from `i` on comes to.
pub open spec fn tables_get<V: Vfs>(
    ssts: Seq<LiveSst<V::File>>,
    vfs: &V,
    key: Seq<u8>,
    snapshot: u64,
    i: int,
) -> core::result::Result<Option<Entry>, Fault>
    decreases ssts.len() - i,
{
    if i < 0 || i >= ssts.len() {
        Ok(None)
    } else {
        let rd = ssts[i].reader;
        let here = table_get(
            bytes_of(&rd.handle(), vfs),
            rd.crypto_view(),
            rd.table(),
            key,
            snapshot,
        );
        if here == Ok::<Option<Entry>, Fault>(None) {
            tables_get(ssts, vfs, key, snapshot, i + 1)
        } else {
            here
        }
    }
}

/// What a lookup comes to: memtables first, then tables, newest first.
pub open spec fn state_get<V: Vfs>(
    state: EngineState<V>,
    vfs: &V,
    key: Seq<u8>,
    snapshot: u64,
) -> core::result::Result<Option<Entry>, Fault> {
    match lookup(flat(memtable_layers(state)), key, snapshot) {
        Some(e) => Ok(Some(e)),
        None => tables_get(state.sstables@, vfs, key, snapshot, 0),
    }
}

/// The value that a result gives.
pub open spec fn value_view(v: Option<Vec<u8>>) -> Option<Seq<u8>> {
    match v {
        Some(x) => Some(x@),
        None => None,
    }
}

/// Memtables and readers can be asked.
pub open spec fn state_ready<V: Vfs>(state: EngineState<V>, vfs: &V) -> bool {
    &&& state.active_memtable.wf()
    &&& forall|i: int|
        #![trigger state.immutable_memtables@[i]]
        0 <= i < state.immutable_memtables@.len() ==> state.immutable_memtables@[i].memtable.wf()
    &&& forall|i: int|
        #![trigger state.sstables@[i]]
        0 <= i < state.sstables@.len() ==> {
            let rd = state.sstables@[i].reader;
            &&& rd.wf()
            &&& is_open(&rd.handle(), vfs)
            &&& bytes_of(&rd.handle(), vfs).len() > 0
        }
}

/// Every table is sound.
pub open spec fn tables_sound<V: Vfs>(state: EngineState<V>, vfs: &V) -> bool {
    forall|i: int|
        #![trigger state.sstables@[i]]
        0 <= i < state.sstables@.len() ==> state.sstables@[i].reader.holds_run(
            vfs,
            state.sstables@[i].reader.queue(vfs).0,
        )
}

/// The segments' numbers have been given out.
#[verifier::opaque]
spec fn segs_numbered(segs: Seq<Segment>, next: u64) -> bool {
    forall|i: int| #![trigger segs[i]] 0 <= i < segs.len() ==> segs[i].id < next
}

/// The tables' numbers have been given out, and each reader stands on its
/// table's file.
#[verifier::opaque]
spec fn ssts_tied<V: Vfs>(
    ssts: Seq<LiveSst<V::File>>,
    vfs: &V,
    dir: Seq<char>,
    master: Option<Seq<u8>>,
    next: u64,
) -> bool {
    forall|i: int|
        #![trigger ssts[i]]
        0 <= i < ssts.len() ==> ssts[i].id < next && sst_attached(ssts[i], vfs, dir, master)
}

/// A frozen memtable's segment is not the current one, and holds nothing
/// beyond the memtable.
#[verifier::opaque]
spec fn ims_tied(
    ims: Seq<ImmutableMemtable>,
    segs: Seq<Segment>,
    cuts: Seq<int>,
    wal_id: u64,
    next: u64,
) -> bool {
    &&& forall|i: int|
        #![trigger ims[i]]
        0 <= i < ims.len() ==> ims[i].wal_segment_id < next && ims[i].wal_segment_id != wal_id
    &&& forall|i: int, j: int, k: int|
        #![trigger ims[i], segs[j].records[k]]
        0 <= i < ims.len() && 0 <= j < segs.len() && segs[j].id == ims[i].wal_segment_id && 0 <= k
            < segs[j].records.len() ==> segs[j].records[k].seqno <= cuts[1 + i]
}

/// Write-side state.
struct WriterCtx<V: Vfs> {
    wal: SegmentWriter<V::File>,
    wal_segment_id: u64,
    /// Bytes of batches since the last rotation.
    active_memtable_bytes: usize,
    next_file_number: u64,
}

/// The engine.
///
/// Its view is the history of writes: every entry ever written, newest first.
pub struct Db<V: Vfs> {
    vfs: V,
    data_dir: String,
    config: DbConfig,
    seqno: u64,
    state: EngineState<V>,
    ctx: WriterCtx<V>,
    /// The history of writes, newest first.
    history: Ghost<Seq<Entry>>,
    /// The cuts between the layers' intervals of sequence numbers.
    cuts: Ghost<Seq<int>>,
    /// The WAL segments on disk, oldest first.
    segments: Ghost<Seq<Segment>>,
}

impl<V: Vfs> View for Db<V> {
    type V = Seq<Entry>;

    closed spec fn view(&self) -> Seq<Entry> {
        self.history@
    }
}

impl<V: Vfs> Db<V> {
    /// The file system.
    pub closed spec fn fs(&self) -> V {
        self.vfs
    }

    /// State of the file system.
    pub open spec fn fs_state(&self) -> FsState {
        V::File::fs_state(&self.fs())
    }

    /// The file system does what it is asked.
    pub open spec fn reliable(&self) -> bool {
        V::File::fs_reliable(&self.fs())
    }

    /// The data directory.
    pub closed spec fn dir(&self) -> Seq<char> {
        self.data_dir@
    }

    /// The configuration.
    pub closed spec fn settings(&self) -> DbConfig {
        self.config
    }

    /// The last sequence number given out.
    pub closed spec fn last_seqno(&self) -> u64 {
        self.seqno
    }

    /// The number that the next file gets.
    pub closed spec fn next_file(&self) -> u64 {
        self.ctx.next_file_number
    }

    /// Number of the current WAL segment.
    pub closed spec fn wal_segment(&self) -> u64 {
        self.ctx.wal_segment_id
    }

    /// Bytes of batches since the last rotation.
    pub closed spec fn pending_bytes(&self) -> usize {
        self.ctx.active_memtable_bytes
    }

    /// Memtables and tables.
    pub closed spec fn layers_state(&self) -> EngineState<V> {
        self.state
    }

    /// What the layers hold, newest first.
    pub open spec fn layers(&self) -> Seq<Seq<Entry>> {
        memtable_layers(self.layers_state()) + table_layers(self.layers_state(), &self.fs())
    }

    /// Same directory and configuration.
    pub open spec fn same_place(&self, other: &Db<V>) -> bool {
        self.dir() == other.dir() && self.settings() == other.settings()
    }

    /// Handles are open, and the WAL's file is none of the tables'.
    pub closed spec fn valid(&self) -> bool {
        &&& state_ready(self.state, &self.vfs)
        &&& self.ctx.wal.wf()
        &&& is_open(&self.ctx.wal.handle(), &self.vfs)
        &&& bytes_of(&self.ctx.wal.handle(), &self.vfs).len() > 0
        &&& self.ctx.wal.position() <= bytes_of(&self.ctx.wal.handle(), &self.vfs).len()
        &&& forall|i: int|
            #![trigger self.state.sstables@[i]]
            0 <= i < self.state.sstables@.len()
                ==> self.state.sstables@[i].reader.handle().id() != self.ctx.wal.handle().id()
    }

    /// Memory holds the history: every layer is in charge of an interval of
    /// sequence numbers, and every table is sound.
    pub closed spec fn sound(&self) -> bool {
        &&& tables_sound(self.state, &self.vfs)
        &&& layers_ok(self.layers(), self.cuts@, self.history@)
        &&& self.cuts@[0] == self.seqno
    }

    /// What the data directory holds.
    pub closed spec fn disk(&self) -> Disk {
        let n = 1 + self.state.immutable_memtables@.len() as int;
        Disk {
            segments: self.segments@,
            tables: self.state.sstables@.map_values(
                |s: LiveSst<V::File>| TableFile { id: s.id, run: s.reader.queue(&self.vfs).0 },
            ),
            cuts: self.cuts@.subrange(n, self.cuts@.len() as int),
        }
    }

    /// The current WAL segment is on disk, complete.
    #[verifier::opaque]
    spec fn wal_current(&self) -> bool {
        let segs = self.segments@;
        let wal = self.ctx.wal;
        &&& segs.len() > 0
        &&& segs.last().id == self.ctx.wal_segment_id
        &&& self.fs_state().names[wal_path(self.dir(), self.ctx.wal_segment_id)]
            == wal.handle().id()
        &&& exists|first: u64|
            bytes_of(&wal.handle(), &self.vfs) == #[trigger] SegmentHeader::signed(
                self.ctx.wal_segment_id,
                first,
            ).bytes() + area_of(segs.last().records)
        &&& wal.position() == area_of(segs.last().records).len()
        &&& last_seqno(all_records(segs)) <= self.seqno
    }

    /// File numbers are in order, readers stand on their files, and a frozen
    /// memtable's segment holds nothing beyond it.
    spec fn files_tied(&self) -> bool {
        &&& segs_numbered(self.segments@, self.ctx.next_file_number)
        &&& ssts_tied(
            self.state.sstables@,
            &self.vfs,
            self.dir(),
            master_view(&self.config.master_key),
            self.ctx.next_file_number,
        )
        &&& ims_tied(
            self.state.immutable_memtables@,
            self.segments@,
            self.cuts@,
            self.ctx.wal_segment_id,
            self.ctx.next_file_number,
        )
    }

    /// Memory and data directory both hold the history: it survives a restart.
    pub closed spec fn durable(&self) -> bool {
        &&& self.sound()
        &&& disk_ok(
            self.fs_state(),
            self.dir(),
            master_view(&self.config.master_key),
            self.disk(),
            self.history@,
        )
        &&& self.wal_current()
        &&& self.files_tied()
    }

    /// What is durable is in memory, and in the data directory.
    pub proof fn lemma_durable(&self)
        requires
            self.durable(),
        ensures
            self.sound(),
            disk_ok(
                self.fs_state(),
                self.dir(),
                master_view(&self.settings().master_key),
                self.disk(),
                self@,
            ),
            self.next_file() < u64::MAX && self.last_seqno() < u64::MAX ==> numbers_left(
                self.disk(),
            ),
            disk_top(self.disk()) <= self.last_seqno(),
            self.disk().tables.len() == self.layers_state().sstables@.len(),
            forall|i: int|
                0 <= i < self.layers_state().sstables@.len() ==> (
                #[trigger] self.layers_state().sstables@[i]).id < self.next_file(),
    {
        let disk = self.disk();
        assert forall|i: int| 0 <= i < self.state.sstables@.len() implies (
        #[trigger] self.state.sstables@[i]).id < self.ctx.next_file_number by {
            reveal(ssts_tied);
        }
        assert(disk_top(disk) <= self.seqno) by {
            reveal(Db::wal_current);
            self.lemma_tables_stack();
            crate::engine::disk::lemma_stack_floor(
                runs(disk.tables),
                disk.cuts,
                self.history@,
            );
        }
        if self.next_file() < u64::MAX && self.last_seqno() < u64::MAX {
            reveal(segs_numbered);
            reveal(ssts_tied);
            reveal(Db::wal_current);
            self.lemma_tables_stack();
            crate::engine::disk::lemma_stack_floor(
                runs(disk.tables),
                disk.cuts,
                self.history@,
            );
            assert forall|i: int| #![trigger disk.tables[i]] 0 <= i < disk.tables.len() implies disk.tables[i].id
                < u64::MAX - 1 by {
                assert(self.state.sstables@[i].id < self.ctx.next_file_number);
            }
        }
    }

    /// Asking the layers one after the other gives the history's answer.
    pub proof fn lemma_sound(&self)
        requires
            self.sound(),
        ensures
            settled(self@, self.last_seqno() as int),
            forall|key: Seq<u8>, snapshot: u64|
                #[trigger] lookup(flat(self.layers()), key, snapshot) == lookup(
                    self@,
                    key,
                    snapshot,
                ),
    {
        law_layers_answer_as_history(self.layers(), self.cuts@, self.history@);
    }

    /// Every table of a sound engine holds the run that streaming it gives.
    pub proof fn lemma_sound_tables(&self)
        requires
            self.sound(),
        ensures
            forall|i: int|
                #![trigger readers(&self.layers_state())[i]]
                0 <= i < self.layers_state().sstables@.len() ==> ({
                    let rd = readers(&self.layers_state())[i];
                    rd.holds_run(&self.fs(), rd.queue(&self.fs()).0)
                }),
    {
        assert forall|i: int| #![trigger readers(&self.layers_state())[i]] 0 <= i
            < self.state.sstables@.len() implies ({
            let rd = readers(&self.state)[i];
            rd.holds_run(&self.vfs, rd.queue(&self.vfs).0)
        }) by {
            assert(self.state.sstables@[i].reader.holds_run(
                &self.vfs,
                self.state.sstables@[i].reader.queue(&self.vfs).0,
            ));
        }
    }

    /// Memtables and readers can be asked.
    pub proof fn lemma_valid(&self)
        requires
            self.valid(),
        ensures
            state_ready(self.layers_state(), &self.fs()),
    {
    }

    /// The layers are sorted, newer ones hold newer versions, and streaming a
    /// table meets no fault.
    pub proof fn lemma_sound_layers(&self)
        requires
            self.valid(),
            self.sound(),
        ensures
            all_sorted(self.layers()),
            newest_first(self.layers()),
            forall|i: int|
                #![trigger self.layers_state().sstables@[i]]
                0 <= i < self.layers_state().sstables@.len()
                    ==> self.layers_state().sstables@[i].reader.queue(&self.fs()).1 is None,
    {
        let layers = self.layers();
        let mem = memtable_layers(self.state);
        self.lemma_runs_sorted();
        crate::engine::history::lemma_newest_first(layers, self.cuts@, self.history@);
        assert forall|i: int| 0 <= i < layers.len() implies sorted(#[trigger] layers[i]) by {
            if i == 0 {
                self.state.active_memtable.lemma_sorted();
            } else if i < mem.len() {
                assert(layers[i] == self.state.immutable_memtables@[i - 1].memtable@);
                self.state.immutable_memtables@[i - 1].memtable.lemma_sorted();
            } else {
                assert(layers[i] == table_layers(self.state, &self.vfs)[i - mem.len()]);
            }
        }
        assert forall|i: int|
            #![trigger self.state.sstables@[i]]
            0 <= i < self.state.sstables@.len() implies self.state.sstables@[i].reader.queue(
            &self.vfs,
        ).1 is None by {
            let rd = self.state.sstables@[i].reader;
            rd.lemma_queue_of_run(&self.vfs, rd.queue(&self.vfs).0);
        }
    }

    /// Identity of the current WAL segment's file.
    pub closed spec fn wal_file(&self) -> int {
        self.ctx.wal.handle().id()
    }

    /// Position in the records area of the current WAL segment.
    pub closed spec fn wal_position(&self) -> nat {
        self.ctx.wal.position() as nat
    }

    /// Law: if the machine stops while a record is being appended to the log,
    /// so that any proper part of it has reached the file, the directory holds
    /// the history as it was before: a write is durable as a whole or not at
    /// all.
    #[verifier::rlimit(60)]
    pub proof fn law_torn_write_is_lost_alone(&self, seqno: u64, payload: Seq<u8>, cut: int)
        requires
            self.valid(),
            self.durable(),
            0 <= cut < crate::wal::writer::record_bytes(
                self.wal_position(),
                seqno,
                payload,
            ).len(),
        ensures
            disk_holds(
                self.fs_state().with_bytes(
                    self.wal_file(),
                    self.fs_state().files[self.wal_file()] + crate::wal::writer::record_bytes(
                        self.wal_position(),
                        seqno,
                        payload,
                    ).subrange(0, cut),
                ),
                self.dir(),
                master_view(&self.settings().master_key),
                self@,
            ),
    {
        let whole = crate::wal::writer::record_bytes(self.wal_position(), seqno, payload);
        let part = whole.subrange(0, cut);
        let old_bytes = self.fs_state().files[self.wal_file()];
        let bytes = old_bytes + part;
        let after = self.fs_state().with_bytes(self.wal_file(), bytes);
        let segs = self.segments@;
        let n = segs.len() - 1;
        reveal(Db::wal_current);
        let last = segs.last().records;
        let id = self.ctx.wal_segment_id;
        let first = choose|first: u64|
            old_bytes == #[trigger] SegmentHeader::signed(id, first).bytes() + area_of(last);
        let header = SegmentHeader::signed(id, first);
        crate::wal::reader::law_torn_append_loses_only_that_record(
            last,
            LogRecord { seqno, payload },
            cut,
        );
        assert(bytes =~= header.bytes() + (area_of(last) + part));
        crate::wal::reader::law_written_segment_opens(id, first, area_of(last) + part);
        header.law_round_trip();
        assert(bytes.subrange(32, bytes.len() as int) =~= area_of(last) + part);
        assert(crate::engine::disk::segment_ok(old_bytes, last)) by {
            reveal(files_ok);
            assert(self.disk().segments[n].records == last);
            assert(stored(self.fs_state(), wal_path(self.dir(), segs[n].id)) is Some);
        }
        assert(crate::engine::disk::segment_ok(bytes, last));
        crate::engine::disk::lemma_files_append(
            self.fs_state(),
            after,
            self.dir(),
            master_view(&self.config.master_key),
            self.disk(),
            last,
            bytes,
        );
        let disk2 = Disk {
            segments: self.disk().segments.drop_last().push(
                Segment { id: self.disk().segments.last().id, records: last },
            ),
            ..self.disk()
        };
        assert(disk2.segments =~= self.disk().segments);
        assert(disk_ok(
            after,
            self.dir(),
            master_view(&self.config.master_key),
            self.disk(),
            self.history@,
        ));
    }

    // ----- Reading -----

    /// What reading `key` at a snapshot gives: what the layers answer, newest
    /// first, or the fault that is met on the way. In a sound engine that is
    /// what the history answers.
    pub open spec fn read_gives(
        &self,
        r: Result<Option<Vec<u8>>>,
        key: Seq<u8>,
        snapshot: u64,
    ) -> bool {
        &&& match state_get(self.layers_state(), &self.fs(), key, snapshot) {
            Ok(answer) => (r matches Ok(v) && value_view(v) == live_value(answer)) || failed_io(
                r,
                self.reliable(),
            ),
            Err(f) => failed_with(r, f, self.reliable()),
        }
        &&& self.sound() ==> (r matches Ok(v) && value_view(v) == live_value(
            lookup(self@, key, snapshot),
        )) || failed_io(r, self.reliable())
    }

    /// Capture a sequence-number snapshot for repeatable reads.
    pub fn snapshot(&self) -> (s: Snapshot)
        ensures
            s@ == self.last_seqno(),
    {
        Snapshot::at(self.seqno)
    }

    /// The last sequence number given out.
    pub fn current_seqno(&self) -> (n: u64)
        ensures
            n == self.last_seqno(),
    {
        self.seqno
    }

    /// Number of SSTables currently registered.
    pub fn sstable_count(&self) -> (n: usize)
        ensures
            n == self.layers_state().sstables@.len(),
    {
        self.state.sstables.len()
    }

    /// Borrow the engine state for diagnostics.
    pub fn engine_state(&self) -> (s: &EngineState<V>)
        ensures
            *s == self.layers_state(),
    {
        &self.state
    }

    /// Borrow the file system.
    pub fn vfs(&self) -> (v: &V)
        ensures
            *v == self.fs(),
    {
        &self.vfs
    }

    /// Give the file system back, and forget what is in memory.
    pub fn into_vfs(self) -> (v: V)
        ensures
            v == self.fs(),
    {
        self.vfs
    }

    /// Look up `key` against the latest committed state.
    pub fn get(&self, key: &[u8]) -> (r: Result<Option<Vec<u8>>>)
        requires
            self.valid(),
        ensures
            self.read_gives(r, key@, self.last_seqno()),
    {
        self.get_at(key, self.snapshot())
    }

    /// Look up `key` against the state visible at `snapshot`. Entries with a
    /// sequence number beyond the snapshot are ignored, so a snapshot taken
    /// before a later overwrite still sees the older value.
    pub fn get_at(&self, key: &[u8], snapshot: Snapshot) -> (r: Result<Option<Vec<u8>>>)
        requires
            self.valid(),
        ensures
            self.read_gives(r, key@, snapshot@),
    {
        let at: u64 = snapshot.seqno();
        proof {
            if self.sound() {
                self.lemma_sound();
                lemma_state_get(self.state, &self.vfs, key@, at);
            }
        }
        match memtables_get(&self.state, key, at) {
            Some(node) => {
                return Ok(node_value(node));
            },
            None => {},
        }
        match tables_find::<V>(&self.state.sstables, &self.vfs, key, at) {
            Err(e) => Err(e),
            Ok(None) => Ok(None),
            Ok(Some(hit)) => match hit.op {
                RecordOp::Put => Ok(Some(hit.value)),
                RecordOp::Tombstone => Ok(None),
            },
        }
    }
}

/// What sound tables answer is what their runs say, one after the other.
proof fn lemma_tables_get<V: Vfs>(
    state: EngineState<V>,
    vfs: &V,
    key: Seq<u8>,
    snapshot: u64,
    i: int,
)
    requires
        tables_sound(state, vfs),
        0 <= i <= state.sstables@.len(),
    ensures
        tables_get(state.sstables@, vfs, key, snapshot, i) == Ok::<Option<Entry>, Fault>(
            lookup(
                flat(table_layers(state, vfs).subrange(i, state.sstables@.len() as int)),
                key,
                snapshot,
            ),
        ),
    decreases state.sstables@.len() - i,
{
    let ssts = state.sstables@;
    let layers = table_layers(state, vfs);
    let n = ssts.len() as int;
    if i == n {
        assert(layers.subrange(i, n) =~= Seq::empty());
    } else {
        lemma_tables_get(state, vfs, key, snapshot, i + 1);
        let rd = ssts[i].reader;
        let run = rd.queue(vfs).0;
        assert(rd.holds_run(vfs, run));
        let bytes = bytes_of(&rd.handle(), vfs);
        let blocks = choose|blocks: Seq<Seq<Entry>>|
            #[trigger] table_ok(bytes, rd.crypto_view(), rd.table(), blocks) && flat(blocks)
                == run;
        crate::sstable::table::law_table_get_is_lookup(
            bytes,
            rd.crypto_view(),
            rd.table(),
            blocks,
            key,
            snapshot,
        );
        lemma_flat_front(layers, i);
        crate::model::lemma_lookup_concat(
            layers[i],
            flat(layers.subrange(i + 1, n)),
            key,
            snapshot,
        );
        assert(layers[i] == run);
    }
}

/// A lookup through sound layers is a lookup in all of them, end to end.
proof fn lemma_state_get<V: Vfs>(state: EngineState<V>, vfs: &V, key: Seq<u8>, snapshot: u64)
    requires
        tables_sound(state, vfs),
    ensures
        state_get(state, vfs, key, snapshot) == Ok::<Option<Entry>, Fault>(
            lookup(flat(memtable_layers(state) + table_layers(state, vfs)), key, snapshot),
        ),
{
    let a = memtable_layers(state);
    let b = table_layers(state, vfs);
    let all = a + b;
    lemma_tables_get(state, vfs, key, snapshot, 0);
    assert(b.subrange(0, b.len() as int) =~= b);
    lemma_flat_split(all, a.len() as int);
    assert(all.subrange(0, a.len() as int) =~= a);
    assert(all.subrange(a.len() as int, all.len() as int) =~= b);
    crate::model::lemma_lookup_concat(flat(a), flat(b), key, snapshot);
}

/// The value of a node; a tombstone has none.
fn node_value(node: NodeRef<'_>) -> (v: Option<Vec<u8>>)
    ensures
        value_view(v) == live_value(Some(node@)),
{
    match node.op_type() {
        OpType::Put => Some(vstd::slice::slice_to_vec(node.value())),
        OpType::Tombstone => None,
    }
}

/// Ask the memtables, newest first.
fn memtables_get<'a, V: Vfs>(state: &'a EngineState<V>, key: &[u8], snapshot: u64) -> (r: Option<
    NodeRef<'a>,
>)
    requires
        state.active_memtable.wf(),
        forall|i: int|
            #![trigger state.immutable_memtables@[i]]
            0 <= i < state.immutable_memtables@.len()
                ==> state.immutable_memtables@[i].memtable.wf(),
    ensures
        match lookup(flat(memtable_layers(*state)), key@, snapshot) {
            Some(e) => r matches Some(n) && n@ == e,
            None => r is None,
        },
{
    let ghost layers = memtable_layers(*state);
    let ghost n = layers.len() as int;
    proof {
        assert(layers.subrange(0, n) =~= layers);
        lemma_flat_front(layers, 0);
        crate::model::lemma_lookup_concat(
            layers[0],
            flat(layers.subrange(1, n)),
            key@,
            snapshot,
        );
    }
    match state.active_memtable.get(key, snapshot) {
        Some(node) => {
            return Some(node);
        },
        None => {},
    }
    let mut i: usize = 0;
    while i < state.immutable_memtables.len()
        invariant
            i <= state.immutable_memtables@.len(),
            layers == memtable_layers(*state),
            n == layers.len(),
            forall|k: int|
                #![trigger state.immutable_memtables@[k]]
                0 <= k < state.immutable_memtables@.len()
                    ==> state.immutable_memtables@[k].memtable.wf(),
            lookup(flat(layers), key@, snapshot) == lookup(
                flat(layers.subrange(1 + i, n)),
                key@,
                snapshot,
            ),
        decreases state.immutable_memtables@.len() - i,
    {
        proof {
            lemma_flat_front(layers, 1 + i);
            crate::model::lemma_lookup_concat(
                layers[1 + i],
                flat(layers.subrange(2 + i, n)),
                key@,
                snapshot,
            );
            assert(layers[1 + i] == state.immutable_memtables@[i as int].memtable@);
        }
        match state.immutable_memtables[i].memtable.get(key, snapshot) {
            Some(node) => {
                return Some(node);
            },
            None => {},
        }
        i += 1;
    }
    assert(layers.subrange(1 + i, n) =~= Seq::empty());
    None
}

/// Ask the tables, newest first.
fn tables_find<V: Vfs>(ssts: &Vec<LiveSst<V::File>>, vfs: &V, key: &[u8], snapshot: u64) -> (r:
    Result<Option<LookupHit>>)
    requires
        forall|i: int|
            #![trigger ssts@[i]]
            0 <= i < ssts@.len() ==> ssts@[i].reader.wf() && is_open(
                &ssts@[i].reader.handle(),
                vfs,
            ),
    ensures
        match tables_get(ssts@, vfs, key@, snapshot, 0) {
            Ok(answer) => (r matches Ok(hit) && answer_of(key@, hit) == answer) || failed_io(
                r,
                V::File::fs_reliable(vfs),
            ),
            Err(f) => failed_with(r, f, V::File::fs_reliable(vfs)),
        },
{
    let mut i: usize = 0;
    while i < ssts.len()
        invariant
            i <= ssts@.len(),
            forall|k: int|
                #![trigger ssts@[k]]
                0 <= k < ssts@.len() ==> ssts@[k].reader.wf() && is_open(
                    &ssts@[k].reader.handle(),
                    vfs,
                ),
            tables_get(ssts@, vfs, key@, snapshot, 0) == tables_get(
                ssts@,
                vfs,
                key@,
                snapshot,
                i as int,
            ),
        decreases ssts@.len() - i,
    {
        match ssts[i].reader.get(vfs, key, snapshot) {
            Err(e) => {
                return Err(e);
            },
            Ok(Some(hit)) => {
                return Ok(Some(hit));
            },
            Ok(None) => {},
        }
        i += 1;
    }
    Ok(None)
}

// ----- Writing -----

/// The batch can be written: it can be encoded and read back, and the
/// memtable can take it.
pub open spec fn acceptable(ops: Seq<OpView>) -> bool {
    encodable_batch(ops) && forall|i: int| 0 <= i < ops.len() ==> op_fits(#[trigger] ops[i])
}

/// From `a` to `b`, no reader's file changed.
spec fn keeps_readers<V: Vfs>(state: EngineState<V>, a: &V, b: &V) -> bool {
    forall|i: int|
        #![trigger state.sstables@[i]]
        0 <= i < state.sstables@.len() ==> {
            let h = state.sstables@[i].reader.handle();
            is_open(&h, b) && bytes_of(&h, b) == bytes_of(&h, a)
        }
}

/// Readers whose files did not change read the same.
proof fn lemma_readers_kept<V: Vfs>(state: EngineState<V>, a: &V, b: &V)
    requires
        state_ready(state, a),
        keeps_readers(state, a, b),
    ensures
        state_ready(state, b),
        table_layers(state, a) == table_layers(state, b),
        tables_sound(state, a) ==> tables_sound(state, b),
{
    let ssts = state.sstables@;
    assert forall|i: int| 0 <= i < ssts.len() implies #[trigger] ssts[i].reader.queue(a)
        == ssts[i].reader.queue(b) by {
        assert(bytes_of(&ssts[i].reader.handle(), b) == bytes_of(&ssts[i].reader.handle(), a));
    }
    assert(table_layers(state, a) =~= table_layers(state, b));
    if tables_sound(state, a) {
        assert forall|i: int| #![trigger ssts[i]] 0 <= i < ssts.len() implies ssts[i].reader.holds_run(
            b,
            ssts[i].reader.queue(b).0,
        ) by {
            let rd = ssts[i].reader;
            let run = rd.queue(a).0;
            assert(rd.holds_run(a, run));
            let blocks = choose|blocks: Seq<Seq<Entry>>|
                #[trigger] table_ok(
                    bytes_of(&rd.handle(), a),
                    rd.crypto_view(),
                    rd.table(),
                    blocks,
                ) && flat(blocks) == run;
            assert(table_ok(bytes_of(&rd.handle(), b), rd.crypto_view(), rd.table(), blocks));
            assert(rd.queue(a) == rd.queue(b));
        }
    }
}

/// From `a` to `b`, only file `id` changed, and no reader stands on it.
proof fn lemma_other_file<V: Vfs>(state: EngineState<V>, a: &V, b: &V, id: int)
    requires
        state_ready(state, a),
        V::File::fs_state(a).only_changes(V::File::fs_state(b), id),
        forall|i: int|
            #![trigger state.sstables@[i]]
            0 <= i < state.sstables@.len() ==> state.sstables@[i].reader.handle().id() != id,
    ensures
        state_ready(state, b),
        table_layers(state, a) == table_layers(state, b),
        tables_sound(state, a) ==> tables_sound(state, b),
        keeps_readers(state, a, b),
{
    assert forall|i: int| #![trigger state.sstables@[i]] 0 <= i < state.sstables@.len() implies {
        let h = state.sstables@[i].reader.handle();
        is_open(&h, b) && bytes_of(&h, b) == bytes_of(&h, a)
    } by {
        assert(state.sstables@[i].reader.handle().id() != id);
    }
    lemma_readers_kept(state, a, b);
}

/// A reader stays on its file while others change.
proof fn lemma_attached_kept<V: Vfs>(
    sst: LiveSst<V::File>,
    a: &V,
    b: &V,
    dir: Seq<char>,
    master: Option<Seq<u8>>,
)
    requires
        sst_attached(sst, a, dir, master),
        V::File::fs_state(b).names.dom().contains(table_path(dir, sst.id)),
        V::File::fs_state(b).names[table_path(dir, sst.id)] == V::File::fs_state(
            a,
        ).names[table_path(dir, sst.id)],
        is_open(&sst.reader.handle(), b),
        bytes_of(&sst.reader.handle(), b) == bytes_of(&sst.reader.handle(), a),
    ensures
        sst_attached(sst, b, dir, master),
{
}

/// Readers stay on their files while other files come and go.
proof fn lemma_ties_kept<V: Vfs>(
    ssts: Seq<LiveSst<V::File>>,
    a: &V,
    b: &V,
    dir: Seq<char>,
    master: Option<Seq<u8>>,
    next: u64,
    next2: u64,
)
    requires
        ssts_tied(ssts, a, dir, master, next),
        next <= next2,
        forall|i: int|
            #![trigger ssts[i]]
            0 <= i < ssts.len() ==> {
                let path = table_path(dir, ssts[i].id);
                let h = ssts[i].reader.handle();
                &&& V::File::fs_state(a).names.dom().contains(path) ==> V::File::fs_state(
                    b,
                ).names.dom().contains(path) && V::File::fs_state(b).names[path]
                    == V::File::fs_state(a).names[path]
                &&& is_open(&h, b)
                &&& bytes_of(&h, b) == bytes_of(&h, a)
            },
    ensures
        ssts_tied(ssts, b, dir, master, next2),
{
    reveal(ssts_tied);
    assert forall|i: int| #![trigger ssts[i]] 0 <= i < ssts.len() implies ssts[i].id < next2
        && sst_attached(ssts[i], b, dir, master) by {
        lemma_attached_kept(ssts[i], a, b, dir, master);
    }
}

/// Every record comes before the last one.
proof fn lemma_records_bounded(segs: Seq<Segment>, j: int, k: int)
    requires
        crate::engine::disk::increasing(all_records(segs)),
        0 <= j < segs.len(),
        0 <= k < segs[j].records.len(),
    ensures
        segs[j].records[k].seqno <= last_seqno(all_records(segs)),
{
    let all = all_records(segs);
    crate::engine::disk::lemma_records_split(segs, j);
    let at = all_records(segs.subrange(0, j)).len() + k;
    assert(all[at] == segs[j].records[k]);
    if at < all.len() - 1 {
        assert(all[at].seqno < all[all.len() - 1].seqno);
    }
}

impl<V: Vfs> Db<V> {
    /// The current segment stays as it is.
    proof fn lemma_wal_kept(before: Db<V>, after: Db<V>)
        requires
            before.wal_current(),
            after.ctx.wal == before.ctx.wal,
            after.ctx.wal_segment_id == before.ctx.wal_segment_id,
            after.dir() == before.dir(),
            after.segments@.len() > 0,
            after.segments@.last() == before.segments@.last(),
            ({
                let path = wal_path(before.dir(), before.ctx.wal_segment_id);
                after.fs_state().names[path] == before.fs_state().names[path]
            }),
            bytes_of(&before.ctx.wal.handle(), &after.vfs) == bytes_of(
                &before.ctx.wal.handle(),
                &before.vfs,
            ),
            last_seqno(all_records(after.segments@)) <= after.seqno,
        ensures
            after.wal_current(),
    {
        reveal(Db::wal_current);
        let first = choose|first: u64|
            bytes_of(&before.ctx.wal.handle(), &before.vfs) == #[trigger] SegmentHeader::signed(
                before.ctx.wal_segment_id,
                first,
            ).bytes() + area_of(before.segments@.last().records);
        assert(bytes_of(&after.ctx.wal.handle(), &after.vfs) == SegmentHeader::signed(
            after.ctx.wal_segment_id,
            first,
        ).bytes() + area_of(after.segments@.last().records));
    }

    /// Tables whose runs did not change are the same on disk.
    proof fn lemma_disk_tables(before: Db<V>, after: Db<V>)
        requires
            after.state.sstables == before.state.sstables,
            table_layers(after.state, &after.vfs) == table_layers(before.state, &before.vfs),
        ensures
            after.disk().tables == before.disk().tables,
    {
        let a = after.disk().tables;
        let b = before.disk().tables;
        assert forall|i: int| 0 <= i < a.len() implies a[i] == b[i] by {
            assert(table_layers(before.state, &before.vfs)[i] == table_layers(
                after.state,
                &after.vfs,
            )[i]);
        }
        assert(a =~= b);
    }

    /// The tables by themselves hold the history up to their first cut.
    proof fn lemma_tables_stack(&self)
        requires
            self.sound(),
        ensures
            stack_ok(runs(self.disk().tables), self.disk().cuts, self.history@),
            runs(self.disk().tables) == table_layers(self.state, &self.vfs),
            self.disk().cuts[0] == self.cuts@[1 + self.state.immutable_memtables@.len() as int],
            self.disk().cuts[0] <= self.cuts@[0],
    {
        let n = 1 + self.state.immutable_memtables@.len() as int;
        let rs = runs(self.disk().tables);
        let cuts = self.disk().cuts;
        let layers = self.layers();
        assert(rs =~= table_layers(self.state, &self.vfs));
        assert forall|i: int| #![trigger rs[i]] 0 <= i < rs.len() implies
            crate::engine::history::covers(rs[i], self.history@, cuts[i + 1], cuts[i]) by {
            assert(rs[i] == layers[n + i]);
            assert(crate::engine::history::covers(
                layers[n + i],
                self.history@,
                self.cuts@[n + i + 1],
                self.cuts@[n + i],
            ));
        }
        assert forall|i: int, j: int|
            #![trigger cuts[i], cuts[j]]
            0 <= i <= j < cuts.len() implies cuts[i] >= cuts[j] by {
            assert(self.cuts@[n + i] >= self.cuts@[n + j]);
        }
        assert(self.cuts@[0] >= self.cuts@[n]);
    }

    /// After a batch was logged and applied.
    proof fn lemma_applied(before: Db<V>, after: Db<V>, ops: Seq<OpView>)
        requires
            before.valid(),
            before.sound(),
            after.seqno == before.seqno + 1,
            after.state.immutable_memtables == before.state.immutable_memtables,
            after.state.sstables == before.state.sstables,
            after.state.active_memtable@ == applied(
                before.state.active_memtable@,
                after.seqno,
                ops,
            ),
            after.history@ == batch_entries(after.seqno, ops) + before.history@,
            after.cuts@ == before.cuts@.update(0, after.seqno as int),
            keeps_readers(before.state, &before.vfs, &after.vfs),
        ensures
            after.sound(),
    {
        lemma_readers_kept(before.state, &before.vfs, &after.vfs);
        before.state.active_memtable.lemma_sorted();
        assert(before.layers()[0] == before.state.active_memtable@);
        lemma_write_batch(
            before.layers(),
            before.cuts@,
            before.history@,
            after.seqno,
            ops,
        );
        assert(after.layers() =~= before.layers().update(
            0,
            applied(before.layers()[0], after.seqno, ops),
        ));
        assert(tables_sound(after.state, &after.vfs));
    }

    /// The files after a batch was logged: its record is behind all others of the
    /// log.
    pub open spec fn logged(&self, ops: Seq<OpView>) -> FsState {
        self.fs_state().with_bytes(
            self.wal_file(),
            self.fs_state().files[self.wal_file()] + crate::wal::writer::record_bytes(
                self.wal_position(),
                (self.last_seqno() + 1) as u64,
                encoded_batch(ops),
            ),
        )
    }

    /// From `before` to `after`, a batch was logged and applied.
    spec fn did_apply(before: Db<V>, after: Db<V>, ops: Seq<OpView>) -> bool {
        let more = crate::wal::writer::record_bytes(
            before.ctx.wal.position() as nat,
            after.seqno,
            encoded_batch(ops),
        );
        &&& after.same_place(&before)
        &&& after.seqno == before.seqno + 1
        &&& after.state.immutable_memtables == before.state.immutable_memtables
        &&& after.state.sstables == before.state.sstables
        &&& after.history@ == batch_entries(after.seqno, ops) + before.history@
        &&& after.cuts@ == before.cuts@.update(0, after.seqno as int)
        &&& keeps_readers(before.state, &before.vfs, &after.vfs)
        &&& after.ctx.wal.handle() == before.ctx.wal.handle()
        &&& after.ctx.wal_segment_id == before.ctx.wal_segment_id
        &&& after.ctx.next_file_number == before.ctx.next_file_number
        &&& after.ctx.wal.position() == before.ctx.wal.position() + more.len()
        &&& after.fs_state() == before.fs_state().with_bytes(
            before.ctx.wal.handle().id(),
            bytes_of(&before.ctx.wal.handle(), &before.vfs) + more,
        )
        &&& after.segments@ == before.segments@.drop_last().push(
            Segment {
                id: before.ctx.wal_segment_id,
                records: before.segments@.last().records.push(
                    LogRecord { seqno: after.seqno, payload: encoded_batch(ops) },
                ),
            },
        )
    }

    /// The segment after a batch was logged.
    proof fn lemma_applied_segment(before: Db<V>, after: Db<V>, ops: Seq<OpView>) -> (first: u64)
        requires
            before.valid(),
            before.durable(),
            acceptable(ops),
            Self::did_apply(before, after, ops),
        ensures
            ({
                let records = after.segments@.last().records;
                let bytes = bytes_of(&before.ctx.wal.handle(), &after.vfs);
                &&& crate::engine::disk::segment_ok(bytes, records)
                &&& bytes == SegmentHeader::signed(before.ctx.wal_segment_id, first).bytes()
                    + area_of(records)
                &&& after.ctx.wal.position() == area_of(records).len()
            }),
            crate::engine::disk::record_ops(after.segments@.last().records.last()) == ops,
    {
        let segs = before.segments@;
        let last = segs.last().records;
        let rec = LogRecord { seqno: after.seqno, payload: encoded_batch(ops) };
        let records = last.push(rec);
        let wal = before.ctx.wal;
        let old_bytes = bytes_of(&wal.handle(), &before.vfs);
        let bytes = bytes_of(&wal.handle(), &after.vfs);
        reveal(Db::wal_current);
        let first = choose|first: u64|
            old_bytes == #[trigger] SegmentHeader::signed(
                before.ctx.wal_segment_id,
                first,
            ).bytes() + area_of(last);
        let header = SegmentHeader::signed(before.ctx.wal_segment_id, first);
        assert(records.drop_last() =~= last);
        assert(bytes =~= header.bytes() + area_of(records));
        crate::wal::batch::law_batch_round_trip(ops);
        crate::wal::reader::law_written_segment_opens(
            before.ctx.wal_segment_id,
            first,
            area_of(records),
        );
        crate::wal::reader::law_replay_of_written(records);
        header.law_round_trip();
        assert(bytes.subrange(32, bytes.len() as int) =~= area_of(records));
        assert(crate::engine::disk::readable(rec));
        let n = segs.len() - 1;
        assert(crate::engine::disk::segment_ok(old_bytes, last)) by {
            reveal(files_ok);
            assert(before.disk().segments[n].records == last);
            assert(stored(before.fs_state(), wal_path(before.dir(), segs[n].id)) is Some);
        }
        assert forall|i: int| 0 <= i < records.len() implies crate::engine::disk::readable(
            #[trigger] records[i],
        ) by {
            if i < last.len() {
                assert(records[i] == last[i]);
                assert(crate::engine::disk::readable(last[i]));
            }
        }
        first
    }

    /// The disk after a batch was logged and applied.
    #[verifier::rlimit(60)]
    proof fn lemma_applied_disk(before: Db<V>, after: Db<V>, ops: Seq<OpView>)
        requires
            before.valid(),
            before.durable(),
            after.sound(),
            acceptable(ops),
            Self::did_apply(before, after, ops),
        ensures
            disk_ok(
                after.fs_state(),
                after.dir(),
                master_view(&after.config.master_key),
                after.disk(),
                after.history@,
            ),
            last_seqno(all_records(after.segments@)) <= after.seqno,
    {
        let segs = before.segments@;
        let rec = LogRecord { seqno: after.seqno, payload: encoded_batch(ops) };
        let records = segs.last().records.push(rec);
        let bytes = bytes_of(&before.ctx.wal.handle(), &after.vfs);
        let first = Self::lemma_applied_segment(before, after, ops);
        assert(segs.len() > 0 && segs.last().id == before.ctx.wal_segment_id
            && before.fs_state().names[wal_path(before.dir(), before.ctx.wal_segment_id)]
            == before.ctx.wal.handle().id() && last_seqno(all_records(segs)) <= before.seqno) by {
            reveal(Db::wal_current);
        }
        crate::engine::disk::lemma_files_append(
            before.fs_state(),
            after.fs_state(),
            before.dir(),
            master_view(&before.config.master_key),
            before.disk(),
            records,
            bytes,
        );
        lemma_readers_kept(before.state, &before.vfs, &after.vfs);
        before.lemma_tables_stack();
        after.lemma_tables_stack();
        Self::lemma_disk_tables(before, after);
        assert(after.disk().cuts =~= before.disk().cuts);
        let disk2 = Disk {
            segments: segs.drop_last().push(Segment { id: segs.last().id, records }),
            ..before.disk()
        };
        assert(after.disk() == disk2);
        let all = all_records(segs);
        let floor = crate::engine::disk::floor_of(runs(before.disk().tables));
        assert(all_records(after.segments@) =~= all.push(rec)) by {
            assert(after.segments@.drop_last() =~= segs.drop_last());
        }
        assert(crate::engine::disk::increasing(all.push(rec))) by {
            let more = all.push(rec);
            assert forall|i: int, j: int|
                #![trigger more[i], more[j]]
                0 <= i < j < more.len() implies more[i].seqno < more[j].seqno by {
                if j < all.len() {
                    assert(all[i].seqno < all[j].seqno);
                } else if i < all.len() - 1 {
                    assert(all[i].seqno < all[all.len() - 1].seqno);
                }
            }
        }
        crate::engine::disk::lemma_stack_floor(
            runs(before.disk().tables),
            before.disk().cuts,
            before.history@,
        );
        crate::engine::disk::lemma_record_written(
            all,
            before.history@,
            floor,
            before.disk().cuts[0],
            rec,
        );
        assert(history_ok(after.disk(), after.history@));
    }

    /// After a batch was logged and applied, it is durable.
    #[verifier::rlimit(60)]
    proof fn lemma_applied_durable(before: Db<V>, after: Db<V>, ops: Seq<OpView>)
        requires
            before.valid(),
            before.durable(),
            after.sound(),
            acceptable(ops),
            Self::did_apply(before, after, ops),
        ensures
            after.durable(),
    {
        let segs = before.segments@;
        let segs2 = after.segments@;
        let n = segs.len() - 1;
        let first = Self::lemma_applied_segment(before, after, ops);
        Self::lemma_applied_disk(before, after, ops);
        reveal(Db::wal_current);
        assert(after.wal_current()) by {
            assert(bytes_of(&after.ctx.wal.handle(), &after.vfs) == SegmentHeader::signed(
                after.ctx.wal_segment_id,
                first,
            ).bytes() + area_of(after.segments@.last().records));
        }
        assert(segs_numbered(segs2, after.ctx.next_file_number)) by {
            reveal(segs_numbered);
            assert forall|i: int| #![trigger segs2[i]] 0 <= i < segs2.len() implies segs2[i].id
                < after.ctx.next_file_number by {
                assert(segs2[i].id == segs[i].id);
            }
        }
        lemma_ties_kept(
            before.state.sstables@,
            &before.vfs,
            &after.vfs,
            before.dir(),
            master_view(&before.config.master_key),
            before.ctx.next_file_number,
            after.ctx.next_file_number,
        );
        assert(ims_tied(
            after.state.immutable_memtables@,
            segs2,
            after.cuts@,
            after.ctx.wal_segment_id,
            after.ctx.next_file_number,
        )) by {
            reveal(ims_tied);
            let ims = after.state.immutable_memtables@;
            assert forall|i: int, j: int, k: int|
                #![trigger ims[i], segs2[j].records[k]]
                0 <= i < ims.len() && 0 <= j < segs2.len() && segs2[j].id
                    == ims[i].wal_segment_id && 0 <= k < segs2[j].records.len() implies segs2[j].records[k].seqno
                <= after.cuts@[1 + i] by {
                assert(segs2[j] == segs[j]);
                assert(segs[j].records[k].seqno <= before.cuts@[1 + i]);
            }
        }
    }

    /// Log the batch, sync the log and apply the batch to the memtable.
    #[verifier::rlimit(60)]
    fn log_and_apply(&mut self, batch: &WriteBatch) -> (r: Result<()>)
        requires
            old(self).valid(),
            acceptable(batch@),
            old(self).seqno < u64::MAX,
        ensures
            final(self).valid(),
            final(self).same_place(old(self)),
            final(self).seqno == old(self).seqno + 1,
            final(self).ctx.next_file_number == old(self).ctx.next_file_number,
            final(self).ctx.wal_segment_id == old(self).ctx.wal_segment_id,
            final(self).ctx.wal.handle() == old(self).ctx.wal.handle(),
            final(self).fs_state().names == old(self).fs_state().names,
            r is Ok ==> final(self)@ == batch_entries(final(self).seqno, batch@) + old(self)@,
            r is Ok ==> (old(self).durable() ==> final(self).durable()),
            r is Ok ==> file_synced::<V::File>(&final(self).vfs, old(self).wal_file()),
            r is Ok ==> final(self).fs_state() == old(self).logged(batch@),
            r is Ok ==> final(self).wal_position() == old(self).wal_position()
                + crate::wal::writer::record_bytes(
                old(self).wal_position(),
                final(self).seqno,
                encoded_batch(batch@),
            ).len(),
            r is Ok ==> final(self).ctx.active_memtable_bytes == capped(
                old(self).ctx.active_memtable_bytes + encoded_batch(batch@).len(),
            ),
            r is Ok ==> final(self).state.active_memtable@ == applied(
                old(self).state.active_memtable@,
                final(self).seqno,
                batch@,
            ),
            r is Err ==> final(self)@ == old(self)@ && final(self).state == old(self).state,
            final(self).state.immutable_memtables == old(self).state.immutable_memtables,
            final(self).state.sstables == old(self).state.sstables,
            table_layers(final(self).state, &final(self).vfs) == table_layers(
                old(self).state,
                &old(self).vfs,
            ),
            old(self).sound() ==> final(self).sound(),
            old(self).reliable() ==> r is Ok && final(self).reliable(),
            old(self).fs_state().only_changes(
                final(self).fs_state(),
                old(self).ctx.wal.handle().id(),
            ),
    {
        let ghost before = *self;
        let ghost wal_id = self.ctx.wal.handle().id();
        self.seqno = self.seqno + 1;
        let seqno: u64 = self.seqno;
        proof {
            self.cuts@ = self.cuts@.update(0, seqno as int);
        }
        let encoded: Vec<u8> = batch.encode();
        let appended = self.ctx.wal.append_record(&mut self.vfs, seqno, encoded.as_slice());
        let ghost state1 = V::File::fs_state(&self.vfs);
        proof {
            if appended is Ok {
                before.fs_state().lemma_append_grows(
                    wal_id,
                    crate::wal::writer::record_bytes(
                        before.ctx.wal.position() as nat,
                        seqno,
                        encoded@,
                    ),
                );
            }
            lemma_other_file(before.state, &before.vfs, &self.vfs, wal_id);
            if before.sound() {
                lemma_raise(before.layers(), before.cuts@, before.history@, seqno);
                assert(self.layers() == before.layers());
            }
        }
        match appended {
            Ok(_) => {},
            Err(e) => {
                return Err(e);
            },
        }
        let ghost mid = *self;
        let synced = self.ctx.wal.sync(&mut self.vfs);
        proof {
            assert(V::File::fs_state(&self.vfs) == state1);
            lemma_other_file(before.state, &before.vfs, &self.vfs, wal_id);
            if before.sound() {
                assert(self.layers() == before.layers());
            }
        }
        match synced {
            Ok(()) => {},
            Err(e) => {
                return Err(e);
            },
        }
        apply_batch_to_memtable(&mut self.state.active_memtable, seqno, batch);
        self.ctx.active_memtable_bytes = self.ctx.active_memtable_bytes.saturating_add(encoded.len());
        let ghost rec = LogRecord { seqno, payload: encoded@ };
        proof {
            self.history@ = batch_entries(seqno, batch@) + self.history@;
            self.segments@ = self.segments@.drop_last().push(
                Segment {
                    id: before.ctx.wal_segment_id,
                    records: before.segments@.last().records.push(rec),
                },
            );
            if before.sound() {
                Self::lemma_applied(before, *self, batch@);
                if before.durable() {
                    Self::lemma_applied_durable(before, *self, batch@);
                }
            }
        }
        Ok(())
    }
}

impl<V: Vfs> Db<V> {
    /// A fresh WAL segment can be started under the next number.
    pub open spec fn can_rotate(&self) -> bool {
        self.next_file() < u64::MAX && vacant(
            self.fs_state(),
            wal_path(self.dir(), self.next_file()),
        )
    }

    /// Why a fresh WAL segment cannot be started.
    pub open spec fn rotate_refusal(&self) -> ErrorView {
        if self.next_file() == u64::MAX {
            ErrorView::InvalidArgument("file numbers exhausted"@)
        } else {
            ErrorView::Io { kind: IoErrorKind::Other, message: "wal segment file is not empty"@ }
        }
    }

    /// In a directory that holds the history, the next number is free.
    pub proof fn lemma_can_rotate(&self)
        requires
            self.durable(),
            self.next_file() < u64::MAX,
        ensures
            self.can_rotate(),
    {
        reveal(segs_numbered);
        crate::engine::disk::lemma_segment_is_new(
            self.fs_state(),
            self.dir(),
            master_view(&self.config.master_key),
            self.disk(),
            self.ctx.next_file_number,
        );
    }

    /// After the active memtable was frozen and a new segment started.
    proof fn lemma_rotated(before: Db<V>, after: Db<V>, fid: int, first: u64)
        requires
            before.valid(),
            before.sound(),
            after.same_place(&before),
            after.seqno == before.seqno,
            after.history == before.history,
            after.cuts@ == seq![before.cuts@[0]] + before.cuts@,
            after.state.active_memtable@ == Seq::<Entry>::empty(),
            after.state.sstables == before.state.sstables,
            after.state.immutable_memtables@ == seq![
                ImmutableMemtable {
                    memtable: before.state.active_memtable,
                    wal_segment_id: before.ctx.wal_segment_id,
                },
            ] + before.state.immutable_memtables@,
            keeps_readers(before.state, &before.vfs, &after.vfs),
        ensures
            after.sound(),
            after.layers() == seq![Seq::<Entry>::empty()] + before.layers(),
    {
        lemma_readers_kept(before.state, &before.vfs, &after.vfs);
        lemma_freeze(before.layers(), before.cuts@, before.history@);
        assert(after.layers() =~= seq![Seq::<Entry>::empty()] + before.layers());
        assert(tables_sound(after.state, &after.vfs));
    }

    /// From `before` to `after`, the memtable was frozen and a segment started.
    spec fn did_rotate(before: Db<V>, after: Db<V>, fid: int, first: u64) -> bool {
        &&& after.same_place(&before)
        &&& after.seqno == before.seqno
        &&& after.history == before.history
        &&& after.cuts@ == seq![before.cuts@[0]] + before.cuts@
        &&& after.state.sstables == before.state.sstables
        &&& after.state.immutable_memtables@ == seq![
            ImmutableMemtable {
                memtable: before.state.active_memtable,
                wal_segment_id: before.ctx.wal_segment_id,
            },
        ] + before.state.immutable_memtables@
        &&& keeps_readers(before.state, &before.vfs, &after.vfs)
        &&& after.ctx.wal_segment_id == before.ctx.next_file_number
        &&& after.ctx.next_file_number == before.ctx.next_file_number + 1
        &&& after.ctx.wal.handle().id() == fid
        &&& after.ctx.wal.position() == 0
        &&& wrote_file(
            before.fs_state(),
            after.fs_state(),
            wal_path(before.dir(), after.ctx.wal_segment_id),
            fid,
        )
        &&& after.fs_state().files[fid] == SegmentHeader::signed(
            after.ctx.wal_segment_id,
            first,
        ).bytes()
        &&& after.segments@ == before.segments@.push(
            Segment { id: after.ctx.wal_segment_id, records: Seq::empty() },
        )
    }

    /// The disk after a rotation.
    #[verifier::rlimit(60)]
    proof fn lemma_rotated_disk(before: Db<V>, after: Db<V>, fid: int, first: u64)
        requires
            before.valid(),
            before.durable(),
            after.sound(),
            Self::did_rotate(before, after, fid, first),
        ensures
            disk_ok(
                after.fs_state(),
                after.dir(),
                master_view(&after.config.master_key),
                after.disk(),
                after.history@,
            ),
            all_records(after.segments@) == all_records(before.segments@),
            bytes_of(&after.ctx.wal.handle(), &after.vfs) == SegmentHeader::signed(
                after.ctx.wal_segment_id,
                first,
            ).bytes() + area_of(Seq::empty()),
    {
        let id = after.ctx.wal_segment_id;
        let segs = before.segments@;
        let seg = Segment { id, records: Seq::<LogRecord>::empty() };
        let header = SegmentHeader::signed(id, first);
        let bytes = after.fs_state().files[fid];
        assert(area_of(seg.records) =~= Seq::<u8>::empty());
        assert(bytes =~= header.bytes() + area_of(seg.records));
        crate::wal::reader::law_written_segment_opens(id, first, area_of(seg.records));
        crate::wal::reader::law_replay_of_written(seg.records);
        header.law_round_trip();
        assert(bytes.subrange(32, bytes.len() as int) =~= area_of(seg.records));
        assert(crate::engine::disk::segment_ok(bytes, seg.records));
        assert forall|i: int| #![trigger before.disk().segments[i]] 0 <= i
            < before.disk().segments.len() implies before.disk().segments[i].id < seg.id by {
            reveal(segs_numbered);
            assert(segs[i].id < before.ctx.next_file_number);
        }
        crate::engine::disk::lemma_files_new_segment(
            before.fs_state(),
            after.fs_state(),
            before.dir(),
            master_view(&before.config.master_key),
            before.disk(),
            seg,
            fid,
        );
        lemma_readers_kept(before.state, &before.vfs, &after.vfs);
        Self::lemma_disk_tables(before, after);
        assert(after.disk().cuts =~= before.disk().cuts);
        assert(after.disk() == (Disk { segments: segs.push(seg), ..before.disk() }));
        assert(all_records(after.segments@) =~= all_records(segs)) by {
            assert(after.segments@.drop_last() =~= segs);
        }
        assert(history_ok(after.disk(), after.history@));
    }

    /// After the rotation, the history is still on disk.
    #[verifier::rlimit(60)]
    proof fn lemma_rotated_durable(before: Db<V>, after: Db<V>, fid: int, first: u64)
        requires
            before.valid(),
            before.durable(),
            after.sound(),
            Self::did_rotate(before, after, fid, first),
        ensures
            after.durable(),
    {
        let segs = before.segments@;
        let segs2 = after.segments@;
        let id = after.ctx.wal_segment_id;
        let ims0 = before.state.immutable_memtables@;
        let ims = after.state.immutable_memtables@;
        Self::lemma_rotated_disk(before, after, fid, first);
        reveal(Db::wal_current);
        assert(after.wal_current()) by {
            assert(bytes_of(&after.ctx.wal.handle(), &after.vfs) == SegmentHeader::signed(
                id,
                first,
            ).bytes() + area_of(after.segments@.last().records));
        }
        assert(segs_numbered(segs2, after.ctx.next_file_number)) by {
            reveal(segs_numbered);
            assert forall|i: int| #![trigger segs2[i]] 0 <= i < segs2.len() implies segs2[i].id
                < after.ctx.next_file_number by {
                if i < segs.len() {
                    assert(segs2[i] == segs[i]);
                }
            }
        }
        assert forall|i: int|
            #![trigger before.state.sstables@[i]]
            0 <= i < before.state.sstables@.len() implies table_path(
            before.dir(),
            before.state.sstables@[i].id,
        ) != wal_path(before.dir(), id) by {
            crate::engine::names::lemma_paths_differ(
                before.dir(),
                id,
                before.state.sstables@[i].id,
            );
        }
        lemma_ties_kept(
            before.state.sstables@,
            &before.vfs,
            &after.vfs,
            before.dir(),
            master_view(&before.config.master_key),
            before.ctx.next_file_number,
            after.ctx.next_file_number,
        );
        assert(ims_tied(ims, segs2, after.cuts@, id, after.ctx.next_file_number)) by {
            reveal(ims_tied);
            reveal(segs_numbered);
            assert(segs[segs.len() - 1].id < before.ctx.next_file_number);
            assert forall|i: int| #![trigger ims[i]] 0 <= i < ims.len() implies ims[i].wal_segment_id
                < after.ctx.next_file_number && ims[i].wal_segment_id != id by {
                if i > 0 {
                    assert(ims[i] == ims0[i - 1]);
                }
            }
            assert forall|i: int, j: int, k: int|
                #![trigger ims[i], segs2[j].records[k]]
                0 <= i < ims.len() && 0 <= j < segs2.len() && segs2[j].id
                    == ims[i].wal_segment_id && 0 <= k < segs2[j].records.len() implies segs2[j].records[k].seqno
                <= after.cuts@[1 + i] by {
                assert(segs2[j] == segs[j]);
                if i > 0 {
                    assert(ims[i] == ims0[i - 1]);
                    assert(segs[j].records[k].seqno <= before.cuts@[i]);
                } else {
                    lemma_records_bounded(segs, j, k);
                }
            }
        }
    }

    /// Freeze the active memtable, paired with the WAL segment that fed it,
    /// and start a fresh memtable and a fresh segment.
    #[verifier::rlimit(60)]
    fn rotate_memtable(&mut self) -> (r: Result<()>)
        requires
            old(self).valid(),
            old(self).seqno < u64::MAX,
        ensures
            final(self).valid(),
            final(self).same_place(old(self)),
            final(self).seqno == old(self).seqno,
            final(self)@ == old(self)@,
            final(self).state.sstables == old(self).state.sstables,
            r is Ok ==> final(self).state.active_memtable@ == Seq::<Entry>::empty()
                && memtable_layers(final(self).state) == seq![Seq::<Entry>::empty()]
                + memtable_layers(old(self).state) && final(self).ctx.active_memtable_bytes == 0
                && final(self).ctx.next_file_number == old(self).ctx.next_file_number + 1,
            r is Ok ==> final(self).state.immutable_memtables@.len()
                == old(self).state.immutable_memtables@.len() + 1
                && final(self).state.immutable_memtables@[0].wal_segment_id
                == old(self).wal_segment() && final(self).state.immutable_memtables@.subrange(
                1,
                final(self).state.immutable_memtables@.len() as int,
            ) == old(self).state.immutable_memtables@,
            r is Err ==> final(self).state == old(self).state,
            log_kept(*old(self), &final(self).vfs),
            r is Ok ==> wrote_file(
                old(self).fs_state(),
                final(self).fs_state(),
                wal_path(old(self).dir(), old(self).next_file()),
                final(self).wal_file(),
            ),
            r is Ok ==> final(self).wal_segment() == old(self).next_file()
                && final(self).wal_position() == 0 && final(self).wal_file() != old(self).wal_file()
                && final(self).fs_state().files[final(self).wal_file()] == SegmentHeader::signed(
                old(self).next_file(),
                (old(self).seqno + 1) as u64,
            ).bytes(),
            final(self).next_file() >= old(self).next_file(),
            table_layers(final(self).state, &final(self).vfs) == table_layers(
                old(self).state,
                &old(self).vfs,
            ),
            old(self).sound() ==> final(self).sound(),
            r is Ok ==> (old(self).durable() ==> final(self).durable()),
            old(self).reliable() ==> final(self).reliable() && (if old(self).can_rotate() {
                r is Ok
            } else {
                r matches Err(e) && e@ == old(self).rotate_refusal()
            }),
    {
        let ghost before = *self;
        let id: u64 = self.ctx.next_file_number;
        if id == u64::MAX {
            proof {
                reveal(log_kept);
            }
            return Err(Error::InvalidArgument("file numbers exhausted"));
        }
        self.ctx.next_file_number = id + 1;
        let path: String = wal_segment_path(self.data_dir.as_str(), id);
        let opened = self.vfs.open_writable(path.as_str());
        let ghost synced1 = V::File::fs_synced(&self.vfs);
        let file: V::File = match opened {
            Ok(f) => f,
            Err(e) => {
                proof {
                    lemma_same_state(before, *self);
                    lemma_log_kept(before, synced1, &self.vfs, before.wal_file());
                }
                return Err(e);
            },
        };
        let ghost fid = file.id();
        let ghost state1 = V::File::fs_state(&self.vfs);
        proof {
            assert(state1 =~= state1.with_bytes(fid, state1.files[fid]));
            lemma_wrote(before.fs_state(), state1, state1, path@, fid);
        }
        let sized = file.size(&self.vfs);
        proof {
            if sized is Err || sized->Ok_0 != 0 {
                lemma_opened_keeps(before, &self.vfs, path@, fid);
                lemma_kept_state(before, *self);
                lemma_log_kept(before, synced1, &self.vfs, before.wal_file());
            }
        }
        match sized {
            Ok(n) => {
                if n != 0 {
                    return Err(Error::io(IoErrorKind::Other, "wal segment file is not empty"));
                }
            },
            Err(e) => {
                return Err(e);
            },
        }
        let first: u64 = self.seqno + 1;
        let created = SegmentWriter::create(&mut self.vfs, file, id, first);
        proof {
            if created is Ok {
                state1.lemma_append_grows(fid, SegmentHeader::signed(id, first).bytes());
            }
            lemma_wrote(before.fs_state(), state1, V::File::fs_state(&self.vfs), path@, fid);
            lemma_fresh_keeps(before, &self.vfs, path@, fid);
            lemma_kept_state(before, *self);
            lemma_log_kept(before, synced1, &self.vfs, fid);
        }
        let wal: SegmentWriter<V::File> = match created {
            Ok(w) => w,
            Err(e) => {
                return Err(e);
            },
        };
        let mut frozen: SkipList = SkipList::new();
        std::mem::swap(&mut self.state.active_memtable, &mut frozen);
        let ghost pushed = ImmutableMemtable {
            memtable: frozen,
            wal_segment_id: self.ctx.wal_segment_id,
        };
        self.state.immutable_memtables.insert(
            0,
            ImmutableMemtable { memtable: frozen, wal_segment_id: self.ctx.wal_segment_id },
        );
        self.ctx.wal = wal;
        self.ctx.wal_segment_id = id;
        self.ctx.active_memtable_bytes = 0;
        proof {
            self.cuts@ = seq![before.cuts@[0]] + before.cuts@;
            self.segments@ = before.segments@.push(Segment { id, records: Seq::empty() });
            assert(self.state.immutable_memtables@ =~= seq![pushed]
                + before.state.immutable_memtables@);
            assert(SegmentHeader::signed(id, first).bytes().len() == 32) by {
                SegmentHeader::signed(id, first).law_round_trip();
            }
            assert(Seq::<u8>::empty() + SegmentHeader::signed(id, first).bytes()
                =~= SegmentHeader::signed(id, first).bytes());
            assert(self.fs_state().files[fid] =~= SegmentHeader::signed(id, first).bytes());
            assert(memtable_layers(self.state) =~= seq![Seq::<Entry>::empty()] + memtable_layers(
                before.state,
            ));
            assert forall|i: int|
                #![trigger self.state.immutable_memtables@[i]]
                0 <= i < self.state.immutable_memtables@.len() implies self.state.immutable_memtables@[i].memtable.wf() by {
                if i > 0 {
                    assert(self.state.immutable_memtables@[i]
                        == before.state.immutable_memtables@[i - 1]);
                }
            }
            if before.sound() {
                Self::lemma_rotated(before, *self, fid, first);
                if before.durable() {
                    Self::lemma_rotated_durable(before, *self, fid, first);
                }
            }
        }
        Ok(())
    }
}

/// A log that was durable still is.
#[verifier::opaque]
spec fn log_kept<V: Vfs>(before: Db<V>, vfs: &V) -> bool {
    file_synced::<V::File>(&before.vfs, before.wal_file()) ==> file_synced::<V::File>(
        vfs,
        before.wal_file(),
    )
}

/// Opening a file and appending to another one than the log's leaves what is
/// durable of the log.
proof fn lemma_log_kept<V: Vfs>(before: Db<V>, mid: Map<int, Seq<u8>>, vfs: &V, fid: int)
    requires
        before.valid(),
        files_kept(before, vfs),
        synced_kept(V::File::fs_synced(&before.vfs), mid, before.fs_state().files),
        V::File::fs_synced(vfs) == mid || (before.wal_file() != fid && others_synced(
            mid,
            V::File::fs_synced(vfs),
            fid,
        )),
    ensures
        log_kept(before, vfs),
{
    reveal(log_kept);
    let w = before.wal_file();
    assert(before.fs_state().files.dom().contains(w));
    if file_synced::<V::File>(&before.vfs, w) && V::File::fs_synced(vfs) != mid {
        assert(mid.remove(fid).dom().contains(w));
        assert(V::File::fs_synced(vfs).remove(fid)[w] == mid.remove(fid)[w]);
    }
}

/// The paths of one table more.
proof fn lemma_table_files(dir: Seq<char>, ids: Seq<u64>, n: int)
    requires
        0 <= n < ids.len(),
    ensures
        forall|p: Seq<char>| #[trigger]
            is_table_file(dir, ids.subrange(0, n + 1), p) <==> is_table_file(
                dir,
                ids.subrange(0, n),
                p,
            ) || p == table_path(dir, ids[n]),
{
    let less = ids.subrange(0, n);
    let more = ids.subrange(0, n + 1);
    assert forall|p: Seq<char>| #[trigger] is_table_file(dir, more, p) <==> is_table_file(
        dir,
        less,
        p,
    ) || p == table_path(dir, ids[n]) by {
        if is_table_file(dir, less, p) {
            let i = choose|i: int| 0 <= i < less.len() && p == table_path(dir, #[trigger] less[i]);
            assert(p == table_path(dir, more[i]));
        }
        if p == table_path(dir, ids[n]) {
            assert(p == table_path(dir, more[n]));
        }
        if is_table_file(dir, more, p) {
            let i = choose|i: int| 0 <= i < more.len() && p == table_path(dir, #[trigger] more[i]);
            if i < n {
                assert(p == table_path(dir, less[i]));
            }
        }
    }
}

/// Nothing that the layers rest on changed.
proof fn lemma_same_state<V: Vfs>(before: Db<V>, after: Db<V>)
    requires
        before.valid(),
        after.fs_state() == before.fs_state(),
        after.state == before.state,
        after.ctx.wal == before.ctx.wal,
        after.history == before.history,
        after.cuts == before.cuts,
        after.seqno == before.seqno,
    ensures
        after.valid(),
        before.sound() ==> after.sound(),
        table_layers(after.state, &after.vfs) == table_layers(before.state, &before.vfs),
{
    lemma_readers_kept(before.state, &before.vfs, &after.vfs);
    assert(after.layers() =~= before.layers());
}

/// The readers' files and the WAL's are as they were.
spec fn files_kept<V: Vfs>(before: Db<V>, vfs: &V) -> bool {
    &&& keeps_readers(before.state, &before.vfs, vfs)
    &&& is_open(&before.ctx.wal.handle(), vfs)
    &&& bytes_of(&before.ctx.wal.handle(), vfs) == bytes_of(
        &before.ctx.wal.handle(),
        &before.vfs,
    )
}

/// Where the files are as they were, so is what the layers hold.
proof fn lemma_kept_state<V: Vfs>(before: Db<V>, after: Db<V>)
    requires
        before.valid(),
        files_kept(before, &after.vfs),
        after.state == before.state,
        after.ctx.wal == before.ctx.wal,
        after.history == before.history,
        after.cuts == before.cuts,
        after.seqno == before.seqno,
    ensures
        after.valid(),
        before.sound() ==> after.sound(),
        table_layers(after.state, &after.vfs) == table_layers(before.state, &before.vfs),
{
    lemma_readers_kept(before.state, &before.vfs, &after.vfs);
    assert(after.layers() =~= before.layers());
}

/// Opening a file for writing leaves all others as they are.
proof fn lemma_opened_keeps<V: Vfs>(before: Db<V>, vfs: &V, path: Seq<char>, fid: int)
    requires
        before.valid(),
        crate::compaction::compact::opened(
            before.fs_state(),
            V::File::fs_state(vfs),
            path,
            fid,
        ),
    ensures
        files_kept(before, vfs),
{
    let a = before.fs_state();
    let b = V::File::fs_state(vfs);
    assert forall|i: int|
        #![trigger before.state.sstables@[i]]
        0 <= i < before.state.sstables@.len() implies {
        let h = before.state.sstables@[i].reader.handle();
        is_open(&h, vfs) && bytes_of(&h, vfs) == bytes_of(&h, &before.vfs)
    } by {
        let h = before.state.sstables@[i].reader.handle();
        assert(a.files.dom().contains(h.id()));
    }
}

/// Writing a file that was new or empty leaves the readers' files and the
/// WAL's as they are.
proof fn lemma_fresh_keeps<V: Vfs>(before: Db<V>, vfs: &V, path: Seq<char>, fid: int)
    requires
        before.valid(),
        wrote_file(before.fs_state(), V::File::fs_state(vfs), path, fid),
        before.fs_state().names.dom().contains(path) ==> before.fs_state().files[fid].len() == 0,
    ensures
        files_kept(before, vfs),
        forall|i: int|
            #![trigger before.state.sstables@[i]]
            0 <= i < before.state.sstables@.len()
                ==> before.state.sstables@[i].reader.handle().id() != fid,
        before.ctx.wal.handle().id() != fid,
{
    let a = before.fs_state();
    let b = V::File::fs_state(vfs);
    assert forall|i: int|
        #![trigger before.state.sstables@[i]]
        0 <= i < before.state.sstables@.len() implies {
        let h = before.state.sstables@[i].reader.handle();
        is_open(&h, vfs) && bytes_of(&h, vfs) == bytes_of(&h, &before.vfs) && h.id() != fid
    } by {
        let h = before.state.sstables@[i].reader.handle();
        assert(a.files.dom().contains(h.id()));
        assert(a.files[h.id()].len() > 0);
    }
}

/// Why a batch is not written, if so.
pub open spec fn commit_refusal(ops: Seq<OpView>, last_seqno: u64) -> Option<Seq<char>> {
    if ops.len() > MAX_OPS_PER_BATCH {
        Some("too many operations in one batch"@)
    } else if !acceptable(ops) {
        Some("key or value too long"@)
    } else if last_seqno > u64::MAX - 2 {
        Some("sequence numbers exhausted"@)
    } else {
        None
    }
}

/// Whether the lengths of every key and value fit the encoding.
fn batch_encodable(batch: &WriteBatch) -> (r: bool)
    ensures
        r == (forall|i: int| 0 <= i < batch@.len() ==> (#[trigger] batch@[i]).encodable()),
{
    let ops: &[Op] = batch.ops();
    assert(op_views(ops@).len() == ops@.len());
    let mut i: usize = 0;
    while i < ops.len()
        invariant
            i <= ops@.len(),
            op_views(ops@) == batch@,
            batch@.len() == ops@.len(),
            forall|k: int| 0 <= k < i ==> (#[trigger] batch@[k]).encodable(),
        decreases ops@.len() - i,
    {
        let fits: bool = match &ops[i] {
            Op::Put { key, value } => key.len() as u64 <= u32::MAX as u64 && value.len() as u64
                <= u32::MAX as u64,
            Op::Delete { key } => key.len() as u64 <= u32::MAX as u64,
        };
        assert(batch@[i as int] == ops@[i as int]@);
        if !fits {
            assert(!batch@[i as int].encodable());
            return false;
        }
        i += 1;
    }
    true
}

impl<V: Vfs> Db<V> {
    /// What writing a batch does.
    ///
    /// A refused batch changes nothing. Otherwise the batch takes the next
    /// sequence number, and on success its entries are the newest of the
    /// history: in the log first, whose file is durable then, and in the
    /// memtable. Once enough bytes have been written since the last rotation,
    /// the memtable is frozen, and the log goes on in a new file. No other file
    /// comes or goes.
    pub open spec fn writes(before: Db<V>, after: Db<V>, r: Result<()>, ops: Seq<OpView>) -> bool {
        let n = (before.last_seqno() + 1) as u64;
        let bytes = capped(before.pending_bytes() + encoded_batch(ops).len());
        let rotates = bytes >= before.settings().memtable_threshold_bytes;
        let mem = memtable_layers(before.layers_state());
        let grown = mem.update(0, applied(mem[0], n, ops));
        match commit_refusal(ops, before.last_seqno()) {
            Some(why) => after == before && (r matches Err(e) && e@ == ErrorView::InvalidArgument(
                why,
            )),
            None => {
                &&& after.valid()
                &&& after.same_place(&before)
                &&& after.last_seqno() == n
                &&& after.layers_state().sstables == before.layers_state().sstables
                &&& after.next_file() >= before.next_file()
                &&& before.sound() ==> after.sound()
                &&& r is Ok ==> {
                    &&& after@ == batch_entries(n, ops) + before@
                    &&& before.durable() ==> after.durable()
                    &&& file_synced::<V::File>(&after.fs(), before.wal_file())
                    &&& memtable_layers(after.layers_state()) == (if rotates {
                        seq![Seq::<Entry>::empty()] + grown
                    } else {
                        grown
                    })
                    &&& after.pending_bytes() == (if rotates {
                        0
                    } else {
                        bytes
                    })
                    &&& after.next_file() == before.next_file() + (if rotates {
                        1int
                    } else {
                        0
                    })
                    &&& after.fs_state().names == (if rotates {
                        before.fs_state().names.insert(
                            wal_path(before.dir(), before.next_file()),
                            after.wal_file(),
                        )
                    } else {
                        before.fs_state().names
                    })
                    &&& if rotates {
                        &&& after.wal_segment() == before.next_file()
                        &&& after.wal_position() == 0
                        &&& after.wal_file() != before.wal_file()
                        &&& after.fs_state().files[after.wal_file()] == SegmentHeader::signed(
                            before.next_file(),
                            (n + 1) as u64,
                        ).bytes()
                        &&& wrote_file(
                            before.logged(ops),
                            after.fs_state(),
                            wal_path(before.dir(), before.next_file()),
                            after.wal_file(),
                        )
                    } else {
                        &&& after.wal_segment() == before.wal_segment()
                        &&& after.wal_file() == before.wal_file()
                        &&& after.wal_position() == before.wal_position()
                            + crate::wal::writer::record_bytes(
                            before.wal_position(),
                            n,
                            encoded_batch(ops),
                        ).len()
                        &&& after.fs_state() == before.logged(ops)
                    }
                }
                &&& r is Err ==> after@ == before@ || (rotates && after@ == batch_entries(n, ops)
                    + before@)
                &&& before.reliable() ==> after.reliable() && (if before.can_rotate() || !rotates {
                    r is Ok
                } else {
                    (r matches Err(e) && e@ == before.rotate_refusal()) && after@ == batch_entries(
                        n,
                        ops,
                    ) + before@ && file_synced::<V::File>(&after.fs(), before.wal_file())
                })
            },
        }
    }

    #[verifier::rlimit(60)]
    fn commit_batch(&mut self, batch: &WriteBatch) -> (r: Result<()>)
        requires
            old(self).valid(),
        ensures
            Self::writes(*old(self), *final(self), r, batch@),
    {
        let ghost before = *self;
        if batch.len() as u64 > MAX_OPS_PER_BATCH as u64 {
            return Err(Error::InvalidArgument("too many operations in one batch"));
        }
        if !batch_encodable(batch) || !batch_fits(batch) {
            return Err(Error::InvalidArgument("key or value too long"));
        }
        assert(acceptable(batch@));
        if self.seqno > u64::MAX - 2 {
            return Err(Error::InvalidArgument("sequence numbers exhausted"));
        }
        match self.log_and_apply(batch) {
            Ok(()) => {},
            Err(e) => {
                return Err(e);
            },
        }
        let ghost mid = *self;
        proof {
            let mem = memtable_layers(before.state);
            let grown = mem.update(0, applied(mem[0], mid.seqno, batch@));
            assert(memtable_layers(mid.state) =~= grown);
            let path = wal_path(before.dir(), before.next_file());
            let wal_id = before.ctx.wal.handle().id();
            assert(vacant(mid.fs_state(), path) == vacant(before.fs_state(), path)) by {
                if mid.fs_state().names.dom().contains(path) {
                    if before.fs_state().names[path] == wal_id {
                        assert(before.fs_state().content(path).len() > 0);
                        assert(mid.fs_state().content(path).len() > 0);
                    } else {
                        assert(mid.fs_state().content(path) == before.fs_state().content(path));
                    }
                }
            }
        }
        if self.ctx.active_memtable_bytes >= self.config.memtable_threshold_bytes {
            proof {
                reveal(log_kept);
            }
            return self.rotate_memtable();
        }
        Ok(())
    }

    /// Insert or update `key` to `value`.
    pub fn put(&mut self, key: &[u8], value: &[u8]) -> (r: Result<()>)
        requires
            old(self).valid(),
        ensures
            Self::writes(
                *old(self),
                *final(self),
                r,
                seq![OpView::Put { key: key@, value: value@ }],
            ),
    {
        let mut batch = WriteBatch::new();
        let _ = batch.put(key, value);
        assert(batch@ =~= seq![OpView::Put { key: key@, value: value@ }]);
        self.commit_batch(&batch)
    }

    /// Remove `key`. Writes a tombstone: older versions stay around, hidden.
    pub fn delete(&mut self, key: &[u8]) -> (r: Result<()>)
        requires
            old(self).valid(),
        ensures
            Self::writes(*old(self), *final(self), r, seq![OpView::Delete { key: key@ }]),
    {
        let mut batch = WriteBatch::new();
        let _ = batch.delete(key);
        assert(batch@ =~= seq![OpView::Delete { key: key@ }]);
        self.commit_batch(&batch)
    }

    /// Apply a [`WriteBatch`] atomically: every op in the batch is durable, or
    /// none of them are.
    pub fn write_batch(&mut self, batch: &WriteBatch) -> (r: Result<()>)
        requires
            old(self).valid(),
        ensures
            Self::writes(*old(self), *final(self), r, batch@),
    {
        self.commit_batch(batch)
    }
}

// ----- Flushing -----

/// A directory holds the history, knows of no sequence number beyond `top`, and
/// has numbers left where there is room.
#[verifier::opaque]
pub open spec fn left_behind(
    state: FsState,
    dir: Seq<char>,
    master: Option<Seq<u8>>,
    log: Seq<Entry>,
    top: u64,
    room: bool,
) -> bool {
    exists|disk: Disk| #[trigger]
        disk_ok(state, dir, master, disk, log) && disk_top(disk) <= top && (room ==> numbers_left(
            disk,
        ))
}

impl<V: Vfs> Db<V> {
    /// The filter parameters are in range, so that tables can be written.
    pub open spec fn can_write_tables(&self) -> bool {
        self.settings().bloom_view().valid()
    }

    /// Why the pending memtables cannot be flushed, if so, in a directory that
    /// holds the history: an active memtable that holds something is frozen
    /// first, which takes a number for its WAL segment.
    pub open spec fn flush_refused(&self) -> Option<Seq<char>> {
        let mem = memtable_layers(self.layers_state());
        let bits = self.settings().bloom_bits_per_key;
        let encrypted = self.settings().master_key is Some;
        if mem[0].len() == 0 {
            drain_refusal(
                mem.subrange(1, mem.len() as int),
                self.next_file() as int,
                bits,
                encrypted,
            )
        } else if self.last_seqno() == u64::MAX {
            Some("sequence numbers exhausted"@)
        } else if self.next_file() == u64::MAX {
            Some("file numbers exhausted"@)
        } else {
            drain_refusal(mem, self.next_file() + 1, bits, encrypted)
        }
    }

    /// Every memtable is light enough to be written out.
    pub open spec fn all_flushable(&self) -> bool {
        let mem = memtable_layers(self.layers_state());
        forall|i: int|
            #![trigger mem[i]]
            0 <= i < mem.len() ==> flushable(mem[i], self.settings().bloom_bits_per_key)
    }

    /// After the oldest frozen memtable became the newest table.
    proof fn lemma_flushed(before: Db<V>, after: Db<V>)
        requires
            before.valid(),
            before.sound(),
            before.state.immutable_memtables@.len() > 0,
            after.seqno == before.seqno,
            after.history == before.history,
            after.cuts == before.cuts,
            after.state.active_memtable == before.state.active_memtable,
            after.state.immutable_memtables@ == before.state.immutable_memtables@.drop_last(),
            after.state.sstables@.len() == before.state.sstables@.len() + 1,
            after.state.sstables@ == seq![after.state.sstables@[0]] + before.state.sstables@,
            after.state.sstables@[0].reader.holds_run(
                &after.vfs,
                before.state.immutable_memtables@.last().memtable@,
            ),
            keeps_readers(before.state, &before.vfs, &after.vfs),
        ensures
            after.sound(),
            after.layers() == before.layers(),
            table_layers(after.state, &after.vfs) == seq![
                before.state.immutable_memtables@.last().memtable@,
            ] + table_layers(before.state, &before.vfs),
    {
        lemma_readers_kept(before.state, &before.vfs, &after.vfs);
        let run = before.state.immutable_memtables@.last().memtable@;
        let ssts = after.state.sstables@;
        ssts[0].reader.lemma_queue_of_run(&after.vfs, run);
        assert forall|i: int| 0 < i < ssts.len() implies #[trigger] ssts[i]
            == before.state.sstables@[i - 1] by {}
        assert(table_layers(after.state, &after.vfs) =~= seq![run] + table_layers(
            before.state,
            &before.vfs,
        )) by {
            let a = table_layers(after.state, &after.vfs);
            let b = seq![run] + table_layers(before.state, &before.vfs);
            assert forall|i: int| 0 <= i < a.len() implies a[i] == b[i] by {
                if i > 0 {
                    assert(ssts[i] == before.state.sstables@[i - 1]);
                    assert(table_layers(before.state, &after.vfs)[i - 1] == table_layers(
                        before.state,
                        &before.vfs,
                    )[i - 1]);
                }
            }
        }
        let ims0 = before.state.immutable_memtables@;
        assert(memtable_layers(before.state) =~= memtable_layers(after.state).push(run));
        assert(after.layers() =~= before.layers());
        assert forall|i: int| #![trigger ssts[i]] 0 <= i < ssts.len() implies ssts[i].reader.holds_run(
            &after.vfs,
            ssts[i].reader.queue(&after.vfs).0,
        ) by {
            if i > 0 {
                assert(ssts[i] == before.state.sstables@[i - 1]);
                assert(tables_sound(before.state, &after.vfs));
                assert(before.state.sstables@[i - 1].reader.holds_run(
                    &after.vfs,
                    before.state.sstables@[i - 1].reader.queue(&after.vfs).0,
                ));
            }
        }
    }

    /// From `before` to `after`, the oldest frozen memtable became table `id`.
    spec fn did_flush(before: Db<V>, after: Db<V>, id: u64) -> bool {
        let rd = after.state.sstables@[0].reader;
        let run = before.state.immutable_memtables@.last().memtable@;
        let master = master_view(&before.config.master_key);
        &&& before.state.immutable_memtables@.len() > 0
        &&& after.same_place(&before)
        &&& after.seqno == before.seqno
        &&& after.history == before.history
        &&& after.cuts == before.cuts
        &&& after.segments == before.segments
        &&& after.state.immutable_memtables@ == before.state.immutable_memtables@.drop_last()
        &&& after.state.sstables@.len() == before.state.sstables@.len() + 1
        &&& after.state.sstables@ == seq![after.state.sstables@[0]] + before.state.sstables@
        &&& keeps_readers(before.state, &before.vfs, &after.vfs)
        &&& after.ctx.wal == before.ctx.wal
        &&& after.ctx.wal_segment_id == before.ctx.wal_segment_id
        &&& id == before.ctx.next_file_number
        &&& after.ctx.next_file_number == before.ctx.next_file_number + 1
        &&& bytes_of(&before.ctx.wal.handle(), &after.vfs) == bytes_of(
            &before.ctx.wal.handle(),
            &before.vfs,
        )
        &&& after.state.sstables@[0].id == id
        &&& rd.wf()
        &&& is_open(&rd.handle(), &after.vfs)
        &&& bytes_of(&rd.handle(), &after.vfs).len() > 0
        &&& rd.crypto_view() == table_crypto(master, id)
        &&& parse_table(bytes_of(&rd.handle(), &after.vfs), master is Some) == Ok::<
            TableView,
            Fault,
        >(rd.table())
        &&& is_table(bytes_of(&rd.handle(), &after.vfs), table_crypto(master, id), run)
        &&& wrote_file(
            before.fs_state(),
            after.fs_state(),
            table_path(before.dir(), id),
            rd.handle().id(),
        )
    }

    /// The disk after a flush.
    #[verifier::rlimit(60)]
    proof fn lemma_flushed_disk(before: Db<V>, after: Db<V>, id: u64)
        requires
            before.valid(),
            before.durable(),
            after.sound(),
            Self::did_flush(before, after, id),
            table_layers(after.state, &after.vfs) == seq![
                before.state.immutable_memtables@.last().memtable@,
            ] + table_layers(before.state, &before.vfs),
        ensures
            disk_ok(
                after.fs_state(),
                after.dir(),
                master_view(&after.config.master_key),
                after.disk(),
                after.history@,
            ),
    {
        let dir = before.dir();
        let master = master_view(&before.config.master_key);
        let fid = after.state.sstables@[0].reader.handle().id();
        let run = before.state.immutable_memtables@.last().memtable@;
        let t = TableFile { id, run };
        let ssts = after.state.sstables@;
        let ssts0 = before.state.sstables@;
        assert forall|i: int| 0 < i < ssts.len() implies #[trigger] ssts[i] == ssts0[i - 1] by {}
        assert forall|i: int| #![trigger before.disk().tables[i]] 0 <= i
            < before.disk().tables.len() implies before.disk().tables[i].id < t.id by {
            reveal(ssts_tied);
            assert(ssts0[i].id < before.ctx.next_file_number);
        }
        crate::engine::disk::lemma_files_new_table(
            before.fs_state(),
            after.fs_state(),
            dir,
            master,
            before.disk(),
            t,
            fid,
        );
        before.lemma_tables_stack();
        after.lemma_tables_stack();
        let rs0 = runs(before.disk().tables);
        let rs = runs(after.disk().tables);
        assert(after.disk().tables =~= seq![t] + before.disk().tables) by {
            let a = after.disk().tables;
            let b = seq![t] + before.disk().tables;
            let la = table_layers(after.state, &after.vfs);
            let lb = table_layers(before.state, &before.vfs);
            assert forall|i: int| 0 <= i < a.len() implies a[i] == b[i] by {
                assert(a[i].run == la[i]);
                if i > 0 {
                    assert(la[i] == lb[i - 1]);
                    assert(before.disk().tables[i - 1].run == lb[i - 1]);
                    assert(ssts[i] == ssts0[i - 1]);
                }
            }
        }
        let mid = Disk { tables: seq![t] + before.disk().tables, ..before.disk() };
        lemma_files_any_cuts(after.fs_state(), dir, master, mid, after.disk());
        let records = all_records(before.segments@);
        let floor = crate::engine::disk::floor_of(rs0);
        assert(rs =~= seq![run] + rs0);
        lemma_floor_grows(run, rs0);
        let m = before.state.immutable_memtables@.len() as int;
        assert(before.cuts@[m] >= before.cuts@[1 + m]);
        crate::engine::disk::lemma_tables_take_over(
            records,
            before.history@,
            floor,
            before.disk().cuts[0],
            rs,
            after.disk().cuts,
        );
        assert(history_ok(after.disk(), after.history@));
    }

    /// After the new table came, the history is still on disk.
    #[verifier::rlimit(60)]
    proof fn lemma_flushed_durable(before: Db<V>, after: Db<V>, id: u64)
        requires
            before.valid(),
            before.durable(),
            after.sound(),
            Self::did_flush(before, after, id),
            table_layers(after.state, &after.vfs) == seq![
                before.state.immutable_memtables@.last().memtable@,
            ] + table_layers(before.state, &before.vfs),
        ensures
            after.durable(),
    {
        let dir = before.dir();
        let master = master_view(&before.config.master_key);
        let ssts = after.state.sstables@;
        let ssts0 = before.state.sstables@;
        Self::lemma_flushed_disk(before, after, id);
        crate::engine::names::lemma_paths_differ(dir, before.ctx.wal_segment_id, id);
        assert(last_seqno(all_records(before.segments@)) <= before.seqno
            && before.segments@.len() > 0) by {
            reveal(Db::wal_current);
        }
        Self::lemma_wal_kept(before, after);
        assert(segs_numbered(after.segments@, after.ctx.next_file_number)) by {
            reveal(segs_numbered);
        }
        assert forall|i: int| #![trigger ssts0[i]] 0 <= i < ssts0.len() implies table_path(
            dir,
            ssts0[i].id,
        ) != table_path(dir, id) by {
            reveal(ssts_tied);
            crate::engine::names::lemma_paths_differ(dir, ssts0[i].id, id);
        }
        lemma_ties_kept(
            ssts0,
            &before.vfs,
            &after.vfs,
            dir,
            master,
            before.ctx.next_file_number,
            after.ctx.next_file_number,
        );
        assert(ssts_tied(ssts, &after.vfs, dir, master, after.ctx.next_file_number)) by {
            reveal(ssts_tied);
            assert forall|i: int| #![trigger ssts[i]] 0 <= i < ssts.len() implies ssts[i].id
                < after.ctx.next_file_number && sst_attached(
                ssts[i],
                &after.vfs,
                dir,
                master,
            ) by {
                if i > 0 {
                    assert(ssts[i] == ssts0[i - 1]);
                }
            }
        }
        assert(ims_tied(
            after.state.immutable_memtables@,
            after.segments@,
            after.cuts@,
            after.ctx.wal_segment_id,
            after.ctx.next_file_number,
        )) by {
            reveal(ims_tied);
            let ims = after.state.immutable_memtables@;
            let ims0 = before.state.immutable_memtables@;
            assert forall|i: int| 0 <= i < ims.len() implies #[trigger] ims[i] == ims0[i] by {}
        }
    }

    /// From `before` to `after`, segment `k` was removed.
    spec fn did_drop(before: Db<V>, after: Db<V>, k: int) -> bool {
        &&& 0 <= k < before.segments@.len()
        &&& before.segments@[k].id != before.ctx.wal_segment_id
        &&& forall|j: int|
            #![trigger before.segments@[k].records[j]]
            0 <= j < before.segments@[k].records.len() ==> before.segments@[k].records[j].seqno
                <= before.disk().cuts[0]
        &&& after.same_place(&before)
        &&& after.seqno == before.seqno
        &&& after.history == before.history
        &&& after.cuts == before.cuts
        &&& after.state == before.state
        &&& after.ctx == before.ctx
        &&& after.fs_state() == (FsState {
            names: before.fs_state().names.remove(wal_path(before.dir(), before.segments@[k].id)),
            ..before.fs_state()
        })
        &&& after.segments@ == before.segments@.remove(k)
    }

    /// The disk after a segment was removed.
    #[verifier::rlimit(60)]
    proof fn lemma_dropped_disk(before: Db<V>, after: Db<V>, k: int)
        requires
            before.valid(),
            before.durable(),
            Self::did_drop(before, after, k),
        ensures
            disk_ok(
                after.fs_state(),
                after.dir(),
                master_view(&after.config.master_key),
                after.disk(),
                after.history@,
            ),
            last_seqno(all_records(after.segments@)) <= after.seqno,
    {
        let segs = before.segments@;
        let segs2 = after.segments@;
        lemma_same_files(before, after);
        crate::engine::disk::lemma_files_drop_segment(
            before.fs_state(),
            after.fs_state(),
            before.dir(),
            master_view(&before.config.master_key),
            before.disk(),
            k,
        );
        Self::lemma_disk_tables(before, after);
        assert(after.disk() == (Disk { segments: segs.remove(k), ..before.disk() }));
        crate::engine::disk::lemma_segment_dropped(
            segs,
            k,
            before.history@,
            crate::engine::disk::floor_of(runs(before.disk().tables)),
            before.disk().cuts[0],
        );
        assert(history_ok(after.disk(), after.history@));
        let all = all_records(segs);
        let less = all_records(segs2);
        crate::engine::disk::lemma_records_split(segs, k);
        crate::engine::disk::lemma_records_without(segs, k);
        let a = all_records(segs.subrange(0, k));
        let b = all_records(segs.subrange(k + 1, segs.len() as int));
        assert(last_seqno(all) <= before.seqno) by {
            reveal(Db::wal_current);
        }
        if less.len() > 0 {
            let at = if b.len() > 0 {
                all.len() - 1
            } else {
                a.len() - 1
            };
            assert(less.last() == all[at]);
            if at < all.len() - 1 {
                assert(all[at].seqno < all[all.len() - 1].seqno);
            }
        }
    }

    /// After a segment that holds nothing beyond the tables was removed, the
    /// history is still on disk.
    #[verifier::rlimit(60)]
    proof fn lemma_segment_gone(before: Db<V>, after: Db<V>, k: int)
        requires
            before.valid(),
            before.durable(),
            Self::did_drop(before, after, k),
        ensures
            after.durable(),
    {
        let dir = before.dir();
        let segs = before.segments@;
        let segs2 = after.segments@;
        let gone = segs[k].id;
        lemma_same_files(before, after);
        Self::lemma_dropped_disk(before, after, k);
        assert(segs.last().id == before.ctx.wal_segment_id) by {
            reveal(Db::wal_current);
        }
        let n = segs.len() - 1;
        assert(k < n) by {
            if k == n {
                assert(segs[k] == segs.last());
            }
        }
        assert(segs2.last() == segs.last());
        crate::engine::names::lemma_paths_differ(dir, gone, before.ctx.wal_segment_id);
        Self::lemma_wal_kept(before, after);
        assert forall|i: int| 0 <= i < segs2.len() implies #[trigger] segs2[i] == segs[if i < k {
            i
        } else {
            i + 1
        }] by {}
        assert(segs_numbered(segs2, after.ctx.next_file_number)) by {
            reveal(segs_numbered);
            assert forall|i: int| #![trigger segs2[i]] 0 <= i < segs2.len() implies segs2[i].id
                < after.ctx.next_file_number by {
                let j = if i < k {
                    i
                } else {
                    i + 1
                };
                assert(segs2[i] == segs[j]);
            }
        }
        assert forall|i: int|
            #![trigger before.state.sstables@[i]]
            0 <= i < before.state.sstables@.len() implies table_path(
            dir,
            before.state.sstables@[i].id,
        ) != wal_path(dir, gone) by {
            crate::engine::names::lemma_paths_differ(dir, gone, before.state.sstables@[i].id);
        }
        lemma_ties_kept(
            before.state.sstables@,
            &before.vfs,
            &after.vfs,
            dir,
            master_view(&before.config.master_key),
            before.ctx.next_file_number,
            after.ctx.next_file_number,
        );
        assert(ims_tied(
            after.state.immutable_memtables@,
            segs2,
            after.cuts@,
            after.ctx.wal_segment_id,
            after.ctx.next_file_number,
        )) by {
            reveal(ims_tied);
            let ims = after.state.immutable_memtables@;
            assert forall|i: int, j: int, l: int|
                #![trigger ims[i], segs2[j].records[l]]
                0 <= i < ims.len() && 0 <= j < segs2.len() && segs2[j].id
                    == ims[i].wal_segment_id && 0 <= l < segs2[j].records.len() implies segs2[j].records[l].seqno
                <= after.cuts@[1 + i] by {
                let j0 = if j < k {
                    j
                } else {
                    j + 1
                };
                assert(segs2[j] == segs[j0]);
                assert(segs[j0].records[l].seqno <= before.cuts@[1 + i]);
            }
        }
    }

    /// Segment `id` is not the current one, and holds nothing that the tables
    /// do not.
    spec fn droppable(&self, id: u64) -> bool {
        &&& id != self.ctx.wal_segment_id
        &&& forall|k: int, j: int|
            #![trigger self.segments@[k].records[j]]
            0 <= k < self.segments@.len() && self.segments@[k].id == id && 0 <= j
                < self.segments@[k].records.len() ==> self.segments@[k].records[j].seqno
                <= self.disk().cuts[0]
    }

    /// Once a memtable is a table, its segment may go.
    proof fn lemma_droppable(before: Db<V>, after: Db<V>)
        requires
            before.durable(),
            before.state.immutable_memtables@.len() > 0,
            after.cuts == before.cuts,
            after.segments == before.segments,
            after.ctx.wal_segment_id == before.ctx.wal_segment_id,
            after.state.immutable_memtables@ == before.state.immutable_memtables@.drop_last(),
        ensures
            after.droppable(before.state.immutable_memtables@.last().wal_segment_id),
    {
        reveal(ims_tied);
        let ims = before.state.immutable_memtables@;
        let m = ims.len() - 1;
        let segs = before.segments@;
        assert(ims[m] == ims.last());
        assert(before.cuts@.len() > 1 + m);
        assert(after.disk().cuts[0] == before.cuts@[1 + m]);
        assert forall|k: int, j: int|
            #![trigger after.segments@[k].records[j]]
            0 <= k < after.segments@.len() && after.segments@[k].id == ims[m].wal_segment_id && 0
                <= j < after.segments@[k].records.len() implies after.segments@[k].records[j].seqno
            <= after.disk().cuts[0] by {
            assert(segs[k].records[j].seqno <= before.cuts@[1 + m]);
        }
    }

    /// The state can be used after the oldest frozen memtable became a table.
    proof fn lemma_flushed_valid(before: Db<V>, after: Db<V>, path: Seq<char>)
        requires
            before.valid(),
            before.state.immutable_memtables@.len() > 0,
            after.state.active_memtable == before.state.active_memtable,
            after.state.immutable_memtables@ == before.state.immutable_memtables@.drop_last(),
            after.state.sstables@.len() == before.state.sstables@.len() + 1,
            after.state.sstables@ == seq![after.state.sstables@[0]] + before.state.sstables@,
            after.ctx.wal == before.ctx.wal,
            ({
                let rd = after.state.sstables@[0].reader;
                &&& rd.wf()
                &&& is_open(&rd.handle(), &after.vfs)
                &&& bytes_of(&rd.handle(), &after.vfs).len() > 0
                &&& wrote_file(before.fs_state(), after.fs_state(), path, rd.handle().id())
            }),
            vacant(before.fs_state(), path),
        ensures
            after.valid(),
            files_kept(before, &after.vfs),
    {
        let fid = after.state.sstables@[0].reader.handle().id();
        lemma_fresh_keeps(before, &after.vfs, path, fid);
        let ssts = after.state.sstables@;
        assert forall|i: int| #![trigger ssts[i]] 0 <= i < ssts.len() implies {
            let rd = ssts[i].reader;
            &&& rd.wf()
            &&& is_open(&rd.handle(), &after.vfs)
            &&& bytes_of(&rd.handle(), &after.vfs).len() > 0
            &&& rd.handle().id() != after.ctx.wal.handle().id()
        } by {
            if i > 0 {
                assert(ssts[i] == before.state.sstables@[i - 1]);
                assert(before.state.sstables@[i - 1].reader.wf());
            }
        }
        let ims = after.state.immutable_memtables@;
        assert forall|i: int| #![trigger ims[i]] 0 <= i < ims.len() implies ims[i].memtable.wf() by {
            assert(ims[i] == before.state.immutable_memtables@[i]);
        }
    }

    /// Write the oldest frozen memtable to a new SSTable and put the SSTable
    /// in its place. Gives the number of the WAL segment that fed it.
    #[verifier::rlimit(60)]
    fn write_oldest(&mut self) -> (r: Result<u64>)
        requires
            old(self).valid(),
            old(self).can_write_tables(),
            old(self).state.immutable_memtables@.len() > 0,
        ensures
            final(self).valid(),
            final(self).same_place(old(self)),
            final(self).seqno == old(self).seqno,
            final(self)@ == old(self)@,
            final(self).ctx.active_memtable_bytes == old(self).ctx.active_memtable_bytes,
            final(self).state.active_memtable == old(self).state.active_memtable,
            r matches Ok(segment) ==> {
                &&& final(self).state.immutable_memtables@
                    == old(self).state.immutable_memtables@.drop_last()
                &&& final(self).state.sstables@.len() == old(self).state.sstables@.len() + 1
                &&& final(self).layers() == old(self).layers()
                &&& final(self).ctx.next_file_number == old(self).ctx.next_file_number + 1
                &&& old(self).durable() ==> final(self).durable() && final(self).droppable(segment)
                &&& segment == old(self).state.immutable_memtables@.last().wal_segment_id
                &&& table_synced(&final(self).vfs, final(self).state.sstables@[0])
                &&& forall|i: int|
                    #![trigger old(self).state.sstables@[i]]
                    0 <= i < old(self).state.sstables@.len() ==> final(self).state.sstables@[i + 1]
                        == old(self).state.sstables@[i] && (table_synced(
                        &old(self).vfs,
                        old(self).state.sstables@[i],
                    ) ==> table_synced(&final(self).vfs, old(self).state.sstables@[i]))
                &&& names_within(
                    final(self).fs_state(),
                    old(self).fs_state(),
                    table_path(old(self).dir(), old(self).next_file()),
                )
            },
            r is Err ==> final(self).state == old(self).state,
            final(self).next_file() >= old(self).next_file(),
            old(self).sound() ==> final(self).sound(),
            old(self).reliable() ==> final(self).reliable(),
            old(self).reliable() && old(self).durable() && old(self).next_file() < u64::MAX
                && flushable(
                old(self).state.immutable_memtables@.last().memtable@,
                old(self).settings().bloom_bits_per_key,
            ) ==> r is Ok,
            old(self).reliable() && old(self).durable() ==> (if old(self).next_file() == u64::MAX {
                r matches Err(e) && e@ == ErrorView::InvalidArgument("file numbers exhausted"@)
            } else {
                match flush_refusal(
                    old(self).state.immutable_memtables@.last().memtable@,
                    old(self).settings().bloom_bits_per_key,
                    old(self).settings().master_key is Some,
                ) {
                    Some(why) => r matches Err(e) && e@ == ErrorView::InvalidArgument(why),
                    None => r is Ok,
                }
            }),
    {
        let ghost before = *self;
        let id: u64 = self.ctx.next_file_number;
        if id == u64::MAX {
            return Err(Error::InvalidArgument("file numbers exhausted"));
        }
        self.ctx.next_file_number = id + 1;
        let path: String = sst_path(self.data_dir.as_str(), id);
        let bloom: BloomParams = self.config.bloom_params();
        let last: usize = self.state.immutable_memtables.len() - 1;
        proof {
            if before.durable() {
                before.lemma_next_table_is_new();
            }
        }
        let written = write_table(
            &mut self.vfs,
            &self.state.immutable_memtables[last].memtable,
            path.as_str(),
            id,
            bloom,
            &self.config.master_key,
        );
        proof {
            lemma_touched_keeps(before, &self.vfs, path@);
            lemma_kept_state(before, *self);
        }
        let reader: SstReader<V::File> = match written {
            Ok(rd) => rd,
            Err(e) => {
                return Err(e);
            },
        };
        let segment: u64 = self.state.immutable_memtables[last].wal_segment_id;
        let _ = self.state.immutable_memtables.pop();
        self.state.sstables.insert(0, LiveSst { id, reader });
        proof {
            assert(self.state.sstables@ =~= seq![self.state.sstables@[0]]
                + before.state.sstables@);
            assert(self.state.immutable_memtables@
                =~= before.state.immutable_memtables@.drop_last());
            Self::lemma_flushed_valid(before, *self, path@);
            lemma_tables_synced(before, &self.vfs, path@);
            lemma_flushed_layers(before, *self);
            if before.sound() {
                Self::lemma_flushed(before, *self);
                if before.durable() {
                    Self::lemma_flushed_durable(before, *self, id);
                    Self::lemma_droppable(before, *self);
                }
            }
        }
        Ok(segment)
    }

    /// In a directory that holds the history, no table has the next number.
    proof fn lemma_next_table_is_new(&self)
        requires
            self.durable(),
        ensures
            !self.fs_state().names.dom().contains(
                table_path(self.dir(), self.ctx.next_file_number),
            ),
    {
        assert forall|i: int| #![trigger self.disk().tables[i]] 0 <= i
            < self.disk().tables.len() implies self.disk().tables[i].id
            < self.ctx.next_file_number by {
            reveal(ssts_tied);
            assert(self.state.sstables@[i].id < self.ctx.next_file_number);
        }
        crate::engine::disk::lemma_table_is_new(
            self.fs_state(),
            self.dir(),
            master_view(&self.config.master_key),
            self.disk(),
            self.ctx.next_file_number,
        );
    }

    /// Remove a WAL segment, as far as that succeeds: on a reliable file system
    /// it does.
    #[verifier::rlimit(60)]
    fn drop_segment(&mut self, id: u64)
        requires
            old(self).valid(),
        ensures
            final(self).fs_state() == old(self).fs_state().without(wal_path(old(self).dir(), id))
                || (!old(self).reliable() && final(self).fs_state() == old(self).fs_state()),
            V::File::fs_synced(&final(self).vfs) == V::File::fs_synced(&old(self).vfs),
            final(self).valid(),
            final(self).same_place(old(self)),
            final(self).seqno == old(self).seqno,
            final(self)@ == old(self)@,
            final(self).state == old(self).state,
            final(self).layers() == old(self).layers(),
            final(self).ctx == old(self).ctx,
            old(self).sound() ==> final(self).sound(),
            old(self).durable() && old(self).droppable(id) ==> final(self).durable(),
            old(self).reliable() ==> final(self).reliable(),
    {
        let ghost before = *self;
        let path: String = wal_segment_path(self.data_dir.as_str(), id);
        let _ = self.vfs.remove(path.as_str());
        proof {
            lemma_removed_keeps(before, &self.vfs, path@);
            lemma_kept_state(before, *self);
            assert(self.layers() =~= before.layers());
            if before.durable() && before.droppable(id) {
                let segs = before.segments@;
                let gone = self.fs_state() == before.fs_state().without(path@);
                if gone && exists|k: int|
                    0 <= k < segs.len() && #[trigger] segs[k].id == id {
                    let k = choose|k: int| 0 <= k < segs.len() && #[trigger] segs[k].id == id;
                    self.segments@ = segs.remove(k);
                    Self::lemma_segment_gone(before, *self, k);
                } else {
                    lemma_nothing_removed(before, *self, id, gone);
                }
            }
        }
    }

    /// Flush the oldest frozen memtable to a new SSTable: it leaves the queue,
    /// the SSTable comes to the front, and the WAL segment that fed the
    /// memtable, which is redundant now, is removed as far as that succeeds.
    fn flush_one(&mut self) -> (r: Result<()>)
        requires
            old(self).valid(),
            old(self).can_write_tables(),
            old(self).state.immutable_memtables@.len() > 0,
        ensures
            final(self).valid(),
            final(self).same_place(old(self)),
            final(self).seqno == old(self).seqno,
            final(self)@ == old(self)@,
            final(self).ctx.active_memtable_bytes == old(self).ctx.active_memtable_bytes,
            final(self).state.active_memtable == old(self).state.active_memtable,
            r is Ok ==> {
                &&& final(self).state.immutable_memtables@
                    == old(self).state.immutable_memtables@.drop_last()
                &&& final(self).state.sstables@.len() == old(self).state.sstables@.len() + 1
                &&& final(self).layers() == old(self).layers()
                &&& final(self).ctx.next_file_number == old(self).ctx.next_file_number + 1
                &&& old(self).durable() ==> final(self).durable()
                &&& table_synced(&final(self).vfs, final(self).state.sstables@[0])
                &&& forall|i: int|
                    #![trigger old(self).state.sstables@[i]]
                    0 <= i < old(self).state.sstables@.len() ==> final(self).state.sstables@[i + 1]
                        == old(self).state.sstables@[i] && (table_synced(
                        &old(self).vfs,
                        old(self).state.sstables@[i],
                    ) ==> table_synced(&final(self).vfs, old(self).state.sstables@[i]))
                &&& names_within(
                    final(self).fs_state(),
                    old(self).fs_state(),
                    table_path(old(self).dir(), old(self).next_file()),
                )
                &&& old(self).reliable() ==> segment_gone(
                    final(self).fs_state(),
                    old(self).dir(),
                    old(self).state.immutable_memtables@.last().wal_segment_id,
                )
            },
            r is Err ==> final(self).state == old(self).state,
            final(self).next_file() >= old(self).next_file(),
            old(self).sound() ==> final(self).sound(),
            old(self).reliable() ==> final(self).reliable(),
            old(self).reliable() && old(self).durable() && old(self).next_file() < u64::MAX
                && flushable(
                old(self).state.immutable_memtables@.last().memtable@,
                old(self).settings().bloom_bits_per_key,
            ) ==> r is Ok,
            old(self).reliable() && old(self).durable() ==> (if old(self).next_file() == u64::MAX {
                r matches Err(e) && e@ == ErrorView::InvalidArgument("file numbers exhausted"@)
            } else {
                match flush_refusal(
                    old(self).state.immutable_memtables@.last().memtable@,
                    old(self).settings().bloom_bits_per_key,
                    old(self).settings().master_key is Some,
                ) {
                    Some(why) => r matches Err(e) && e@ == ErrorView::InvalidArgument(why),
                    None => r is Ok,
                }
            }),
    {
        match self.write_oldest() {
            Err(e) => Err(e),
            Ok(segment) => {
                if segment != 0 {
                    self.drop_segment(segment);
                }
                Ok(())
            },
        }
    }

    /// What a flush that succeeds does: every memtable that holds something
    /// becomes a table of its own, durable, and its WAL segment goes. The
    /// history stays what it was.
    pub open spec fn flushed(before: Db<V>, after: Db<V>) -> bool {
        let mem = memtable_layers(before.layers_state());
        let frozen = before.layers_state().immutable_memtables@;
        let active = if mem[0].len() == 0 {
            0int
        } else {
            1
        };
        let count = frozen.len() + active;
        let tables = after.layers_state().sstables@;
        &&& after.valid()
        &&& after.same_place(&before)
        &&& after.last_seqno() == before.last_seqno()
        &&& after@ == before@
        &&& before.sound() ==> after.sound()
        &&& before.durable() ==> after.durable()
        &&& before.reliable() ==> after.reliable()
        &&& nothing_pending(after.layers_state())
        &&& tables.len() == before.layers_state().sstables@.len() + count
        &&& flat(after.layers()) == flat(before.layers())
        &&& after.next_file() == before.next_file() + count + active
        &&& forall|i: int|
            #![trigger tables[i]]
            0 <= i < count ==> table_synced(&after.fs(), tables[i])
        &&& before.reliable() ==> {
            &&& forall|i: int|
                #![trigger frozen[i]]
                0 <= i < frozen.len() ==> segment_gone(
                    after.fs_state(),
                    before.dir(),
                    frozen[i].wal_segment_id,
                )
            &&& active == 1 ==> segment_gone(after.fs_state(), before.dir(), before.wal_segment())
        }
    }

    /// Drain every pending memtable to disk. After this call returns
    /// successfully, the only memtable is a fresh empty one and every
    /// committed write lives in an SSTable.
    ///
    /// The history stays what it was. In a directory that holds the history,
    /// on a file system that does what it is asked, flushing succeeds as long
    /// as file numbers last and no memtable is too heavy for a table.
    #[verifier::rlimit(60)]
    pub fn flush(&mut self) -> (r: Result<()>)
        requires
            old(self).valid(),
            old(self).can_write_tables(),
        ensures
            final(self).valid(),
            final(self).same_place(old(self)),
            final(self).last_seqno() == old(self).last_seqno(),
            final(self)@ == old(self)@,
            old(self).sound() ==> final(self).sound(),
            final(self).next_file() >= old(self).next_file(),
            nothing_pending(old(self).layers_state()) ==> r is Ok && *final(self) == *old(self),
            r is Ok ==> Self::flushed(*old(self), *final(self)),
            old(self).reliable() ==> final(self).reliable(),
            old(self).reliable() && old(self).durable() && old(self).all_flushable()
                && old(self).last_seqno() < u64::MAX && old(self).next_file() + memtable_layers(
                old(self).layers_state(),
            ).len() < u64::MAX ==> r is Ok,
            old(self).reliable() && old(self).durable() ==> match old(self).flush_refused() {
                Some(why) => r matches Err(e) && e@ == ErrorView::InvalidArgument(why),
                None => r is Ok,
            },
    {
        let ghost before = *self;
        let ghost mem = memtable_layers(before.state);
        if self.state.active_memtable.len() > 0 {
            if self.seqno == u64::MAX {
                return Err(Error::InvalidArgument("sequence numbers exhausted"));
            }
            proof {
                if before.durable() && before.next_file() < u64::MAX {
                    before.lemma_can_rotate();
                }
            }
            match self.rotate_memtable() {
                Ok(()) => {},
                Err(e) => {
                    return Err(e);
                },
            }
        }
        let ghost mid = *self;
        let ghost count = mid.state.immutable_memtables@.len() as int;
        proof {
            lemma_flat_empty_front(before, mid);
            if nothing_pending(before.state) {
                assert(mem[0].len() == 0);
                assert(mem.len() == 1);
            }
            let frozen = memtable_layers(mid.state).subrange(
                1,
                memtable_layers(mid.state).len() as int,
            );
            assert(frozen_runs(mid.state.immutable_memtables@) =~= frozen);
            if before.state.active_memtable@.len() > 0 {
                assert(frozen =~= mem);
            }
        }
        while self.state.immutable_memtables.len() > 0
            invariant
                self.valid(),
                self.can_write_tables(),
                before == *old(self),
                self.same_place(&before),
                self.seqno == before.seqno,
                self@ == before@,
                before.sound() ==> self.sound(),
                before.durable() ==> self.durable(),
                before.reliable() ==> self.reliable(),
                self.layers() == mid.layers(),
                mid.state.active_memtable@ == Seq::<Entry>::empty(),
                self.state.active_memtable == mid.state.active_memtable,
                count == mid.state.immutable_memtables@.len(),
                self.state.immutable_memtables@.len() <= count,
                self.state.immutable_memtables@ == mid.state.immutable_memtables@.subrange(
                    0,
                    self.state.immutable_memtables@.len() as int,
                ),
                self.state.sstables@.len() == mid.state.sstables@.len() + count
                    - self.state.immutable_memtables@.len(),
                self.ctx.next_file_number + self.state.immutable_memtables@.len()
                    == mid.ctx.next_file_number + count,
                before.all_flushable() ==> mid.all_flushable(),
                mid.same_place(&before),
                before.next_file() + memtable_layers(before.state).len() < u64::MAX
                    ==> mid.ctx.next_file_number + count <= u64::MAX,
                before.reliable() && before.durable() ==> drain_refusal(
                    frozen_runs(self.state.immutable_memtables@),
                    self.ctx.next_file_number as int,
                    before.config.bloom_bits_per_key,
                    before.config.master_key is Some,
                ) == before.flush_refused(),
                mid.state.sstables == before.state.sstables,
                nothing_pending(before.state) ==> *self == before
                    && self.state.immutable_memtables@.len() == 0,
                self.next_file() >= before.next_file(),
                forall|i: int|
                    #![trigger self.state.sstables@[i]]
                    0 <= i < self.state.sstables@.len() - before.state.sstables@.len()
                        ==> table_synced(&self.vfs, self.state.sstables@[i]),
                before.reliable() ==> forall|i: int|
                    #![trigger mid.state.immutable_memtables@[i]]
                    self.state.immutable_memtables@.len() <= i < count ==> segment_gone(
                        self.fs_state(),
                        before.dir(),
                        mid.state.immutable_memtables@[i].wal_segment_id,
                    ),
            decreases self.state.immutable_memtables@.len(),
        {
            let ghost now = *self;
            proof {
                let n = now.state.immutable_memtables@.len() as int;
                if before.all_flushable() {
                    let layers = memtable_layers(mid.state);
                    assert(layers[n] == mid.state.immutable_memtables@[n - 1].memtable@);
                    assert(now.state.immutable_memtables@.last()
                        == mid.state.immutable_memtables@[n - 1]);
                    assert(flushable(layers[n], mid.config.bloom_bits_per_key));
                }
                let runs = frozen_runs(now.state.immutable_memtables@);
                assert(runs.drop_last() =~= frozen_runs(
                    now.state.immutable_memtables@.drop_last(),
                ));
            }
            match self.flush_one() {
                Ok(()) => {},
                Err(e) => {
                    return Err(e);
                },
            }
            proof {
                let n = now.state.immutable_memtables@.len() as int;
                assert(self.state.immutable_memtables@ =~= mid.state.immutable_memtables@.subrange(
                    0,
                    n - 1,
                ));
                assert forall|i: int|
                    #![trigger self.state.sstables@[i]]
                    0 <= i < self.state.sstables@.len()
                        - before.state.sstables@.len() implies table_synced(
                    &self.vfs,
                    self.state.sstables@[i],
                ) by {
                    if i > 0 {
                        assert(self.state.sstables@[i] == now.state.sstables@[i - 1]);
                    }
                }
                if before.reliable() {
                    assert forall|i: int|
                        #![trigger mid.state.immutable_memtables@[i]]
                        n - 1 <= i < count implies segment_gone(
                        self.fs_state(),
                        before.dir(),
                        mid.state.immutable_memtables@[i].wal_segment_id,
                    ) by {
                        crate::engine::names::lemma_paths_differ(
                            before.dir(),
                            mid.state.immutable_memtables@[i].wal_segment_id,
                            now.ctx.next_file_number,
                        );
                        if i == n - 1 {
                            assert(now.state.immutable_memtables@.last()
                                == mid.state.immutable_memtables@[i]);
                        }
                    }
                }
            }
        }
        proof {
            if before.reliable() {
                let frozen = before.state.immutable_memtables@;
                let all = mid.state.immutable_memtables@;
                assert forall|i: int| #![trigger frozen[i]] 0 <= i < frozen.len() implies segment_gone(
                    self.fs_state(),
                    before.dir(),
                    frozen[i].wal_segment_id,
                ) by {
                    if before.state.active_memtable@.len() > 0 {
                        assert(all.subrange(1, all.len() as int)[i] == all[i + 1]);
                    } else {
                        assert(all[i] == frozen[i]);
                    }
                }
                if before.state.active_memtable@.len() > 0 {
                    assert(all[0].wal_segment_id == before.wal_segment());
                }
            }
        }
        proof {
            assert(memtable_layers(self.state) =~= seq![Seq::<Entry>::empty()]);
        }
        Ok(())
    }

    /// What is left of a flushed engine.
    proof fn lemma_closed(before: Db<V>, after: Db<V>)
        requires
            after.durable(),
            after.same_place(&before),
            after@ == before@,
            after.last_seqno() == before.last_seqno(),
            after.next_file() <= before.next_file() + memtable_layers(before.layers_state()).len()
                + 1,
        ensures
            left_behind(
                V::File::fs_state(&after.vfs),
                before.dir(),
                master_view(&before.settings().master_key),
                before@,
                before.last_seqno(),
                before.next_file() + memtable_layers(before.layers_state()).len() + 1 < u64::MAX
                    && before.last_seqno() < u64::MAX,
            ),
    {
        reveal(left_behind);
        after.lemma_durable();
        assert(disk_ok(
            V::File::fs_state(&after.vfs),
            before.dir(),
            master_view(&before.settings().master_key),
            after.disk(),
            before@,
        ));
    }

    /// Clean shutdown. Flushes any pending memtables to SSTables and gives the
    /// file system back. Its data directory holds the history.
    #[verifier::rlimit(60)]
    pub fn close(self) -> (r: Result<V>)
        requires
            self.valid(),
            self.can_write_tables(),
        ensures
            r matches Ok(vfs) ==> (self.durable() ==> left_behind(
                V::File::fs_state(&vfs),
                self.dir(),
                master_view(&self.settings().master_key),
                self@,
                self.last_seqno(),
                self.next_file() + memtable_layers(self.layers_state()).len() + 1 < u64::MAX
                    && self.last_seqno() < u64::MAX,
            )),
            r matches Ok(vfs) ==> (self.reliable() ==> V::File::fs_reliable(&vfs)),
            nothing_pending(self.layers_state()) ==> (r matches Ok(vfs) && vfs == self.fs()),
            self.reliable() && self.durable() && self.all_flushable() && self.last_seqno()
                < u64::MAX && self.next_file() + memtable_layers(self.layers_state()).len()
                < u64::MAX ==> r is Ok,
            self.reliable() && self.durable() ==> match self.flush_refused() {
                Some(why) => r matches Err(e) && e@ == ErrorView::InvalidArgument(why),
                None => r is Ok,
            },
    {
        let mut db = self;
        match db.flush() {
            Err(e) => {
                return Err(e);
            },
            Ok(()) => {},
        }
        proof {
            if self.durable() {
                Self::lemma_closed(self, db);
            }
        }
        Ok(db.vfs)
    }
}

/// What the layers hold, end to end, and what there is to flush, before and
/// after the active memtable was frozen, if it was.
proof fn lemma_flat_empty_front<V: Vfs>(before: Db<V>, mid: Db<V>)
    requires
        mid.state == before.state && before.state.active_memtable@.len() == 0 && mid.layers()
            == before.layers() && mid.ctx.next_file_number == before.ctx.next_file_number || (
        before.state.active_memtable@.len() > 0 && memtable_layers(mid.state) == seq![
            Seq::<Entry>::empty(),
        ] + memtable_layers(before.state) && mid.state.active_memtable@ == Seq::<Entry>::empty()
            && mid.state.sstables == before.state.sstables && table_layers(mid.state, &mid.vfs)
            == table_layers(before.state, &before.vfs) && mid.ctx.next_file_number
            == before.ctx.next_file_number + 1),
        mid.same_place(&before),
    ensures
        mid.state.active_memtable@ == Seq::<Entry>::empty(),
        flat(mid.layers()) == flat(before.layers()),
        before.all_flushable() ==> mid.all_flushable(),
        before.next_file() + memtable_layers(before.state).len() < u64::MAX
            ==> mid.ctx.next_file_number + mid.state.immutable_memtables@.len() <= u64::MAX,
        mid.state.immutable_memtables@.len() == memtable_layers(before.state).len() - (if memtable_layers(
            before.state,
        )[0].len() == 0 {
            1int
        } else {
            0
        }),
        mid.ctx.next_file_number == before.ctx.next_file_number + (if memtable_layers(
            before.state,
        )[0].len() == 0 {
            0int
        } else {
            1
        }),
{
    let a = memtable_layers(before.state);
    let b = memtable_layers(mid.state);
    assert(a[0] == before.state.active_memtable@);
    assert(mid.state.active_memtable@ =~= Seq::<Entry>::empty());
    if before.state.active_memtable@.len() > 0 {
        let all = mid.layers();
        let n = all.len() as int;
        lemma_flat_front(all, 0);
        assert(all.subrange(0, n) =~= all);
        assert(all.subrange(1, n) =~= before.layers());
        assert(all[0] =~= Seq::<Entry>::empty());
        assert(flat(all) =~= flat(before.layers()));
        if before.all_flushable() {
            assert forall|i: int| #![trigger b[i]] 0 <= i < b.len() implies flushable(
                b[i],
                mid.config.bloom_bits_per_key,
            ) by {
                if i > 0 {
                    assert(b[i] == a[i - 1]);
                } else {
                    lemma_empty_flushable(a[0], before.config.bloom_bits_per_key);
                }
            }
        }
    }
}

/// Nothing weighs less than something.
proof fn lemma_empty_flushable(run: Seq<Entry>, bits: u8)
    requires
        flushable(run, bits),
        run.len() > 0,
    ensures
        flushable(Seq::<Entry>::empty(), bits),
{
    assert(crate::model::weight(Seq::<Entry>::empty()) == 0);
    assert(1 * bits <= run.len() * bits) by (nonlinear_arith)
        requires
            run.len() > 0,
    ;
}

/// A run more does not lower the floor.
proof fn lemma_floor_grows(run: Seq<Entry>, rs0: Seq<Seq<Entry>>)
    ensures
        crate::engine::disk::floor_of(rs0) <= crate::engine::disk::floor_of(seq![run] + rs0),
{
    let rs = seq![run] + rs0;
    let top = crate::engine::disk::floor_of(rs) as int;
    crate::engine::disk::lemma_floor(rs, 0);
    crate::engine::disk::lemma_floor(rs0, top);
    lemma_flat_front(rs, 0);
    assert(rs.subrange(0, rs.len() as int) =~= rs);
    assert(rs.subrange(1, rs.len() as int) =~= rs0);
    let f0 = flat(rs0);
    assert forall|i: int| #![trigger f0[i]] 0 <= i < f0.len() implies -1 < f0[i].seqno <= top by {
        assert(f0[i] == flat(rs)[i + run.len()]);
    }
}

/// The cuts say nothing of files.
proof fn lemma_files_any_cuts(
    state: FsState,
    dir: Seq<char>,
    master: Option<Seq<u8>>,
    a: Disk,
    b: Disk,
)
    requires
        files_ok(state, dir, master, a),
        b.segments == a.segments,
        b.tables == a.tables,
    ensures
        files_ok(state, dir, master, b),
{
    reveal(files_ok);
    assert forall|name: Seq<char>|
        #![trigger crate::engine::names::path_in(dir, name)]
        state.names.dom().contains(crate::engine::names::path_in(dir, name)) && !name.contains(
            '/',
        ) implies {
        &&& crate::engine::names::parse_wal_name(name) matches Some(id) ==> name
            == crate::engine::names::wal_name(id) && exists|i: int|
            0 <= i < b.segments.len() && #[trigger] b.segments[i].id == id
        &&& crate::engine::names::parse_sst(name) matches Some(id) ==> name
            == crate::engine::names::sst_name(id) && exists|i: int|
            0 <= i < b.tables.len() && #[trigger] b.tables[i].id == id
    } by {}
}

/// Where no file changed, so is what the layers hold.
proof fn lemma_same_files<V: Vfs>(before: Db<V>, after: Db<V>)
    requires
        before.valid(),
        after.fs_state().files == before.fs_state().files,
        after.state == before.state,
        after.ctx.wal == before.ctx.wal,
        after.history == before.history,
        after.cuts == before.cuts,
        after.seqno == before.seqno,
    ensures
        after.valid(),
        before.sound() ==> after.sound(),
        table_layers(after.state, &after.vfs) == table_layers(before.state, &before.vfs),
        keeps_readers(before.state, &before.vfs, &after.vfs),
{
    assert(keeps_readers(before.state, &before.vfs, &after.vfs));
    lemma_readers_kept(before.state, &before.vfs, &after.vfs);
    assert(after.layers() =~= before.layers());
}

/// Removing a name leaves every file.
proof fn lemma_removed_keeps<V: Vfs>(before: Db<V>, vfs: &V, path: Seq<char>)
    requires
        before.valid(),
        V::File::fs_state(vfs).files == before.fs_state().files,
    ensures
        files_kept(before, vfs),
{
}

/// Writing a new file, or an empty one, leaves what is durable of the tables.
proof fn lemma_tables_synced<V: Vfs>(before: Db<V>, vfs: &V, path: Seq<char>)
    requires
        before.valid(),
        vacant(before.fs_state(), path),
        files_kept(before, vfs),
        synced_kept(
            V::File::fs_synced(&before.vfs),
            V::File::fs_synced(vfs),
            files_but(before.fs_state(), path),
        ),
    ensures
        forall|i: int|
            #![trigger before.state.sstables@[i]]
            0 <= i < before.state.sstables@.len() && table_synced(
                &before.vfs,
                before.state.sstables@[i],
            ) ==> table_synced(vfs, before.state.sstables@[i]),
{
    assert forall|i: int|
        #![trigger before.state.sstables@[i]]
        0 <= i < before.state.sstables@.len() && table_synced(
            &before.vfs,
            before.state.sstables@[i],
        ) implies table_synced(vfs, before.state.sstables@[i]) by {
        let h = before.state.sstables@[i].reader.handle();
        assert(bytes_of(&h, &before.vfs).len() > 0);
        assert(files_but(before.fs_state(), path).dom().contains(h.id()));
    }
}

/// Writing a new file, or an empty one, leaves the others.
proof fn lemma_touched_keeps<V: Vfs>(before: Db<V>, vfs: &V, path: Seq<char>)
    requires
        before.valid(),
        touches_only(before.fs_state(), V::File::fs_state(vfs), path),
        !vacant(before.fs_state(), path) ==> V::File::fs_state(vfs) == before.fs_state(),
    ensures
        files_kept(before, vfs),
{
    let a = before.fs_state();
    let b = V::File::fs_state(vfs);
    assert forall|i: int|
        #![trigger before.state.sstables@[i]]
        0 <= i < before.state.sstables@.len() implies {
        let h = before.state.sstables@[i].reader.handle();
        is_open(&h, vfs) && bytes_of(&h, vfs) == bytes_of(&h, &before.vfs)
    } by {
        let h = before.state.sstables@[i].reader.handle();
        assert(a.files.dom().contains(h.id()));
        assert(a.files[h.id()].len() > 0);
    }
    assert(a.files.dom().contains(before.ctx.wal.handle().id()));
}

/// The layers stay as they are when the oldest frozen memtable becomes the
/// newest table.
proof fn lemma_flushed_layers<V: Vfs>(before: Db<V>, after: Db<V>)
    requires
        before.valid(),
        before.state.immutable_memtables@.len() > 0,
        after.state.active_memtable == before.state.active_memtable,
        after.state.immutable_memtables@ == before.state.immutable_memtables@.drop_last(),
        after.state.sstables@.len() == before.state.sstables@.len() + 1,
        after.state.sstables@ == seq![after.state.sstables@[0]] + before.state.sstables@,
        after.state.sstables@[0].reader.holds_run(
            &after.vfs,
            before.state.immutable_memtables@.last().memtable@,
        ),
        keeps_readers(before.state, &before.vfs, &after.vfs),
    ensures
        after.layers() == before.layers(),
{
    lemma_readers_kept(before.state, &before.vfs, &after.vfs);
    let run = before.state.immutable_memtables@.last().memtable@;
    let ssts = after.state.sstables@;
    ssts[0].reader.lemma_queue_of_run(&after.vfs, run);
    let a = table_layers(after.state, &after.vfs);
    let b = seq![run] + table_layers(before.state, &before.vfs);
    assert(a =~= b) by {
        assert forall|i: int| 0 <= i < a.len() implies a[i] == b[i] by {
            if i > 0 {
                assert(ssts[i] == before.state.sstables@[i - 1]);
                assert(table_layers(before.state, &after.vfs)[i - 1] == table_layers(
                    before.state,
                    &before.vfs,
                )[i - 1]);
            }
        }
    }
    assert(memtable_layers(before.state) =~= memtable_layers(after.state).push(run));
    assert(after.layers() =~= before.layers());
}

/// A segment that is not there leaves nothing to remove.
proof fn lemma_nothing_removed<V: Vfs>(before: Db<V>, after: Db<V>, id: u64, removed: bool)
    requires
        before.valid(),
        before.durable(),
        removed ==> forall|k: int|
            #![trigger before.segments@[k]]
            0 <= k < before.segments@.len() ==> before.segments@[k].id != id,
        after.fs_state() == (if removed {
            FsState {
                names: before.fs_state().names.remove(wal_path(before.dir(), id)),
                ..before.fs_state()
            }
        } else {
            before.fs_state()
        }),
        after.same_place(&before),
        after.seqno == before.seqno,
        after.history == before.history,
        after.cuts == before.cuts,
        after.segments == before.segments,
        after.state == before.state,
        after.ctx == before.ctx,
    ensures
        after.durable(),
{
    crate::engine::names::law_names_round_trip(id);
    crate::engine::names::lemma_name_shape(id);
    reveal(files_ok);
    if removed && before.fs_state().names.dom().contains(wal_path(before.dir(), id)) {
        let k = choose|i: int|
            0 <= i < before.disk().segments.len() && #[trigger] before.disk().segments[i].id == id;
        assert(before.segments@[k].id == id);
    }
    assert(after.fs_state().names =~= before.fs_state().names);
    assert(after.fs_state() == before.fs_state());
    lemma_same_files(before, after);
    Db::lemma_disk_tables(before, after);
    assert(after.disk() == before.disk());
    assert(last_seqno(all_records(before.segments@)) <= before.seqno && before.segments@.len()
        > 0) by {
        reveal(Db::wal_current);
    }
    Db::lemma_wal_kept(before, after);
    lemma_ties_kept(
        before.state.sstables@,
        &before.vfs,
        &after.vfs,
        before.dir(),
        master_view(&before.config.master_key),
        before.ctx.next_file_number,
        after.ctx.next_file_number,
    );
}

// ----- Compaction -----

/// The readers of the tables, newest first.
pub open spec fn readers<'a, V: Vfs>(state: &'a EngineState<V>) -> Seq<&'a SstReader<V::File>> {
    Seq::new(state.sstables@.len(), |i: int| &state.sstables@[i].reader)
}

fn readers_of<'a, V: Vfs>(state: &'a EngineState<V>) -> (r: Vec<&'a SstReader<V::File>>)
    ensures
        r@ == readers(state),
{
    let mut r: Vec<&'a SstReader<V::File>> = Vec::new();
    let mut i: usize = 0;
    while i < state.sstables.len()
        invariant
            i <= state.sstables@.len(),
            r@ == readers(state).subrange(0, i as int),
        decreases state.sstables@.len() - i,
    {
        r.push(&state.sstables[i].reader);
        i += 1;
        assert(r@ =~= readers(state).subrange(0, i as int));
    }
    assert(r@ =~= readers(state));
    r
}

fn ids_of<V: Vfs>(state: &EngineState<V>) -> (r: Vec<u64>)
    ensures
        r@.len() == state.sstables@.len(),
        forall|i: int| 0 <= i < r@.len() ==> #[trigger] r@[i] == state.sstables@[i].id,
{
    let mut r: Vec<u64> = Vec::new();
    let mut i: usize = 0;
    while i < state.sstables.len()
        invariant
            i <= state.sstables@.len(),
            r@.len() == i,
            forall|k: int| 0 <= k < i ==> #[trigger] r@[k] == state.sstables@[k].id,
        decreases state.sstables@.len() - i,
    {
        r.push(state.sstables[i].id);
        i += 1;
    }
    r
}

impl<V: Vfs> Db<V> {
    /// The merge of all tables is light enough to be written out.
    pub open spec fn merge_fits(&self) -> bool {
        let state = self.layers_state();
        &&& crate::model::weight(merged(table_layers(state, &self.fs()))) <= MAX_TABLE_WEIGHT
        &&& HEADER_SIZE + blocks_for(
            output_capacity(readers(&state), self.settings().sstable_capacity_hint) as usize,
            self.settings().bloom_bits_per_key,
        ) * BLOCK_BYTES <= u32::MAX
    }

    /// Why the tables cannot be merged, if so.
    pub open spec fn merge_refused(&self) -> Option<Fault> {
        let state = self.layers_state();
        if self.next_file() == u64::MAX {
            Some(Fault::Refused(ErrorView::InvalidArgument("file numbers exhausted"@)))
        } else {
            compaction_fault(
                readers(&state),
                &self.fs(),
                table_path(self.dir(), self.next_file()),
                self.settings().master_key is Some,
                self.settings().sstable_capacity_hint,
                self.settings().bloom_bits_per_key,
            )
        }
    }

    /// In a directory that holds the history, what can be refused is a number
    /// or the size of the table.
    pub proof fn lemma_merge_refused(&self)
        requires
            self.valid(),
            self.durable(),
        ensures
            self.merge_refused() == (if self.next_file() == u64::MAX {
                Some(Fault::Refused(ErrorView::InvalidArgument("file numbers exhausted"@)))
            } else {
                match table_refusal(
                    merged(table_layers(self.layers_state(), &self.fs())),
                    DEFAULT_BLOCK_SIZE as nat,
                    self.settings().master_key is Some,
                    Some(
                        blocks_for(
                            output_capacity(
                                readers(&self.layers_state()),
                                self.settings().sstable_capacity_hint,
                            ) as usize,
                            self.settings().bloom_bits_per_key,
                        ),
                    ),
                ) {
                    Some(why) => Some(Fault::Refused(ErrorView::InvalidArgument(why))),
                    None => None,
                }
            }),
    {
        let inputs = readers(&self.state);
        self.lemma_merge_inputs(inputs);
        self.lemma_next_table_is_new();
        lemma_compaction_clean(
            inputs,
            &self.vfs,
            table_path(self.dir(), self.next_file()),
            self.settings().master_key is Some,
            self.settings().sstable_capacity_hint,
            self.settings().bloom_bits_per_key,
        );
    }

    /// The data directory holds the history but for tables that are left over.
    spec fn durable_but(&self, extra: Seq<TableFile>) -> bool {
        &&& self.sound()
        &&& history_ok(self.disk(), self.history@)
        &&& files_ok(
            self.fs_state(),
            self.dir(),
            master_view(&self.config.master_key),
            Disk { tables: self.disk().tables + extra, ..self.disk() },
        )
        &&& self.wal_current()
        &&& self.files_tied()
    }

    /// From `before` to `after`, all tables were merged into table `id`.
    spec fn did_merge(before: Db<V>, after: Db<V>, id: u64) -> bool {
        let rd = after.state.sstables@[0].reader;
        let master = master_view(&before.config.master_key);
        &&& before.state.sstables@.len() > 0
        &&& after.same_place(&before)
        &&& after.seqno == before.seqno
        &&& after.history == before.history
        &&& after.cuts@ == before.cuts@.subrange(
            0,
            2 + before.state.immutable_memtables@.len() as int,
        ).push(-1)
        &&& after.segments == before.segments
        &&& after.state.active_memtable == before.state.active_memtable
        &&& after.state.immutable_memtables == before.state.immutable_memtables
        &&& after.state.sstables@.len() == 1
        &&& keeps_readers(before.state, &before.vfs, &after.vfs)
        &&& after.ctx.wal == before.ctx.wal
        &&& after.ctx.wal_segment_id == before.ctx.wal_segment_id
        &&& id == before.ctx.next_file_number
        &&& after.ctx.next_file_number == before.ctx.next_file_number + 1
        &&& bytes_of(&before.ctx.wal.handle(), &after.vfs) == bytes_of(
            &before.ctx.wal.handle(),
            &before.vfs,
        )
        &&& after.state.sstables@[0].id == id
        &&& rd.wf()
        &&& is_open(&rd.handle(), &after.vfs)
        &&& bytes_of(&rd.handle(), &after.vfs).len() > 0
        &&& rd.crypto_view() == table_crypto(master, id)
        &&& parse_table(bytes_of(&rd.handle(), &after.vfs), master is Some) == Ok::<
            TableView,
            Fault,
        >(rd.table())
        &&& rd.queue(&after.vfs) == (merged(table_layers(before.state, &before.vfs)), None::<Fault>)
        &&& all_sorted(table_layers(before.state, &before.vfs)) ==> rd.holds_run(
            &after.vfs,
            merged(table_layers(before.state, &before.vfs)),
        )
        &&& wrote_file(
            before.fs_state(),
            after.fs_state(),
            table_path(before.dir(), id),
            rd.handle().id(),
        )
    }

    /// The runs of sound tables are sorted.
    proof fn lemma_runs_sorted(&self)
        requires
            self.sound(),
        ensures
            all_sorted(table_layers(self.state, &self.vfs)),
    {
        let rs = table_layers(self.state, &self.vfs);
        assert forall|i: int| 0 <= i < rs.len() implies sorted(#[trigger] rs[i]) by {
            let rd = self.state.sstables@[i].reader;
            assert(rs[i] == rd.queue(&self.vfs).0);
            rd.lemma_queue_of_run(&self.vfs, rs[i]);
        }
    }

    /// After the merge, memory still holds the history.
    proof fn lemma_merged(before: Db<V>, after: Db<V>, id: u64)
        requires
            before.valid(),
            before.sound(),
            Self::did_merge(before, after, id),
        ensures
            after.sound(),
            table_layers(after.state, &after.vfs) == seq![
                merged(table_layers(before.state, &before.vfs)),
            ],
    {
        let rs = table_layers(before.state, &before.vfs);
        let run = merged(rs);
        let k = memtable_layers(before.state).len() as int;
        before.lemma_runs_sorted();
        assert(before.layers().subrange(k, before.layers().len() as int) =~= rs);
        crate::engine::history::lemma_merge_layers(
            before.layers(),
            before.cuts@,
            before.history@,
            k,
        );
        assert(table_layers(after.state, &after.vfs) =~= seq![run]);
        assert(memtable_layers(after.state) =~= memtable_layers(before.state));
        assert(before.layers().subrange(0, k) =~= memtable_layers(before.state));
        assert(after.layers() =~= before.layers().subrange(0, k).push(run));
        assert(tables_sound(after.state, &after.vfs));
    }

    /// The disk after the merge, with the merged tables still there.
    #[verifier::rlimit(60)]
    proof fn lemma_merged_disk(before: Db<V>, after: Db<V>, id: u64)
        requires
            before.valid(),
            before.durable(),
            after.sound(),
            Self::did_merge(before, after, id),
            table_layers(after.state, &after.vfs) == seq![
                merged(table_layers(before.state, &before.vfs)),
            ],
        ensures
            history_ok(after.disk(), after.history@),
            files_ok(
                after.fs_state(),
                after.dir(),
                master_view(&after.config.master_key),
                Disk {
                    tables: after.disk().tables + before.disk().tables,
                    ..after.disk()
                },
            ),
    {
        let dir = before.dir();
        let master = master_view(&before.config.master_key);
        let rd = after.state.sstables@[0].reader;
        let rs = table_layers(before.state, &before.vfs);
        let run = merged(rs);
        let t = TableFile { id, run };
        before.lemma_runs_sorted();
        before.lemma_tables_stack();
        after.lemma_tables_stack();
        assert(is_table(
            bytes_of(&rd.handle(), &after.vfs),
            table_crypto(master, id),
            run,
        )) by {
            assert(rd.holds_run(&after.vfs, run));
            let blocks = choose|blocks: Seq<Seq<Entry>>|
                #[trigger] table_ok(
                    bytes_of(&rd.handle(), &after.vfs),
                    rd.crypto_view(),
                    rd.table(),
                    blocks,
                ) && flat(blocks) == run;
            assert(table_ok(
                bytes_of(&rd.handle(), &after.vfs),
                table_crypto(master, id),
                parse_table(bytes_of(&rd.handle(), &after.vfs), master is Some)->Ok_0,
                blocks,
            ));
        }
        assert forall|i: int| #![trigger before.disk().tables[i]] 0 <= i
            < before.disk().tables.len() implies before.disk().tables[i].id < t.id by {
            reveal(ssts_tied);
            assert(before.state.sstables@[i].id < before.ctx.next_file_number);
        }
        crate::engine::disk::lemma_files_new_table(
            before.fs_state(),
            after.fs_state(),
            dir,
            master,
            before.disk(),
            t,
            rd.handle().id(),
        );
        assert(after.disk().tables =~= seq![t]) by {
            assert(after.disk().tables[0].run == table_layers(after.state, &after.vfs)[0]);
        }
        lemma_files_any_cuts(
            after.fs_state(),
            dir,
            master,
            Disk { tables: seq![t] + before.disk().tables, ..before.disk() },
            Disk { tables: after.disk().tables + before.disk().tables, ..after.disk() },
        );
        assert(runs(after.disk().tables) =~= seq![run]);
        crate::engine::disk::lemma_merge_floor(rs);
        assert(history_ok(after.disk(), after.history@));
    }

    /// After the merge, the history is still on disk, and the merged tables
    /// are left over.
    #[verifier::rlimit(60)]
    proof fn lemma_merged_durable(before: Db<V>, after: Db<V>, id: u64)
        requires
            before.valid(),
            before.durable(),
            after.sound(),
            Self::did_merge(before, after, id),
            table_layers(after.state, &after.vfs) == seq![
                merged(table_layers(before.state, &before.vfs)),
            ],
        ensures
            after.durable_but(before.disk().tables),
    {
        let dir = before.dir();
        let master = master_view(&before.config.master_key);
        Self::lemma_merged_disk(before, after, id);
        crate::engine::names::lemma_paths_differ(dir, before.ctx.wal_segment_id, id);
        assert(last_seqno(all_records(before.segments@)) <= before.seqno
            && before.segments@.len() > 0) by {
            reveal(Db::wal_current);
        }
        Self::lemma_wal_kept(before, after);
        assert(segs_numbered(after.segments@, after.ctx.next_file_number)) by {
            reveal(segs_numbered);
        }
        assert(ssts_tied(
            after.state.sstables@,
            &after.vfs,
            dir,
            master,
            after.ctx.next_file_number,
        )) by {
            reveal(ssts_tied);
            assert(sst_attached(after.state.sstables@[0], &after.vfs, dir, master));
        }
        assert(ims_tied(
            after.state.immutable_memtables@,
            after.segments@,
            after.cuts@,
            after.ctx.wal_segment_id,
            after.ctx.next_file_number,
        )) by {
            reveal(ims_tied);
        }
    }

    /// The state can be used after all tables were merged into one.
    proof fn lemma_merged_valid(before: Db<V>, after: Db<V>, path: Seq<char>)
        requires
            before.valid(),
            after.state.active_memtable == before.state.active_memtable,
            after.state.immutable_memtables == before.state.immutable_memtables,
            after.state.sstables@.len() == 1,
            after.ctx.wal == before.ctx.wal,
            ({
                let rd = after.state.sstables@[0].reader;
                &&& rd.wf()
                &&& is_open(&rd.handle(), &after.vfs)
                &&& bytes_of(&rd.handle(), &after.vfs).len() > 0
                &&& wrote_file(before.fs_state(), after.fs_state(), path, rd.handle().id())
            }),
            vacant(before.fs_state(), path),
        ensures
            after.valid(),
            files_kept(before, &after.vfs),
    {
        let fid = after.state.sstables@[0].reader.handle().id();
        lemma_fresh_keeps(before, &after.vfs, path, fid);
        let ssts = after.state.sstables@;
        assert forall|i: int| #![trigger ssts[i]] 0 <= i < ssts.len() implies i == 0 by {}
    }

    /// Merge all tables into one new table, and put it in their place.
    #[verifier::rlimit(60)]
    fn merge_tables(&mut self) -> (r: Result<()>)
        requires
            old(self).valid(),
            old(self).can_write_tables(),
            old(self).state.sstables@.len() > 0,
        ensures
            final(self).valid(),
            final(self).same_place(old(self)),
            final(self).seqno == old(self).seqno,
            final(self)@ == old(self)@,
            final(self).ctx.active_memtable_bytes == old(self).ctx.active_memtable_bytes,
            final(self).state.active_memtable == old(self).state.active_memtable,
            final(self).state.immutable_memtables == old(self).state.immutable_memtables,
            old(self).sound() ==> final(self).sound(),
            r is Ok ==> {
                &&& final(self).state.sstables@.len() == 1
                &&& table_layers(final(self).state, &final(self).vfs) == seq![
                    merged(table_layers(old(self).state, &old(self).vfs)),
                ]
                &&& final(self).ctx.next_file_number == old(self).ctx.next_file_number + 1
                &&& table_synced(&final(self).vfs, final(self).state.sstables@[0])
                &&& final(self).state.sstables@[0].id == old(self).next_file()
                &&& forall|p: Seq<char>| #[trigger]
                    final(self).fs_state().names.dom().contains(p) <==> old(self).fs_state().names.dom().contains(p) || p == table_path(
                        old(self).dir(),
                        old(self).next_file(),
                    )
                &&& old(self).durable() ==> final(self).durable_but(old(self).disk().tables)
            },
            r is Err ==> final(self).state == old(self).state,
            final(self).next_file() >= old(self).next_file(),
            old(self).reliable() ==> final(self).reliable(),
            old(self).reliable() && old(self).durable() && old(self).next_file() < u64::MAX
                && old(self).merge_fits() ==> r is Ok,
            old(self).reliable() ==> match old(self).merge_refused() {
                Some(f) => r matches Err(e) && shows(e, f),
                None => r is Ok,
            },
    {
        let ghost before = *self;
        let id: u64 = self.ctx.next_file_number;
        if id == u64::MAX {
            return Err(Error::InvalidArgument("file numbers exhausted"));
        }
        self.ctx.next_file_number = id + 1;
        let path: String = sst_path(self.data_dir.as_str(), id);
        let key: Option<AeadKey> = match &self.config.master_key {
            Some(m) => Some(derive_sstable_key(m, id)),
            None => None,
        };
        let encryption: Option<(&AeadKey, u64)> = match &key {
            Some(k) => Some((k, id)),
            None => None,
        };
        let config = CompactionConfig {
            bloom: self.config.bloom_params(),
            bloom_capacity_floor: self.config.sstable_capacity_hint,
            checksum: Algorithm::Crc32c,
            encryption,
        };
        let inputs: Vec<&SstReader<V::File>> = readers_of(&self.state);
        proof {
            before.lemma_merge_inputs(inputs@);
            if before.durable() {
                before.lemma_next_table_is_new();
            }
        }
        let output = compact_sstables(&mut self.vfs, inputs.as_slice(), path.as_str(), &config);
        proof {
            lemma_touched_keeps(before, &self.vfs, path@);
            lemma_kept_state(before, *self);
        }
        let reader: SstReader<V::File> = match output {
            Ok(out) => out.reader,
            Err(e) => {
                return Err(e);
            },
        };
        let mut merged_tables: Vec<LiveSst<V::File>> = Vec::new();
        merged_tables.push(LiveSst { id, reader });
        self.state.sstables = merged_tables;
        proof {
            self.cuts@ = before.cuts@.subrange(
                0,
                2 + before.state.immutable_memtables@.len() as int,
            ).push(-1);
            assert(config.crypto_view() == table_crypto(
                master_view(&before.config.master_key),
                id,
            ));
            Self::lemma_merged_valid(before, *self, path@);
            assert(table_layers(self.state, &self.vfs) =~= seq![
                merged(table_layers(before.state, &before.vfs)),
            ]);
            if before.sound() {
                Self::lemma_merged(before, *self, id);
                if before.durable() {
                    Self::lemma_merged_durable(before, *self, id);
                }
            }
        }
        Ok(())
    }

    /// What the merge reads.
    proof fn lemma_merge_inputs(&self, inputs: Seq<&SstReader<V::File>>)
        requires
            self.valid(),
            inputs == readers(&self.state),
        ensures
            runs_of(input_queues(inputs, &self.vfs)) == table_layers(self.state, &self.vfs),
            self.sound() ==> clean(input_queues(inputs, &self.vfs)),
            forall|i: int|
                #![trigger inputs[i]]
                0 <= i < inputs.len() ==> inputs[i].wf() && is_open(
                    &inputs[i].handle(),
                    &self.vfs,
                ) && bytes_of(&inputs[i].handle(), &self.vfs).len() > 0,
    {
        let queues = input_queues(inputs, &self.vfs);
        assert(runs_of(queues) =~= table_layers(self.state, &self.vfs));
        assert forall|i: int| #![trigger inputs[i]] 0 <= i < inputs.len() implies inputs[i].wf()
            && is_open(&inputs[i].handle(), &self.vfs) && bytes_of(
            &inputs[i].handle(),
            &self.vfs,
        ).len() > 0 by {
            assert(self.state.sstables@[i].reader.wf());
        }
        if self.sound() {
            assert forall|i: int| 0 <= i < queues.len() implies (#[trigger] queues[i]).1 is None by {
                let rd = self.state.sstables@[i].reader;
                rd.lemma_queue_of_run(&self.vfs, rd.queue(&self.vfs).0);
            }
        }
    }

    /// After one of the left-over tables was removed.
    #[verifier::rlimit(60)]
    proof fn lemma_table_gone(before: Db<V>, after: Db<V>, extra: Seq<TableFile>)
        requires
            before.valid(),
            before.durable_but(extra),
            extra.len() > 0,
            after.same_place(&before),
            after.seqno == before.seqno,
            after.history == before.history,
            after.cuts == before.cuts,
            after.segments == before.segments,
            after.state == before.state,
            after.ctx == before.ctx,
            after.fs_state() == (FsState {
                names: before.fs_state().names.remove(table_path(before.dir(), extra[0].id)),
                ..before.fs_state()
            }),
        ensures
            after.durable_but(extra.subrange(1, extra.len() as int)),
    {
        let dir = before.dir();
        let master = master_view(&before.config.master_key);
        let gone = extra[0].id;
        let all = Disk { tables: before.disk().tables + extra, ..before.disk() };
        let k = before.disk().tables.len() as int;
        lemma_same_files(before, after);
        Self::lemma_disk_tables(before, after);
        assert(after.disk() == before.disk());
        assert(all.tables[k] == extra[0]);
        crate::engine::disk::lemma_files_drop_table(
            before.fs_state(),
            after.fs_state(),
            dir,
            master,
            all,
            k,
        );
        let less = extra.subrange(1, extra.len() as int);
        assert(all.tables.remove(k) =~= before.disk().tables + less);
        assert(last_seqno(all_records(before.segments@)) <= before.seqno
            && before.segments@.len() > 0) by {
            reveal(Db::wal_current);
        }
        crate::engine::names::lemma_paths_differ(dir, before.ctx.wal_segment_id, gone);
        Self::lemma_wal_kept(before, after);
        assert forall|i: int|
            #![trigger before.state.sstables@[i]]
            0 <= i < before.state.sstables@.len() implies table_path(
            dir,
            before.state.sstables@[i].id,
        ) != table_path(dir, gone) by {
            reveal(files_ok);
            assert(all.tables[i].id == before.state.sstables@[i].id);
            assert(all.tables[i].id > all.tables[k].id);
            crate::engine::names::lemma_paths_differ(dir, before.state.sstables@[i].id, gone);
        }
        lemma_ties_kept(
            before.state.sstables@,
            &before.vfs,
            &after.vfs,
            dir,
            master,
            before.ctx.next_file_number,
            after.ctx.next_file_number,
        );
    }

    /// Remove table files, as far as that succeeds.
    #[verifier::rlimit(60)]
    fn remove_tables(&mut self, ids: &Vec<u64>, extra: Ghost<Seq<TableFile>>)
        requires
            old(self).valid(),
            extra@.len() == ids@.len(),
            forall|i: int| 0 <= i < ids@.len() ==> #[trigger] ids@[i] == extra@[i].id,
        ensures
            final(self).valid(),
            final(self).same_place(old(self)),
            final(self).seqno == old(self).seqno,
            final(self)@ == old(self)@,
            final(self).state == old(self).state,
            final(self).layers() == old(self).layers(),
            final(self).ctx == old(self).ctx,
            final(self).fs_state().files == old(self).fs_state().files,
            V::File::fs_synced(&final(self).vfs) == V::File::fs_synced(&old(self).vfs),
            old(self).sound() ==> final(self).sound(),
            old(self).reliable() ==> forall|p: Seq<char>| #[trigger]
                final(self).fs_state().names.dom().contains(p) <==> old(self).fs_state().names.dom().contains(p) && !is_table_file(old(self).dir(), ids@, p),
            old(self).durable_but(extra@) && old(self).reliable() ==> final(self).durable(),
            old(self).reliable() ==> final(self).reliable(),
    {
        let ghost before = *self;
        let mut i: usize = 0;
        proof {
            assert(extra@.subrange(0, extra@.len() as int) =~= extra@);
        }
        while i < ids.len()
            invariant
                i <= ids@.len(),
                before == *old(self),
                extra@.len() == ids@.len(),
                forall|k: int| 0 <= k < ids@.len() ==> #[trigger] ids@[k] == extra@[k].id,
                self.valid(),
                self.same_place(&before),
                self.seqno == before.seqno,
                self@ == before@,
                self.state == before.state,
                self.layers() == before.layers(),
                self.ctx == before.ctx,
                self.fs_state().files == before.fs_state().files,
                V::File::fs_synced(&self.vfs) == V::File::fs_synced(&before.vfs),
                before.sound() ==> self.sound(),
                before.reliable() ==> self.reliable(),
                before.reliable() ==> forall|p: Seq<char>| #[trigger]
                    self.fs_state().names.dom().contains(p) <==> before.fs_state().names.dom().contains(p)
                        && !is_table_file(before.dir(), ids@.subrange(0, i as int), p),
                before.durable_but(extra@) && before.reliable() ==> self.durable_but(
                    extra@.subrange(i as int, extra@.len() as int),
                ),
            decreases ids@.len() - i,
        {
            let ghost now = *self;
            let path: String = sst_path(self.data_dir.as_str(), ids[i]);
            let _ = self.vfs.remove(path.as_str());
            proof {
                lemma_removed_keeps(now, &self.vfs, path@);
                lemma_kept_state(now, *self);
                assert(self.layers() =~= now.layers());
                if before.reliable() {
                    lemma_table_files(before.dir(), ids@, i as int);
                    assert(self.fs_state() == now.fs_state().without(path@));
                }
                if before.durable_but(extra@) && before.reliable() {
                    let left = extra@.subrange(i as int, extra@.len() as int);
                    assert(left[0] == extra@[i as int]);
                    Self::lemma_table_gone(now, *self, left);
                    assert(left.subrange(1, left.len() as int) =~= extra@.subrange(
                        i + 1,
                        extra@.len() as int,
                    ));
                }
            }
            i += 1;
        }
        proof {
            assert(ids@.subrange(0, i as int) =~= ids@);
            if before.durable_but(extra@) && before.reliable() {
                assert(self.disk().tables + extra@.subrange(i as int, extra@.len() as int)
                    =~= self.disk().tables);
            }
        }
    }

    /// What a compaction that succeeds does: of two tables or more it makes
    /// one, durable, that holds all of their entries, and on a file system that
    /// does what it is asked the inputs' files go. History and memtables stay
    /// what they were.
    pub open spec fn compacted(before: Db<V>, after: Db<V>) -> bool {
        let inputs = before.layers_state().sstables@;
        let tables = after.layers_state().sstables@;
        &&& after.valid()
        &&& after.same_place(&before)
        &&& after.last_seqno() == before.last_seqno()
        &&& after@ == before@
        &&& before.sound() ==> after.sound()
        &&& before.reliable() && before.durable() ==> after.durable()
        &&& before.reliable() ==> after.reliable()
        &&& memtable_layers(after.layers_state()) == memtable_layers(before.layers_state())
        &&& inputs.len() < 2 ==> after == before
        &&& inputs.len() >= 2 ==> {
            &&& tables.len() == 1
            &&& table_synced(&after.fs(), tables[0])
            &&& tables[0].id == before.next_file()
            &&& before.reliable() ==> forall|p: Seq<char>| #[trigger]
                after.fs_state().names.dom().contains(p) <==> (
                before.fs_state().names.dom().contains(p) || p == table_path(
                    before.dir(),
                    before.next_file(),
                )) && !is_table_file(before.dir(), table_numbers(before.layers_state()), p)
            &&& table_layers(after.layers_state(), &after.fs()) == seq![
                merged(table_layers(before.layers_state(), &before.fs())),
            ]
        }
    }

    /// Merge every live SSTable into a single new SSTable, put it in their
    /// place, and remove the inputs' files as far as that succeeds.
    ///
    /// The merge keeps every entry: fewer tables are consulted, the history
    /// stays what it was. Fewer than two tables leave nothing to do.
    #[verifier::rlimit(60)]
    pub fn compact_all(&mut self) -> (r: Result<()>)
        requires
            old(self).valid(),
            old(self).can_write_tables(),
        ensures
            final(self).valid(),
            final(self).same_place(old(self)),
            final(self).last_seqno() == old(self).last_seqno(),
            final(self)@ == old(self)@,
            old(self).sound() ==> final(self).sound(),
            old(self).layers_state().sstables@.len() < 2 ==> r is Ok && *final(self) == *old(self),
            r is Ok ==> Self::compacted(*old(self), *final(self)),
            r is Err ==> final(self).layers_state() == old(self).layers_state(),
            final(self).next_file() >= old(self).next_file(),
            old(self).reliable() ==> final(self).reliable(),
            old(self).reliable() && old(self).durable() && old(self).next_file() < u64::MAX
                && old(self).merge_fits() ==> r is Ok,
            old(self).reliable() && old(self).layers_state().sstables@.len() >= 2 ==> match old(self).merge_refused() {
                Some(f) => r matches Err(e) && shows(e, f),
                None => r is Ok,
            },
            r matches Err(e) ==> (old(self).reliable() && old(self).durable() ==> e@ is InvalidArgument),
    {
        let ghost before = *self;
        if self.state.sstables.len() < 2 {
            return Ok(());
        }
        let ids: Vec<u64> = ids_of(&self.state);
        let ghost extra = before.disk().tables;
        match self.merge_tables() {
            Ok(()) => {},
            Err(e) => {
                proof {
                    if before.durable() {
                        before.lemma_merge_refused();
                    }
                }
                return Err(e);
            },
        }
        proof {
            assert forall|i: int| 0 <= i < ids@.len() implies #[trigger] ids@[i] == extra[i].id by {
                assert(extra[i].id == before.state.sstables@[i].id);
            }
        }
        let ghost mid = *self;
        self.remove_tables(&ids, Ghost(extra));
        proof {
            assert(ids@ =~= table_numbers(before.state));
            let a = table_layers(self.state, &self.vfs);
            let b = table_layers(mid.state, &mid.vfs);
            assert(self.layers().subrange(
                memtable_layers(self.state).len() as int,
                self.layers().len() as int,
            ) =~= a);
            assert(mid.layers().subrange(
                memtable_layers(mid.state).len() as int,
                mid.layers().len() as int,
            ) =~= b);
        }
        Ok(())
    }
}

// ----- Opening -----

/// The number after all of the given ones, at least 1.
pub open spec fn next_number(wals: Seq<u64>, tables: Seq<u64>) -> int {
    let a = if wals.len() == 0 {
        1int
    } else {
        wals.last() + 1
    };
    let b = if tables.len() == 0 {
        1int
    } else {
        tables.last() + 1
    };
    if a > b {
        a
    } else {
        b
    }
}

/// Every listed segment and table can be loaded.
pub open spec fn all_load(
    state: FsState,
    dir: Seq<char>,
    master: Option<Seq<u8>>,
    wals: Seq<u64>,
    tables: Seq<u64>,
) -> bool {
    &&& forall|i: int|
        #![trigger wals[i]]
        0 <= i < wals.len() ==> segment_loads(state, dir, wals[i])
    &&& forall|i: int|
        #![trigger tables[i]]
        0 <= i < tables.len() ==> table_loads(state, dir, master, tables[i])
}

/// The last sequence number that a directory knows.
pub open spec fn known_seqno(
    state: FsState,
    dir: Seq<char>,
    master: Option<Seq<u8>>,
    wals: Seq<u64>,
    tables: Seq<u64>,
) -> u64 {
    record_top(
        all_records(segments_at(state, dir, wals)),
        tables_top(state, dir, master, tables),
    )
}

/// There is a number for the new segment and one to follow it, a sequence
/// number for its header, and no bytes where it goes.
pub open spec fn room_to_open(
    state: FsState,
    dir: Seq<char>,
    master: Option<Seq<u8>>,
    wals: Seq<u64>,
    tables: Seq<u64>,
) -> bool {
    let next = next_number(wals, tables);
    &&& next < u64::MAX
    &&& known_seqno(state, dir, master, wals, tables) < u64::MAX
    &&& vacant(state, wal_path(dir, next as u64))
}

/// Why a directory cannot be opened, if so: a table or a segment does not
/// load, numbers have run out, or something is where the new segment goes.
pub open spec fn open_fault(
    state: FsState,
    dir: Seq<char>,
    master: Option<Seq<u8>>,
    wals: Seq<u64>,
    tables: Seq<u64>,
) -> Option<Fault> {
    match tables_fault(state, dir, master, tables) {
        Some(f) => Some(f),
        None => match segments_fault(state, dir, wals, 0) {
            Some(f) => Some(f),
            None => if next_number(wals, tables) >= u64::MAX {
                Some(Fault::Refused(ErrorView::InvalidArgument("file numbers exhausted"@)))
            } else if known_seqno(state, dir, master, wals, tables) == u64::MAX {
                Some(Fault::Refused(ErrorView::InvalidArgument("sequence numbers exhausted"@)))
            } else if !vacant(state, wal_path(dir, next_number(wals, tables) as u64)) {
                Some(
                    Fault::Refused(
                        ErrorView::Io {
                            kind: IoErrorKind::Other,
                            message: "wal segment file is not empty"@,
                        },
                    ),
                )
            } else {
                None
            },
        },
    }
}

/// Numbers are left in a directory: for files, and for writes.
pub open spec fn numbers_left(disk: Disk) -> bool {
    &&& forall|i: int|
        #![trigger disk.segments[i]]
        0 <= i < disk.segments.len() ==> disk.segments[i].id < u64::MAX - 1
    &&& forall|i: int|
        #![trigger disk.tables[i]]
        0 <= i < disk.tables.len() ==> disk.tables[i].id < u64::MAX - 1
    &&& last_seqno(all_records(disk.segments)) < u64::MAX
    &&& crate::engine::disk::floor_of(runs(disk.tables)) < u64::MAX
}

impl<V: Vfs> Db<V> {
    /// The engine holds what a directory's files say: the memtable what the
    /// listed segments replay to, the readers stand on the listed tables. The one
    /// file that is new is the segment in which the log goes on.
    pub open spec fn recovered(
        &self,
        state: FsState,
        wals: Seq<u64>,
        tables: Seq<u64>,
    ) -> bool {
        let dir = self.dir();
        let master = master_view(&self.settings().master_key);
        &&& all_load(state, dir, master, wals, tables)
        &&& memtable_layers(self.layers_state()) == seq![
            replayed(
                all_records(segments_at(state, dir, wals)),
                tables_top(state, dir, master, tables),
            ),
        ]
        &&& ssts_opened(self.layers_state().sstables@, &self.fs(), dir, master, tables)
        &&& self.last_seqno() == known_seqno(state, dir, master, wals, tables)
        &&& self.next_file() == next_number(wals, tables) + 1
        &&& self.pending_bytes() == 0
        &&& self.wal_position() == 0
        &&& self.wal_segment() == next_number(wals, tables)
        &&& wrote_file(
            state,
            self.fs_state(),
            wal_path(dir, self.wal_segment()),
            self.wal_file(),
        )
        &&& self.fs_state().files[self.wal_file()] == SegmentHeader::signed(
            self.wal_segment(),
            (self.last_seqno() + 1) as u64,
        ).bytes()
    }

    /// From the file system `vfs0` the engine was put together, and a new
    /// segment started.
    spec fn did_open(&self, vfs0: &V, wals: Seq<u64>, tables: Seq<u64>, fid: int, first: u64) -> bool {
        let state = V::File::fs_state(vfs0);
        let dir = self.dir();
        let master = master_view(&self.config.master_key);
        let id = next_number(wals, tables) as u64;
        &&& next_number(wals, tables) < u64::MAX
        &&& ssts_opened(self.state.sstables@, vfs0, dir, master, tables)
        &&& self.state.active_memtable@ == replayed(
            all_records(segments_at(state, dir, wals)),
            header_top(self.state.sstables@),
        )
        &&& self.state.immutable_memtables@.len() == 0
        &&& self.seqno == record_top(
            all_records(segments_at(state, dir, wals)),
            header_top(self.state.sstables@),
        )
        &&& self.ctx.next_file_number == id + 1
        &&& self.ctx.wal_segment_id == id
        &&& self.ctx.wal.handle().id() == fid
        &&& self.ctx.wal.position() == 0
        &&& self.segments@ == segments_at(state, dir, wals).push(
            Segment { id, records: Seq::empty() },
        )
        &&& keeps_readers(self.state, vfs0, &self.vfs)
        &&& wrote_file(state, self.fs_state(), wal_path(dir, id), fid)
        &&& self.fs_state().files[fid] == SegmentHeader::signed(id, first).bytes()
    }

    /// An engine put together from a directory that holds a history.
    #[verifier::rlimit(60)]
    proof fn lemma_opened_sound(
        &self,
        vfs0: &V,
        wals: Seq<u64>,
        tables: Seq<u64>,
        fid: int,
        first: u64,
        disk: Disk,
        log: Seq<Entry>,
    )
        requires
            self.did_open(vfs0, wals, tables, fid, first),
            wal_listing(wals, V::File::fs_state(vfs0), self.dir()),
            table_listing(tables, V::File::fs_state(vfs0), self.dir()),
            disk_ok(
                V::File::fs_state(vfs0),
                self.dir(),
                master_view(&self.config.master_key),
                disk,
                log,
            ),
        ensures
            layers_ok(
                self.layers(),
                seq![self.seqno as int] + clamped(disk.cuts, self.seqno as int),
                log,
            ),
            tables_sound(self.state, &self.vfs),
            self.disk().tables == disk.tables,
            self.segments@.drop_last() == disk.segments,
            history_ok((Disk { cuts: clamped(disk.cuts, self.seqno as int), ..disk }), log),
            last_seqno(all_records(disk.segments)) <= self.seqno,
            self.seqno == disk_top(disk),
    {
        let ssts = self.state.sstables@;
        lemma_recovered(
            vfs0,
            self.dir(),
            master_view(&self.config.master_key),
            disk,
            log,
            wals,
            tables,
            ssts,
            self.seqno,
        );
        assert forall|i: int| #![trigger ssts[i]] 0 <= i < ssts.len() implies ssts[i].reader.queue(
            &self.vfs,
        ) == (disk.tables[i].run, None::<Fault>) && ssts[i].reader.holds_run(
            &self.vfs,
            disk.tables[i].run,
        ) by {
            let rd = ssts[i].reader;
            assert(bytes_of(&rd.handle(), &self.vfs) == bytes_of(&rd.handle(), vfs0));
            assert(rd.holds_run(vfs0, disk.tables[i].run));
            let blocks = choose|blocks: Seq<Seq<Entry>>|
                #[trigger] table_ok(
                    bytes_of(&rd.handle(), vfs0),
                    rd.crypto_view(),
                    rd.table(),
                    blocks,
                ) && flat(blocks) == disk.tables[i].run;
            assert(table_ok(
                bytes_of(&rd.handle(), &self.vfs),
                rd.crypto_view(),
                rd.table(),
                blocks,
            ));
            assert(rd.queue(&self.vfs) == rd.queue(vfs0));
        }
        let tl = table_layers(self.state, &self.vfs);
        assert(tl =~= runs(disk.tables)) by {
            assert forall|i: int| 0 <= i < tl.len() implies tl[i] == runs(disk.tables)[i] by {
                assert(ssts[i].reader.queue(&self.vfs).0 == disk.tables[i].run);
            }
        }
        assert(memtable_layers(self.state) =~= seq![self.state.active_memtable@]);
        assert(self.layers() =~= seq![
            replayed(all_records(disk.segments), header_top(ssts)),
        ] + runs(disk.tables));
        assert(self.disk().tables =~= disk.tables) by {
            let a = self.disk().tables;
            assert forall|i: int| 0 <= i < a.len() implies a[i] == disk.tables[i] by {
                assert(ssts[i].reader.queue(&self.vfs).0 == disk.tables[i].run);
            }
        }
        assert(self.segments@.drop_last() =~= disk.segments);
    }

    /// The files after opening.
    #[verifier::rlimit(60)]
    proof fn lemma_opened_disk(
        &self,
        vfs0: &V,
        wals: Seq<u64>,
        tables: Seq<u64>,
        fid: int,
        first: u64,
        disk: Disk,
        log: Seq<Entry>,
    )
        requires
            self.did_open(vfs0, wals, tables, fid, first),
            wal_listing(wals, V::File::fs_state(vfs0), self.dir()),
            table_listing(tables, V::File::fs_state(vfs0), self.dir()),
            disk_ok(
                V::File::fs_state(vfs0),
                self.dir(),
                master_view(&self.config.master_key),
                disk,
                log,
            ),
            self.history@ == log,
            self.cuts@ == seq![self.seqno as int] + clamped(disk.cuts, self.seqno as int),
        ensures
            self.sound(),
            disk_ok(
                self.fs_state(),
                self.dir(),
                master_view(&self.config.master_key),
                self.disk(),
                self.history@,
            ),
            last_seqno(all_records(self.segments@)) <= self.seqno,
            forall|i: int|
                #![trigger self.segments@[i]]
                0 <= i < self.segments@.len() ==> self.segments@[i].id
                    < self.ctx.next_file_number,
            bytes_of(&self.ctx.wal.handle(), &self.vfs) == SegmentHeader::signed(
                self.ctx.wal_segment_id,
                first,
            ).bytes() + area_of(Seq::empty()),
    {
        let state = V::File::fs_state(vfs0);
        let dir = self.dir();
        let master = master_view(&self.config.master_key);
        let id = self.ctx.wal_segment_id;
        let segs = self.segments@;
        let seg = Segment { id, records: Seq::<LogRecord>::empty() };
        self.lemma_opened_sound(vfs0, wals, tables, fid, first, disk, log);
        assert(self.sound());
        lemma_listing(state, dir, master, disk, wals, tables);
        let header = SegmentHeader::signed(id, first);
        let bytes = self.fs_state().files[fid];
        assert(area_of(seg.records) =~= Seq::<u8>::empty());
        assert(bytes =~= header.bytes() + area_of(seg.records));
        crate::wal::reader::law_written_segment_opens(id, first, area_of(seg.records));
        crate::wal::reader::law_replay_of_written(seg.records);
        header.law_round_trip();
        assert(bytes.subrange(32, bytes.len() as int) =~= area_of(seg.records));
        assert(crate::engine::disk::segment_ok(bytes, seg.records));
        assert forall|i: int| #![trigger disk.segments[i]] 0 <= i
            < disk.segments.len() implies disk.segments[i].id < seg.id by {
            assert(wals[i] == disk.segments[i].id);
            if i < wals.len() - 1 {
                assert(wals[i] < wals[wals.len() - 1]);
            }
        }
        crate::engine::disk::lemma_files_new_segment(
            state,
            self.fs_state(),
            dir,
            master,
            disk,
            seg,
            fid,
        );
        let disk1 = Disk { segments: disk.segments.push(seg), ..disk };
        assert(segs =~= disk.segments.push(seg));
        assert(self.disk().cuts =~= clamped(disk.cuts, self.seqno as int));
        lemma_files_any_cuts(self.fs_state(), dir, master, disk1, self.disk());
        assert(all_records(segs) =~= all_records(disk.segments)) by {
            assert(segs.drop_last() =~= disk.segments);
        }
        assert(history_ok(self.disk(), log));
        assert forall|i: int| #![trigger segs[i]] 0 <= i < segs.len() implies segs[i].id
            < self.ctx.next_file_number by {
            if i < disk.segments.len() {
                assert(segs[i] == disk.segments[i]);
            }
        }
    }

    /// The directory after opening holds the history still.
    #[verifier::rlimit(60)]
    proof fn lemma_opened_durable(
        &self,
        vfs0: &V,
        wals: Seq<u64>,
        tables: Seq<u64>,
        fid: int,
        first: u64,
        disk: Disk,
        log: Seq<Entry>,
    )
        requires
            self.did_open(vfs0, wals, tables, fid, first),
            wal_listing(wals, V::File::fs_state(vfs0), self.dir()),
            table_listing(tables, V::File::fs_state(vfs0), self.dir()),
            disk_ok(
                V::File::fs_state(vfs0),
                self.dir(),
                master_view(&self.config.master_key),
                disk,
                log,
            ),
            self.history@ == log,
            self.cuts@ == seq![self.seqno as int] + clamped(disk.cuts, self.seqno as int),
        ensures
            self.durable(),
    {
        let dir = self.dir();
        let master = master_view(&self.config.master_key);
        let id = self.ctx.wal_segment_id;
        let ssts = self.state.sstables@;
        let segs = self.segments@;
        self.lemma_opened_disk(vfs0, wals, tables, fid, first, disk, log);
        reveal(Db::wal_current);
        assert(self.wal_current()) by {
            assert(bytes_of(&self.ctx.wal.handle(), &self.vfs) == SegmentHeader::signed(
                id,
                first,
            ).bytes() + area_of(segs.last().records));
        }
        assert(segs_numbered(segs, self.ctx.next_file_number)) by {
            reveal(segs_numbered);
        }
        assert(ssts_tied(ssts, vfs0, dir, master, self.ctx.next_file_number)) by {
            reveal(ssts_tied);
            assert forall|i: int| #![trigger ssts[i]] 0 <= i < ssts.len() implies ssts[i].id
                < self.ctx.next_file_number && sst_attached(ssts[i], vfs0, dir, master) by {
                let k = tables.len() - 1 - i;
                assert(ssts[i].id == tables[k]);
                if k < tables.len() - 1 {
                    assert(tables[k] < tables[tables.len() - 1]);
                }
            }
        }
        assert forall|i: int| #![trigger ssts[i]] 0 <= i < ssts.len() implies table_path(
            dir,
            ssts[i].id,
        ) != wal_path(dir, id) by {
            crate::engine::names::lemma_paths_differ(dir, id, ssts[i].id);
        }
        lemma_ties_kept(
            ssts,
            vfs0,
            &self.vfs,
            dir,
            master,
            self.ctx.next_file_number,
            self.ctx.next_file_number,
        );
        assert(ims_tied(
            self.state.immutable_memtables@,
            segs,
            self.cuts@,
            id,
            self.ctx.next_file_number,
        )) by {
            reveal(ims_tied);
        }
    }

    /// The engine came back with a history that a directory holds: every
    /// lookup answers as before, sequence numbers go on where the directory
    /// ends, and there are as many tables.
    pub open spec fn restores(&self, disk: Disk, log: Seq<Entry>) -> bool {
        &&& self.durable()
        &&& same_answers(self@, log)
        &&& self.last_seqno() == disk_top(disk)
        &&& self.layers_state().sstables@.len() == disk.tables.len()
    }

    /// Open a database under `data_dir` with the default configuration.
    pub fn open(vfs: V, data_dir: &str) -> (r: Result<Db<V>>)
        ensures
            ({
                let state = V::File::fs_state(&vfs);
                let dir = data_dir@;
                &&& r matches Ok(db) ==> {
                    &&& db.valid()
                    &&& db.dir() == dir
                    &&& db.settings().memtable_threshold_bytes == 4 * 1024 * 1024
                    &&& db.settings().bloom_bits_per_key == 10
                    &&& db.settings().bloom_num_hashes == 8
                    &&& db.settings().sstable_capacity_hint == 10_000
                    &&& db.settings().master_key is None
                    &&& V::File::fs_reliable(&vfs) ==> db.reliable()
                    &&& exists|wals: Seq<u64>, tables: Seq<u64>|
                        (wal_listing(wals, state, dir) && table_listing(tables, state, dir) || (
                        !V::File::fs_reliable(&vfs) && wals.len() == 0 && tables.len() == 0))
                            && #[trigger] db.recovered(state, wals, tables)
                }
                &&& V::File::fs_reliable(&vfs) ==> forall|wals: Seq<u64>, tables: Seq<u64>|
                    #![trigger wal_listing(wals, state, dir), table_listing(tables, state, dir)]
                    wal_listing(wals, state, dir) && table_listing(tables, state, dir) ==> (r is Ok
                        <==> all_load(state, dir, None, wals, tables) && room_to_open(
                        state,
                        dir,
                        None,
                        wals,
                        tables,
                    )) && (match open_fault(state, dir, None, wals, tables) {
                        Some(f) => r matches Err(e) && shows(e, f),
                        None => r is Ok,
                    })
                &&& forall|disk: Disk, log: Seq<Entry>|
                    V::File::fs_reliable(&vfs) && #[trigger] disk_ok(state, dir, None, disk, log)
                        && numbers_left(disk) ==> (r matches Ok(db) && db.restores(disk, log))
            }),
    {
        Db::open_with(vfs, data_dir, DbConfig::default())
    }

    /// Open a database under `data_dir`: open its tables, replay its WAL
    /// segments into the memtable, and start a new segment. An existing segment
    /// is never resumed. Records that the tables hold already are passed over.
    ///
    /// A directory that holds a history comes back with it: every lookup
    /// answers as before.
    #[verifier::rlimit(60)]
    pub fn open_with(vfs: V, data_dir: &str, config: DbConfig) -> (r: Result<Db<V>>)
        ensures
            ({
                let state = V::File::fs_state(&vfs);
                let dir = data_dir@;
                let master = master_view(&config.master_key);
                &&& r matches Ok(db) ==> {
                    &&& db.valid()
                    &&& db.dir() == dir
                    &&& db.settings() == config
                    &&& V::File::fs_reliable(&vfs) ==> db.reliable()
                    &&& exists|wals: Seq<u64>, tables: Seq<u64>|
                        (wal_listing(wals, state, dir) && table_listing(tables, state, dir) || (
                        !V::File::fs_reliable(&vfs) && wals.len() == 0 && tables.len() == 0))
                            && #[trigger] db.recovered(state, wals, tables)
                }
                &&& V::File::fs_reliable(&vfs) ==> forall|wals: Seq<u64>, tables: Seq<u64>|
                    #![trigger wal_listing(wals, state, dir), table_listing(tables, state, dir)]
                    wal_listing(wals, state, dir) && table_listing(tables, state, dir) ==> (r is Ok
                        <==> all_load(state, dir, master, wals, tables) && room_to_open(
                        state,
                        dir,
                        master,
                        wals,
                        tables,
                    )) && (match open_fault(state, dir, master, wals, tables) {
                        Some(f) => r matches Err(e) && shows(e, f),
                        None => r is Ok,
                    })
                &&& forall|disk: Disk, log: Seq<Entry>|
                    V::File::fs_reliable(&vfs) && #[trigger] disk_ok(
                        state,
                        dir,
                        master,
                        disk,
                        log,
                    ) && numbers_left(disk) ==> (r matches Ok(db) && db.restores(disk, log))
            }),
    {
        let ghost vfs0 = vfs;
        let ghost state = V::File::fs_state(&vfs);
        let ghost dir = data_dir@;
        let ghost master = master_view(&config.master_key);
        let mut vfs = vfs;
        let (wals, tables) = list_files(&vfs, data_dir);
        let ghost listed = wal_listing(wals@, state, dir) && table_listing(tables@, state, dir);
        proof {
            if listed {
                lemma_open_conditions(state, dir, master, wals@, tables@);
            }
        }
        let (ssts, floor) = match open_tables(&vfs, data_dir, &tables, &config.master_key) {
            Ok(p) => p,
            Err(e) => {
                return Err(e);
            },
        };
        proof {
            lemma_tables_top(ssts@, &vfs0, dir, master, tables@);
        }
        let (mem, top) = match replay_segments(&vfs, data_dir, &wals, floor) {
            Ok(p) => p,
            Err(e) => {
                return Err(e);
            },
        };
        let after_wals: u64 = if wals.len() == 0 {
            0
        } else {
            wals[wals.len() - 1]
        };
        let after_tables: u64 = if tables.len() == 0 {
            0
        } else {
            tables[tables.len() - 1]
        };
        let greatest: u64 = if after_wals > after_tables {
            after_wals
        } else {
            after_tables
        };
        if greatest >= u64::MAX - 1 {
            return Err(Error::InvalidArgument("file numbers exhausted"));
        }
        if top == u64::MAX {
            return Err(Error::InvalidArgument("sequence numbers exhausted"));
        }
        let id: u64 = greatest + 1;
        assert(id == next_number(wals@, tables@));
        let path: String = wal_segment_path(data_dir, id);
        let file: V::File = match vfs.open_writable(path.as_str()) {
            Ok(f) => f,
            Err(e) => {
                return Err(e);
            },
        };
        let ghost fid = file.id();
        let ghost state1 = V::File::fs_state(&vfs);
        match file.size(&vfs) {
            Ok(n) => {
                if n != 0 {
                    return Err(Error::io(IoErrorKind::Other, "wal segment file is not empty"));
                }
            },
            Err(e) => {
                return Err(e);
            },
        }
        let first: u64 = top + 1;
        let wal: SegmentWriter<V::File> = match SegmentWriter::create(&mut vfs, file, id, first) {
            Ok(w) => w,
            Err(e) => {
                return Err(e);
            },
        };
        let state_now = EngineState {
            active_memtable: mem,
            immutable_memtables: Vec::new(),
            sstables: ssts,
        };
        let ghost some = exists|disk: Disk, log: Seq<Entry>|
            #[trigger] disk_ok(state, dir, master, disk, log);
        let ghost (disk, log) = choose|disk: Disk, log: Seq<Entry>|
            #[trigger] disk_ok(state, dir, master, disk, log);
        let ghost segments = segments_at(state, dir, wals@).push(
            Segment { id, records: Seq::empty() },
        );
        let ghost cuts = seq![top as int] + clamped(disk.cuts, top as int);
        let db = Db {
            vfs,
            data_dir: data_dir.to_owned(),
            config,
            seqno: top,
            state: state_now,
            ctx: WriterCtx {
                wal,
                wal_segment_id: id,
                active_memtable_bytes: 0,
                next_file_number: id + 1,
            },
            history: Ghost(log),
            cuts: Ghost(cuts),
            segments: Ghost(segments),
        };
        proof {
            let header = SegmentHeader::signed(id, first);
            header.law_round_trip();
            state1.lemma_append_grows(fid, header.bytes());
            assert(state1 =~= state1.with_bytes(fid, state1.files[fid]));
            lemma_wrote(state, state1, db.fs_state(), path@, fid);
            assert(db.fs_state().files[fid] =~= header.bytes());
            lemma_opened_readers(db, &vfs0, path@, fid);
            assert(memtable_layers(db.state) =~= seq![mem@]);
            assert forall|i: int|
                #![trigger db.state.sstables@[i]]
                0 <= i < db.state.sstables@.len() implies table_path(
                dir,
                db.state.sstables@[i].id,
            ) != wal_path(dir, id) by {
                crate::engine::names::lemma_paths_differ(dir, id, db.state.sstables@[i].id);
            }
            lemma_opened_attached(db, &vfs0, tables@, path@, fid);
            assert(db.fs_state().names =~= state.names.insert(wal_path(dir, id), fid));
            assert(db.recovered(state, wals@, tables@));
            assert(db.did_open(&vfs0, wals@, tables@, fid, first));
            if listed && some {
                db.lemma_opened_durable(&vfs0, wals@, tables@, fid, first, disk, log);
                assert forall|disk2: Disk, log2: Seq<Entry>| #[trigger]
                    disk_ok(state, dir, master, disk2, log2) implies same_answers(
                    db@,
                    log2,
                ) && db.last_seqno() == disk_top(disk2) && db.state.sstables@.len()
                    == disk2.tables.len() by {
                    db.lemma_opened_sound(&vfs0, wals@, tables@, fid, first, disk2, log2);
                    law_layers_answer_as_history(
                        db.layers(),
                        seq![db.seqno as int] + clamped(disk2.cuts, db.seqno as int),
                        log2,
                    );
                    db.lemma_sound();
                    assert forall|key: Seq<u8>, snapshot: u64|
                        #![trigger lookup(db@, key, snapshot)]
                        #![trigger lookup(log2, key, snapshot)]
                        lookup(db@, key, snapshot) == lookup(log2, key, snapshot) by {
                        assert(lookup(flat(db.layers()), key, snapshot) == lookup(
                            db@,
                            key,
                            snapshot,
                        ));
                    }
                }
            }
        }
        Ok(db)
    }
}

/// Readers' files are as they were after the new segment was started.
proof fn lemma_opened_readers<V: Vfs>(db: Db<V>, vfs0: &V, path: Seq<char>, fid: int)
    requires
        state_ready(db.state, vfs0),
        wrote_file(V::File::fs_state(vfs0), db.fs_state(), path, fid),
        V::File::fs_state(vfs0).names.dom().contains(path) ==> V::File::fs_state(
            vfs0,
        ).files[fid].len() == 0,
        db.ctx.wal.wf(),
        db.ctx.wal.handle().id() == fid,
        db.ctx.wal.position() == 0,
        db.fs_state().files[fid].len() > 0,
    ensures
        keeps_readers(db.state, vfs0, &db.vfs),
        db.valid(),
{
    let a = V::File::fs_state(vfs0);
    assert forall|i: int|
        #![trigger db.state.sstables@[i]]
        0 <= i < db.state.sstables@.len() implies {
        let h = db.state.sstables@[i].reader.handle();
        is_open(&h, &db.vfs) && bytes_of(&h, &db.vfs) == bytes_of(&h, vfs0) && h.id() != fid
    } by {
        let h = db.state.sstables@[i].reader.handle();
        assert(a.files.dom().contains(h.id()));
        assert(a.files[h.id()].len() > 0);
    }
    lemma_readers_kept(db.state, vfs0, &db.vfs);
}

/// Readers stand on their files after the new segment was started.
proof fn lemma_opened_attached<V: Vfs>(
    db: Db<V>,
    vfs0: &V,
    tables: Seq<u64>,
    path: Seq<char>,
    fid: int,
)
    requires
        ssts_opened(
            db.state.sstables@,
            vfs0,
            db.dir(),
            master_view(&db.config.master_key),
            tables,
        ),
        keeps_readers(db.state, vfs0, &db.vfs),
        wrote_file(V::File::fs_state(vfs0), db.fs_state(), path, fid),
        forall|i: int|
            #![trigger db.state.sstables@[i]]
            0 <= i < db.state.sstables@.len() ==> table_path(db.dir(), db.state.sstables@[i].id)
                != path,
    ensures
        ssts_opened(
            db.state.sstables@,
            &db.vfs,
            db.dir(),
            master_view(&db.config.master_key),
            tables,
        ),
{
    let ssts = db.state.sstables@;
    let dir = db.dir();
    let master = master_view(&db.config.master_key);
    assert forall|i: int| #![trigger ssts[i]] 0 <= i < ssts.len() implies ssts[i].id
        == tables[tables.len() - 1 - i] && sst_attached(ssts[i], &db.vfs, dir, master) by {
        lemma_attached_kept(ssts[i], vfs0, &db.vfs, dir, master);
    }
}

/// A listing is determined by the directory, and a directory that holds a
/// history with numbers left can be opened.
proof fn lemma_open_conditions(
    state: FsState,
    dir: Seq<char>,
    master: Option<Seq<u8>>,
    wals: Seq<u64>,
    tables: Seq<u64>,
)
    requires
        wal_listing(wals, state, dir),
        table_listing(tables, state, dir),
    ensures
        forall|w: Seq<u64>, t: Seq<u64>|
            #![trigger wal_listing(w, state, dir), table_listing(t, state, dir)]
            wal_listing(w, state, dir) && table_listing(t, state, dir) ==> w == wals && t
                == tables,
        forall|disk: Disk, log: Seq<Entry>|
            #[trigger] disk_ok(state, dir, master, disk, log) && numbers_left(disk) ==> all_load(
                state,
                dir,
                master,
                wals,
                tables,
            ) && room_to_open(state, dir, master, wals, tables),
{
    assert forall|w: Seq<u64>, t: Seq<u64>|
        #![trigger wal_listing(w, state, dir), table_listing(t, state, dir)]
        wal_listing(w, state, dir) && table_listing(t, state, dir) implies w == wals && t
        == tables by {
        lemma_ascending_equal(w, wals);
        lemma_ascending_equal(t, tables);
    }
    assert forall|disk: Disk, log: Seq<Entry>| #[trigger]
        disk_ok(state, dir, master, disk, log) && numbers_left(disk) implies all_load(
        state,
        dir,
        master,
        wals,
        tables,
    ) && room_to_open(state, dir, master, wals, tables) by {
        lemma_disk_loads(state, dir, master, disk, wals, tables);
        lemma_room(state, dir, master, wals, tables, disk, log);
    }
}

/// A directory that holds a history with numbers left has room for a new
/// segment.
proof fn lemma_room(
    state: FsState,
    dir: Seq<char>,
    master: Option<Seq<u8>>,
    wals: Seq<u64>,
    tables: Seq<u64>,
    disk: Disk,
    log: Seq<Entry>,
)
    requires
        wal_listing(wals, state, dir),
        table_listing(tables, state, dir),
        disk_ok(state, dir, master, disk, log),
        numbers_left(disk),
    ensures
        room_to_open(state, dir, master, wals, tables),
{
    lemma_listing(state, dir, master, disk, wals, tables);
    let next = next_number(wals, tables);
    if wals.len() > 0 {
        assert(wals[wals.len() - 1] == disk.segments[wals.len() - 1].id);
    }
    if tables.len() > 0 {
        assert(tables[tables.len() - 1] == disk.tables[0].id);
    }
    assert forall|i: int| #![trigger disk.segments[i]] 0 <= i
        < disk.segments.len() implies disk.segments[i].id < next by {
        assert(wals[i] == disk.segments[i].id);
        if i < wals.len() - 1 {
            assert(wals[i] < wals[wals.len() - 1]);
        }
    }
    crate::engine::disk::lemma_segment_is_new(state, dir, master, disk, next as u64);
    lemma_known_seqno(state, dir, master, wals, tables, disk);
}

/// The last sequence number that a sound directory knows.
proof fn lemma_known_seqno(
    state: FsState,
    dir: Seq<char>,
    master: Option<Seq<u8>>,
    wals: Seq<u64>,
    tables: Seq<u64>,
    disk: Disk,
)
    requires
        files_ok(state, dir, master, disk),
        wal_listing(wals, state, dir),
        table_listing(tables, state, dir),
        crate::engine::disk::increasing(all_records(disk.segments)),
    ensures
        tables_top(state, dir, master, tables) == crate::engine::disk::floor_of(
            runs(disk.tables),
        ),
        known_seqno(state, dir, master, wals, tables) <= crate::engine::disk::floor_of(
            runs(disk.tables),
        ) || known_seqno(state, dir, master, wals, tables) <= last_seqno(
            all_records(disk.segments),
        ),
{
    lemma_listing(state, dir, master, disk, wals, tables);
    reveal(files_ok);
    let segs = segments_at(state, dir, wals);
    assert(segs =~= disk.segments) by {
        assert forall|i: int| 0 <= i < segs.len() implies segs[i] == disk.segments[i] by {
            assert(disk.segments[i].id == segment_ids(disk.segments)[i]);
            assert(stored(state, wal_path(dir, disk.segments[i].id)) is Some);
            assert(segs[i].id == disk.segments[i].id);
            assert(segs[i].records =~= disk.segments[i].records);
        }
    }
    lemma_tables_top_of(state, dir, master, tables, disk.tables);
    lemma_record_top_bound(
        all_records(disk.segments),
        tables_top(state, dir, master, tables),
    );
}

proof fn lemma_record_top_bound(records: Seq<LogRecord>, start: u64)
    requires
        crate::engine::disk::increasing(records),
    ensures
        record_top(records, start) == start || record_top(records, start) <= last_seqno(records),
    decreases records.len(),
{
    if records.len() > 0 {
        let less = records.drop_last();
        assert forall|i: int, j: int|
            #![trigger less[i], less[j]]
            0 <= i < j < less.len() implies less[i].seqno < less[j].seqno by {
            assert(records[i].seqno < records[j].seqno);
        }
        lemma_record_top_bound(less, start);
        if less.len() > 0 {
            assert(records[less.len() - 1].seqno < records[records.len() - 1].seqno);
        }
    }
}

proof fn lemma_tables_top_of(
    state: FsState,
    dir: Seq<char>,
    master: Option<Seq<u8>>,
    ids: Seq<u64>,
    tables: Seq<TableFile>,
)
    requires
        ids == table_ids(tables),
        forall|i: int|
            #![trigger tables[i]]
            0 <= i < tables.len() ==> (stored(state, table_path(dir, tables[i].id)) matches Some(b)
                && is_table(b, table_crypto(master, tables[i].id), tables[i].run)),
    ensures
        tables_top(state, dir, master, ids) == crate::engine::disk::floor_of(runs(tables)),
    decreases tables.len(),
{
    if tables.len() > 0 {
        let front = tables.drop_last();
        let rest = ids.subrange(1, ids.len() as int);
        assert(rest =~= table_ids(front));
        assert forall|i: int| #![trigger front[i]] 0 <= i < front.len() implies (stored(
            state,
            table_path(dir, front[i].id),
        ) matches Some(b) && is_table(b, table_crypto(master, front[i].id), front[i].run)) by {
            assert(front[i] == tables[i]);
        }
        lemma_tables_top_of(state, dir, master, rest, front);
        assert(runs(tables).drop_last() =~= runs(front));
        let t = tables[tables.len() - 1];
        assert(ids[0] == t.id);
        let b = state.content(table_path(dir, t.id));
        assert(stored(state, table_path(dir, t.id)) == Some(b));
        let crypto = table_crypto(master, t.id);
        let parsed = parse_table(b, crypto is Some)->Ok_0;
        let blocks = choose|blocks: Seq<Seq<Entry>>|
            #[trigger] table_ok(b, crypto, parsed, blocks) && flat(blocks) == t.run;
        lemma_header_top_of(parsed, t.run);
    }
}

} // verus!
