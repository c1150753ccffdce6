//! Configuration and state of the engine.
use vstd::prelude::*;

use crate::crypto::kdf::MasterKey;
use crate::filter::blocked_bloom::BloomParams;
use crate::io::vfs::{Vfs, VfsFile};
use crate::memtable::skiplist::SkipList;
use crate::sstable::reader::SstReader;

verus! {

/// User-tunable knobs. Pass to [`Db::open_with`](crate::engine::Db::open_with).
#[derive(Clone)]
pub struct DbConfig {
    /// Memtable size in bytes that triggers rotation (active to the immutable
    /// queue) and a fresh WAL segment.
    pub memtable_threshold_bytes: usize,
    /// Bloom filter bit budget per key in newly written SSTables.
    pub bloom_bits_per_key: u8,
    /// Number of hashes set per key in the Bloom filter.
    pub bloom_num_hashes: u8,
    /// Hint for the expected SSTable record count, used to size the Bloom
    /// filter of a merged table.
    pub sstable_capacity_hint: usize,
    /// Optional master key for encryption at rest. When `Some`, every SSTable
    /// written by the engine is encrypted under a key of its own, derived from
    /// the master key and the table's number. When `None`, SSTables are
    /// plaintext.
    pub master_key: Option<MasterKey>,
}

impl Default for DbConfig {
    fn default() -> (c: DbConfig)
        ensures
            c.memtable_threshold_bytes == 4 * 1024 * 1024,
            c.bloom_bits_per_key == 10,
            c.bloom_num_hashes == 8,
            c.sstable_capacity_hint == 10_000,
            c.master_key is None,
    {
        DbConfig {
            memtable_threshold_bytes: 4 * 1024 * 1024,
            bloom_bits_per_key: 10,
            bloom_num_hashes: 8,
            sstable_capacity_hint: 10_000,
            master_key: None,
        }
    }
}

impl DbConfig {
    /// The filter parameters.
    pub open spec fn bloom_view(&self) -> BloomParams {
        BloomParams { num_hashes: self.bloom_num_hashes, bits_per_key: self.bloom_bits_per_key }
    }

    /// Law: filters are made with the parameters that are set.
    pub proof fn law_filters_are_made_as_set(&self)
        ensures
            self.bloom_view().num_hashes == self.bloom_num_hashes,
            self.bloom_view().bits_per_key == self.bloom_bits_per_key,
    {
    }

    /// The filter parameters.
    pub fn bloom_params(&self) -> (p: BloomParams)
        ensures
            p == self.bloom_view(),
    {
        BloomParams { num_hashes: self.bloom_num_hashes, bits_per_key: self.bloom_bits_per_key }
    }
}

/// Captured engine sequence number. Reads taken with the same snapshot see a
/// consistent view across calls, even if intervening writes land.
#[derive(Debug, Clone, Copy)]
pub struct Snapshot {
    seqno: u64,
}

impl View for Snapshot {
    type V = u64;

    closed spec fn view(&self) -> u64 {
        self.seqno
    }
}

impl Snapshot {
    /// Pin a snapshot at `seqno`.
    pub(crate) fn at(seqno: u64) -> (s: Snapshot)
        ensures
            s@ == seqno,
    {
        Snapshot { seqno }
    }

    /// The sequence number this snapshot is pinned at.
    pub fn seqno(self) -> (n: u64)
        ensures
            n == self@,
    {
        self.seqno
    }
}

/// One live SSTable: its file id (so the engine can unlink the file after
/// compaction) plus the open reader.
pub struct LiveSst<F: VfsFile> {
    /// File id (the `NNNNNNNN` in `NNNNNNNN.sst`).
    pub id: u64,
    /// Open reader.
    pub reader: SstReader<F>,
}

/// An immutable memtable plus the id of the WAL segment that fed it.
///
/// The engine deletes that WAL segment once the memtable lands as an SSTable.
pub struct ImmutableMemtable {
    /// The frozen memtable.
    pub memtable: SkipList,
    /// WAL segment id whose records hydrated this memtable. `0` means that
    /// there is no segment to drop.
    pub wal_segment_id: u64,
}

/// What reads walk through: memtables and tables.
pub struct EngineState<V: Vfs> {
    /// Active memtable: writes go here.
    pub active_memtable: SkipList,
    /// Frozen memtables waiting to be flushed. Newest first.
    pub immutable_memtables: Vec<ImmutableMemtable>,
    /// Currently live SSTables. Newest first (the first match wins on
    /// duplicate keys, so the freshest version always shadows older flushes).
    pub sstables: Vec<LiveSst<V::File>>,
}

} // verus!
