//! High-level compaction primitive: merge several SSTables into one.
//!
//! [`compact_sstables`] is the building block the engine wraps. It is generic
//! over the [`Vfs`].
use vstd::prelude::*;

use crate::checksum::Algorithm;
use crate::compaction::merger::{
    all_sorted, law_merge_is_sorted, law_merge_is_stable, law_merge_keeps_entries, law_merge_len,
    law_merge_meets_fault, lemma_clean, lemma_least, lemma_merged_clean, merged, merged_until, runs_of, stored_bytes, tail,
    total, versions_at, KWayMerge, RecordStream,
};
use crate::crypto::aead::AeadKey;
use crate::error::{Error, ErrorView, IoErrorKind, Result};
use crate::filter::blocked_bloom::{blocks_for, BloomParams, BLOCK_BYTES, HEADER_SIZE};
use crate::io::vfs::{bytes_of, file_synced, is_open, others_synced, FsState, Vfs, VfsFile};
use crate::model::{lemma_weight_part, sorted, weight, Entry};
use crate::sstable::format::DEFAULT_BLOCK_SIZE;
use crate::sstable::reader::{SstReader, SstStream};
use crate::sstable::table::{
    flat, header_fits, lemma_table_len, parse_table, shows, table_holds, table_ok, CryptoView,
    Fault, TableView,
};
use crate::sstable::writer::{
    adding_refusal, filter_for, lemma_refusal_stays, table_made_for, table_refusal, SstWriter,
    MAX_TABLE_WEIGHT,
};

verus! {

/// Tunables for one invocation of [`compact_sstables`].
pub struct CompactionConfig<'a> {
    /// Filter parameters for the output SSTable.
    pub bloom: BloomParams,
    /// Filter capacity hint for the output. The compactor takes the larger of
    /// this and the number of records in the inputs.
    pub bloom_capacity_floor: usize,
    /// Block-checksum algorithm of the output.
    pub checksum: Algorithm,
    /// When `Some`, the output is encrypted with this key, and the id is bound
    /// into every block.
    pub encryption: Option<(&'a AeadKey, u64)>,
}

impl<'a> CompactionConfig<'a> {
    /// Key and identity of the output.
    pub open spec fn crypto_view(&self) -> Option<CryptoView> {
        match self.encryption {
            Some((key, id)) => Some(CryptoView { key: key@, sstable_id: id }),
            None => None,
        }
    }
}

impl<'a> Default for CompactionConfig<'a> {
    fn default() -> (c: CompactionConfig<'a>)
        ensures
            c.bloom.valid(),
            c.bloom.num_hashes == 8,
            c.bloom.bits_per_key == 10,
            c.bloom_capacity_floor == 1024,
            c.checksum == Algorithm::Crc32c,
            c.encryption is None,
    {
        CompactionConfig {
            bloom: BloomParams::default(),
            bloom_capacity_floor: 1024,
            checksum: Algorithm::Crc32c,
            encryption: None,
        }
    }
}

/// Result of one compaction run.
pub struct CompactionOutput<V: Vfs> {
    /// Reader on the freshly written merged SSTable.
    pub reader: SstReader<V::File>,
    /// Number of records emitted into the output.
    pub records_emitted: u64,
}

/// What each input still gives.
pub open spec fn input_queues<F: VfsFile>(inputs: Seq<&SstReader<F>>, fs: &F::Fs) -> Seq<
    (Seq<Entry>, Option<Fault>),
> {
    inputs.map_values(|r: &SstReader<F>| r.queue(fs))
}

/// No source has a fault.
pub open spec fn clean(queues: Seq<(Seq<Entry>, Option<Fault>)>) -> bool {
    forall|i: int| 0 <= i < queues.len() ==> (#[trigger] queues[i]).1 is None
}

/// Records that the headers of the inputs say they hold, as far as can be
/// counted.
pub open spec fn header_entries<F: VfsFile>(inputs: Seq<&SstReader<F>>) -> nat
    decreases inputs.len(),
{
    if inputs.len() == 0 {
        0
    } else {
        let sum = header_entries(inputs.drop_last())
            + inputs.last().table().header.num_entries;
        if sum <= usize::MAX {
            sum as nat
        } else {
            usize::MAX as nat
        }
    }
}

/// Filter capacity of the output.
pub open spec fn output_capacity<F: VfsFile>(inputs: Seq<&SstReader<F>>, floor: usize) -> nat {
    let estimate = if header_entries(inputs) < 1024 { 1024nat } else { header_entries(inputs) };
    if floor > estimate {
        floor as nat
    } else {
        estimate
    }
}

fn estimate_total_entries<F: VfsFile>(inputs: &[&SstReader<F>]) -> (n: usize)
    ensures
        n == (if header_entries(inputs@) < 1024 { 1024nat } else { header_entries(inputs@) }),
{
    let mut sum: usize = 0;
    let mut i: usize = 0;
    assert(inputs@.subrange(0, 0) =~= Seq::empty());
    while i < inputs.len()
        invariant
            i <= inputs@.len(),
            sum == header_entries(inputs@.subrange(0, i as int)),
        decreases inputs@.len() - i,
    {
        let entries: u64 = inputs[i].file_header().num_entries;
        proof {
            assert(inputs@.subrange(0, i + 1).drop_last() =~= inputs@.subrange(0, i as int));
        }
        let both: u128 = sum as u128 + entries as u128;
        sum = if both <= usize::MAX as u128 {
            both as usize
        } else {
            usize::MAX
        };
        i += 1;
    }
    assert(inputs@.subrange(0, i as int) =~= inputs@);
    if sum < 1024 {
        1024
    } else {
        sum
    }
}

/// The headers of sound inputs count all of their records.
proof fn lemma_header_entries<F: VfsFile>(inputs: Seq<&SstReader<F>>, fs: &F::Fs)
    requires
        forall|i: int|
            #![trigger inputs[i]]
            0 <= i < inputs.len() ==> inputs[i].holds_run(fs, inputs[i].queue(fs).0),
        total(runs_of(input_queues(inputs, fs))) <= usize::MAX,
    ensures
        header_entries(inputs) == total(runs_of(input_queues(inputs, fs))),
    decreases inputs.len(),
{
    let runs = runs_of(input_queues(inputs, fs));
    if inputs.len() > 0 {
        let less = inputs.drop_last();
        let rd = inputs.last();
        assert(runs.drop_last() =~= runs_of(input_queues(less, fs)));
        assert(runs.last() == rd.queue(fs).0);
        assert forall|i: int| #![trigger less[i]] 0 <= i < less.len() implies less[i].holds_run(
            fs,
            less[i].queue(fs).0,
        ) by {
            assert(less[i] == inputs[i]);
        }
        lemma_header_entries(less, fs);
        assert(inputs[inputs.len() - 1].holds_run(fs, rd.queue(fs).0));
        reveal(header_fits);
    }
}

/// Law: the output's filter is made for all records of the inputs. Of sound
/// inputs the capacity is no less than the number of their records together, than
/// the floor that was asked for, and than 1024; and it is one of these.
pub proof fn law_capacity_counts_every_record<F: VfsFile>(
    inputs: Seq<&SstReader<F>>,
    fs: &F::Fs,
    floor: usize,
)
    requires
        forall|i: int|
            #![trigger inputs[i]]
            0 <= i < inputs.len() ==> inputs[i].holds_run(fs, inputs[i].queue(fs).0),
        merged(runs_of(input_queues(inputs, fs))).len() <= usize::MAX,
    ensures
        ({
            let n = output_capacity(inputs, floor);
            let all = merged(runs_of(input_queues(inputs, fs))).len();
            &&& n >= all && n >= floor && n >= 1024
            &&& n == all || n == floor || n == 1024
        }),
{
    law_merge_len(runs_of(input_queues(inputs, fs)));
    lemma_header_entries(inputs, fs);
}

/// Law: a compaction fails where an input cannot be read to its end, whatever the
/// output; it never leaves out what it could not read.
pub proof fn law_compaction_meets_fault<F: VfsFile>(
    inputs: Seq<&SstReader<F>>,
    fs: &F::Fs,
    output_path: Seq<char>,
    encrypted: bool,
    capacity_floor: usize,
    bits_per_key: u8,
    i: int,
)
    requires
        0 <= i < inputs.len(),
        inputs[i].queue(fs).1 is Some,
    ensures
        compaction_fault(inputs, fs, output_path, encrypted, capacity_floor, bits_per_key) is Some,
{
    let queues = input_queues(inputs, fs);
    assert(queues[i] == inputs[i].queue(fs));
    law_merge_meets_fault(queues);
}

/// Why the index of an input cannot be read, if so: the first one decides.
pub open spec fn first_index_fault<F: VfsFile>(inputs: Seq<&SstReader<F>>) -> Option<ErrorView>
    decreases inputs.len(),
{
    if inputs.len() == 0 {
        None
    } else if inputs[0].index_fault() is Some {
        inputs[0].index_fault()
    } else {
        first_index_fault(inputs.subrange(1, inputs.len() as int))
    }
}

/// Where no input has a fault and the output file is empty, the merge of all
/// records is written unless a table of them is refused.
pub proof fn lemma_compaction_clean<F: VfsFile>(
    inputs: Seq<&SstReader<F>>,
    fs: &F::Fs,
    output_path: Seq<char>,
    encrypted: bool,
    capacity_floor: usize,
    bits_per_key: u8,
)
    requires
        clean(input_queues(inputs, fs)),
        vacant(F::fs_state(fs), output_path),
    ensures
        compaction_fault(inputs, fs, output_path, encrypted, capacity_floor, bits_per_key) == (
        match table_refusal(
            merged(runs_of(input_queues(inputs, fs))),
            DEFAULT_BLOCK_SIZE as nat,
            encrypted,
            Some(blocks_for(output_capacity(inputs, capacity_floor) as usize, bits_per_key)),
        ) {
            Some(why) => Some(Fault::Refused(ErrorView::InvalidArgument(why))),
            None => None,
        }),
{
    let queues = input_queues(inputs, fs);
    if first_index_fault(inputs) is Some {
        let i = lemma_first_index_fault(inputs);
        assert(queues[i] == inputs[i].queue(fs));
        assert(queues[i].1 is Some);
    }
    lemma_merged_clean(queues);
}

/// It is the fault of an input.
proof fn lemma_first_index_fault<F: VfsFile>(inputs: Seq<&SstReader<F>>) -> (i: int)
    requires
        first_index_fault(inputs) is Some,
    ensures
        0 <= i < inputs.len(),
        inputs[i].index_fault() == first_index_fault(inputs),
    decreases inputs.len(),
{
    if inputs[0].index_fault() is Some {
        0
    } else {
        1 + lemma_first_index_fault(inputs.subrange(1, inputs.len() as int))
    }
}

/// Stream every input.
fn open_streams<'a, F: VfsFile>(inputs: &[&'a SstReader<F>]) -> (r: Result<Vec<SstStream<'a, F>>>)
    ensures
        r matches Ok(v) ==> v@.len() == inputs@.len() && forall|i: int|
            #![trigger v@[i]]
            0 <= i < v@.len() ==> v@[i].source() == *inputs@[i] && inputs@[i].index_fault() is None
                && (forall|fs: &F::Fs| #[trigger] v@[i].rest(fs) == inputs@[i].queue(fs)),
        match first_index_fault(inputs@) {
            Some(why) => r matches Err(e) && e@ == why,
            None => r is Ok,
        },
{
    let mut streams: Vec<SstStream<'a, F>> = Vec::new();
    let mut i: usize = 0;
    assert(inputs@.subrange(0, inputs@.len() as int) =~= inputs@);
    while i < inputs.len()
        invariant
            i <= inputs@.len(),
            streams@.len() == i,
            first_index_fault(inputs@) == first_index_fault(
                inputs@.subrange(i as int, inputs@.len() as int),
            ),
            forall|j: int|
                #![trigger streams@[j]]
                0 <= j < i ==> streams@[j].source() == *inputs@[j] && inputs@[j].index_fault() is None
                    && (forall|fs: &F::Fs|
                    #[trigger] streams@[j].rest(fs) == inputs@[j].queue(fs)),
        decreases inputs@.len() - i,
    {
        let input: &'a SstReader<F> = inputs[i];
        proof {
            let left = inputs@.subrange(i as int, inputs@.len() as int);
            assert(left[0] == inputs@[i as int]);
            assert(left.subrange(1, left.len() as int) =~= inputs@.subrange(
                i + 1,
                inputs@.len() as int,
            ));
        }
        match input.scan_stream() {
            Err(e) => {
                return Err(e);
            },
            Ok(s) => {
                streams.push(s);
            },
        }
        i += 1;
    }
    Ok(streams)
}

/// Why records that come until a fault cannot be written as a table, if so.
pub open spec fn merge_fault(
    given: (Seq<Entry>, Option<Fault>),
    encrypted: bool,
    filter_blocks: nat,
) -> Option<Fault> {
    let target = DEFAULT_BLOCK_SIZE as nat;
    match adding_refusal(given.0, target, encrypted) {
        Some(why) => Some(Fault::Refused(ErrorView::InvalidArgument(why))),
        None => match given.1 {
            Some(f) => Some(f),
            None => match table_refusal(given.0, target, encrypted, Some(filter_blocks)) {
                Some(why) => Some(Fault::Refused(ErrorView::InvalidArgument(why))),
                None => None,
            },
        },
    }
}

/// Why merging the inputs into one table fails, if so: the index of an input
/// cannot be read; the output file is not empty; a record is refused before
/// the merge meets a fault; it meets one; or the table cannot be finished.
pub open spec fn compaction_fault<F: VfsFile>(
    inputs: Seq<&SstReader<F>>,
    fs: &F::Fs,
    output_path: Seq<char>,
    encrypted: bool,
    capacity_floor: usize,
    bits_per_key: u8,
) -> Option<Fault> {
    if first_index_fault(inputs) is Some {
        Some(Fault::Refused(first_index_fault(inputs)->0))
    } else if !vacant(F::fs_state(fs), output_path) {
        Some(
            Fault::Refused(
                ErrorView::Io {
                    kind: IoErrorKind::Other,
                    message: "compaction output file is not empty"@,
                },
            ),
        )
    } else {
        merge_fault(
            merged_until(input_queues(inputs, fs)),
            encrypted,
            blocks_for(output_capacity(inputs, capacity_floor) as usize, bits_per_key),
        )
    }
}

/// Merge everything into the writer. Gives the number of records.
fn copy_all<'a, V: Vfs>(
    vfs: &mut V,
    merger: &mut KWayMerge<SstStream<'a, V::File>>,
    writer: &mut SstWriter<V::File>,
) -> (r: Result<u64>)
    requires
        old(merger).wf(old(vfs)),
        old(writer).wf(old(vfs)),
        old(writer).entries().len() == 0,
        old(writer).in_order(),
        forall|i: int|
            #![trigger old(merger).origins()[i]]
            0 <= i < old(merger).origins().len() ==> old(merger).origins()[i] != old(writer).handle().id(),
    ensures
        final(writer).same_settings(*old(writer)),
        V::File::fs_state(old(vfs)).only_changes(
            V::File::fs_state(final(vfs)),
            old(writer).handle().id(),
        ),
        ({
            let queues = old(merger).queues(old(vfs));
            let all = merged(runs_of(queues));
            &&& r matches Ok(n) ==> final(writer).wf(final(vfs)) && final(writer).in_order() && clean(queues) && final(writer).entries() == all && n == all.len()
            &&& clean(queues) && V::File::fs_reliable(old(vfs)) && weight(all) <= MAX_TABLE_WEIGHT
                ==> r is Ok
            &&& V::File::fs_reliable(old(vfs)) ==> match adding_refusal(
                merged_until(queues).0,
                old(writer).target(),
                old(writer).crypto_view() is Some,
            ) {
                Some(why) => r matches Err(e) && e@ == ErrorView::InvalidArgument(why),
                None => match merged_until(queues).1 {
                    Some(f) => r matches Err(e) && shows(e, f),
                    None => r is Ok,
                },
            }
        }),
        V::File::fs_reliable(old(vfs)) ==> V::File::fs_reliable(final(vfs)),
{
    let ghost state0 = V::File::fs_state(vfs);
    let ghost id = writer.handle().id();
    let ghost queues = merger.queues(vfs);
    let ghost all = merged(runs_of(queues));
    let ghost given = merged_until(queues);
    let ghost origins = merger.origins();
    let mut emitted: u64 = 0;
    let mut done: bool = false;
    proof {
        writer.lemma_count(vfs);
        assert(state0 =~= state0.with_bytes(id, state0.files[id]));
        assert(all.subrange(0, all.len() as int) =~= all);
        assert(writer.entries() =~= all.subrange(0, 0));
        assert(writer.entries() =~= given.0.subrange(0, 0));
        assert(given.0.subrange(0, given.0.len() as int) =~= given.0);
    }
    while !done
        invariant
            merger.wf(vfs),
            writer.wf(vfs),
            writer.same_settings(*old(writer)),
            id == old(writer).handle().id(),
            merger.origins() == origins,
            forall|i: int| #![trigger origins[i]] 0 <= i < origins.len() ==> origins[i] != id,
            state0 == V::File::fs_state(old(vfs)),
            state0.only_changes(V::File::fs_state(vfs), id),
            V::File::fs_reliable(old(vfs)) ==> V::File::fs_reliable(vfs),
            queues == old(merger).queues(old(vfs)),
            all == merged(runs_of(queues)),
            emitted == writer.entries().len(),
            emitted <= all.len(),
            writer.entries() == all.subrange(0, emitted as int),
            merged(runs_of(merger.queues(vfs))) == all.subrange(emitted as int, all.len() as int),
            clean(merger.queues(vfs)) == clean(queues),
            writer.in_order(),
            given == merged_until(queues),
            emitted <= given.0.len(),
            writer.entries() == given.0.subrange(0, emitted as int),
            merged_until(merger.queues(vfs)) == (
                given.0.subrange(emitted as int, given.0.len() as int),
                given.1,
            ),
            done ==> emitted == given.0.len() && given.1 is None,
            done ==> emitted == all.len() && clean(queues),
        decreases all.len() - emitted + (if done { 0int } else { 1int }),
    {
        let ghost now = merger.queues(vfs);
        proof {
            writer.lemma_count(vfs);
            if clean(now) {
                lemma_clean(now, now.len() as int);
            }
            lemma_least(runs_of(now), now.len() as int);
        }
        match merger.next_record(vfs) {
            Err(e) => {
                proof {
                    if V::File::fs_reliable(vfs) {
                        assert(given.0.subrange(0, emitted as int) =~= given.0);
                    }
                }
                return Err(e);
            },
            Ok(None) => {
                proof {
                    lemma_drained(now);
                }
                done = true;
            },
            Ok(Some((key, hit))) => {
                let ghost e = Entry {
                    key: key@,
                    seqno: hit.seqno,
                    op: hit.op,
                    value: hit.value@,
                };
                let ghost before = V::File::fs_state(vfs);
                let ghost fs0 = *vfs;
                let ghost left = merger.queues(vfs);
                let ghost w0 = *writer;
                proof {
                    let rest = given.0.subrange(emitted as int, given.0.len() as int);
                    assert(rest[0] == e);
                    assert(rest.subrange(1, rest.len() as int) =~= given.0.subrange(
                        emitted + 1,
                        given.0.len() as int,
                    ));
                    assert(merged_until(left).0 =~= rest.subrange(1, rest.len() as int));
                    assert(given.0.subrange(0, emitted + 1) =~= writer.entries().push(e));
                    assert(e == all[emitted as int]);
                    assert(all.subrange(0, emitted + 1) =~= writer.entries().push(e));
                    if weight(all) <= MAX_TABLE_WEIGHT {
                        lemma_weight_part(all, 0, emitted + 1);
                        writer.lemma_add_accepted(e);
                    }
                    lemma_clean_update(now, left);
                }
                match writer.add(vfs, key.as_slice(), hit.value.as_slice(), hit.seqno, hit.op) {
                    Err(err) => {
                        proof {
                            state0.lemma_changes_transitive(before, V::File::fs_state(vfs), id);
                            SstWriter::lemma_add_in_order(w0, *writer, e);
                            if w0.refusal(e) is Some {
                                lemma_refusal_stays(
                                    given.0,
                                    emitted + 1,
                                    w0.target(),
                                    w0.crypto_view() is Some,
                                );
                            }
                        }
                        return Err(err);
                    },
                    Ok(()) => {},
                }
                proof {
                    let after = V::File::fs_state(vfs);
                    state0.lemma_changes_transitive(before, after, id);
                    assert forall|i: int|
                        #![trigger merger.origins()[i]]
                        0 <= i < merger.origins().len() implies stored_bytes(
                        before,
                        merger.origins()[i],
                    ) == stored_bytes(after, merger.origins()[i]) by {
                        assert(origins[i] != id);
                    }
                    merger.lemma_rests_on_origins(&fs0, vfs);
                    SstWriter::lemma_add_in_order(w0, *writer, e);
                    writer.lemma_count(vfs);
                    assert(tail(all.subrange(emitted as int, all.len() as int)) =~= all.subrange(
                        emitted + 1,
                        all.len() as int,
                    ));
                }
                emitted = emitted + 1;
            },
        }
    }
    assert(all.subrange(0, emitted as int) =~= all);
    assert(given.0.subrange(0, emitted as int) =~= given.0);
    Ok(emitted)
}

/// Sources that are drained without a fault at their front have none.
proof fn lemma_drained(queues: Seq<(Seq<Entry>, Option<Fault>)>)
    requires
        crate::compaction::merger::fault_due(queues) is None,
        merged(runs_of(queues)).len() == 0,
    ensures
        clean(queues),
{
    let n = queues.len() as int;
    lemma_least(runs_of(queues), n);
    assert forall|i: int| 0 <= i < n implies (#[trigger] queues[i]).1 is None by {
        assert(runs_of(queues)[i] == queues[i].0);
        lemma_front_none(queues, i, n);
    }
}

proof fn lemma_front_none(queues: Seq<(Seq<Entry>, Option<Fault>)>, i: int, n: int)
    requires
        0 <= i < n <= queues.len(),
        crate::compaction::merger::front_fault(queues, n) is None,
        queues[i].0.len() == 0,
    ensures
        queues[i].1 is None,
    decreases n,
{
    if i < n - 1 {
        lemma_front_none(queues, i, n - 1);
    }
}

/// Pulling changes no fault.
proof fn lemma_clean_update(
    before: Seq<(Seq<Entry>, Option<Fault>)>,
    after: Seq<(Seq<Entry>, Option<Fault>)>,
)
    requires
        ({
            let i = crate::compaction::merger::least(runs_of(before), before.len() as int);
            0 <= i < before.len() && after == before.update(i, (tail(before[i].0), before[i].1))
        }),
    ensures
        clean(after) == clean(before),
{
    let k = crate::compaction::merger::least(runs_of(before), before.len() as int);
    if clean(after) {
        assert forall|i: int| 0 <= i < before.len() implies (#[trigger] before[i]).1 is None by {
            assert(after[i].1 is None);
        }
    }
}

/// From `before` to `after`, only the file that `path` names came or changed.
pub open spec fn touches_only(before: FsState, after: FsState, path: Seq<char>) -> bool {
    &&& after.names.remove(path) == before.names.remove(path)
    &&& forall|i: int|
        #![trigger before.files.dom().contains(i)]
        before.files.dom().contains(i) && (before.names.dom().contains(path) ==> i
            != before.names[path]) ==> after.files.dom().contains(i) && after.files[i]
            == before.files[i]
}

/// From `before` to `after`, the file `id` under `path` came or changed, and
/// that is all.
pub open spec fn wrote_file(before: FsState, after: FsState, path: Seq<char>, id: int) -> bool {
    &&& after.names == before.names.insert(path, id)
    &&& after.files == before.files.insert(id, after.files[id])
    &&& before.names.dom().contains(path) ==> before.names[path] == id
    &&& !before.names.dom().contains(path) ==> !before.files.dom().contains(id)
}

/// The files but the one that `path` names, if it names one.
pub open spec fn files_but(state: FsState, path: Seq<char>) -> Map<int, Seq<u8>> {
    if state.names.dom().contains(path) {
        state.files.remove(state.names[path])
    } else {
        state.files
    }
}

/// `path` names nothing, or an empty file.
pub open spec fn vacant(state: FsState, path: Seq<char>) -> bool {
    state.names.dom().contains(path) ==> state.content(path).len() == 0
}

/// From `before` to `after`, opening `path` for writing gave file `id`.
pub open spec fn opened(before: FsState, after: FsState, path: Seq<char>, id: int) -> bool {
    if before.names.dom().contains(path) {
        after == before && id == before.names[path] && before.files.dom().contains(id)
    } else {
        &&& !before.files.dom().contains(id)
        &&& after.names == before.names.insert(path, id)
        &&& after.files == before.files.insert(id, Seq::empty())
    }
}

/// Opening a file and writing it touches that file alone.
pub proof fn lemma_wrote(before: FsState, mid: FsState, after: FsState, path: Seq<char>, id: int)
    requires
        opened(before, mid, path, id),
        mid.only_changes(after, id),
    ensures
        wrote_file(before, after, path, id),
        touches_only(before, after, path),
        after.content(path) == after.files[id],
        after.names.dom().contains(path),
{
    assert(after.names =~= before.names.insert(path, id));
    assert(after.files =~= before.files.insert(id, after.files[id]));
    assert(after.names.remove(path) =~= before.names.remove(path));
}

/// A writer for the output, encrypted or not.
pub(crate) fn start_writer<'a, V: Vfs>(
    vfs: &mut V,
    file: V::File,
    capacity: usize,
    config: &CompactionConfig<'a>,
) -> (r: Result<SstWriter<V::File>>)
    requires
        is_open(&file, old(vfs)),
        bytes_of(&file, old(vfs)).len() == 0,
        config.bloom.valid(),
        capacity > 0,
    ensures
        r matches Ok(w) ==> w.wf(final(vfs)) && w.entries() == Seq::<Entry>::empty() && w.handle()
            == file && w.crypto_view() == config.crypto_view() && w.algorithm() == config.checksum
            && w.in_order() && w.target() == DEFAULT_BLOCK_SIZE && filter_for(
            w.filter_view(),
            capacity,
            config.bloom,
        ),
        V::File::fs_state(old(vfs)).only_changes(V::File::fs_state(final(vfs)), file.id()),
        others_synced(V::File::fs_synced(old(vfs)), V::File::fs_synced(final(vfs)), file.id()),
        V::File::fs_reliable(old(vfs)) ==> r is Ok && V::File::fs_reliable(final(vfs)),
{
    match config.encryption {
        Some((key, id)) => SstWriter::create_encrypted(
            vfs,
            file,
            config.checksum,
            capacity,
            config.bloom,
            key,
            id,
        ),
        None => SstWriter::create_with_filter_capacity(
            vfs,
            file,
            config.checksum,
            capacity,
            config.bloom,
        ),
    }
}

/// The writer's file, opened for reading again.
pub(crate) fn reopen<'a, V: Vfs>(vfs: &V, path: &str, config: &CompactionConfig<'a>) -> (r: Result<
    SstReader<V::File>,
>)
    requires
        V::File::fs_state(vfs).names.dom().contains(path@),
        parse_table(V::File::fs_state(vfs).content(path@), config.encryption is Some) is Ok,
    ensures
        r matches Ok(rd) ==> rd.wf() && is_open(&rd.handle(), vfs) && rd.handle().id()
            == V::File::fs_state(vfs).names[path@] && rd.crypto_view() == config.crypto_view()
            && rd.table() == parse_table(
            V::File::fs_state(vfs).content(path@),
            config.encryption is Some,
        )->Ok_0,
        r matches Err(e) ==> e is Io,
        V::File::fs_reliable(vfs) ==> r is Ok,
{
    let file: V::File = match vfs.open_readonly(path) {
        Ok(f) => f,
        Err(e) => {
            return Err(e);
        },
    };
    match config.encryption {
        Some((key, id)) => SstReader::open_encrypted(vfs, file, key, id),
        None => SstReader::open(vfs, file),
    }
}

/// Merge everything into the writer and finish the table. Gives the number of
/// records.
#[verifier::rlimit(60)]
fn write_merged<'a, V: Vfs>(
    vfs: &mut V,
    merger: KWayMerge<SstStream<'a, V::File>>,
    writer: SstWriter<V::File>,
) -> (r: Result<u64>)
    requires
        merger.wf(old(vfs)),
        writer.wf(old(vfs)),
        writer.entries().len() == 0,
        writer.in_order(),
        writer.target() == DEFAULT_BLOCK_SIZE,
        writer.filter_view() is Some,
        forall|i: int|
            #![trigger merger.origins()[i]]
            0 <= i < merger.origins().len() ==> merger.origins()[i] != writer.handle().id(),
    ensures
        V::File::fs_state(old(vfs)).only_changes(
            V::File::fs_state(final(vfs)),
            writer.handle().id(),
        ),
        ({
            let queues = merger.queues(old(vfs));
            let all = merged(runs_of(queues));
            let bytes = V::File::fs_state(final(vfs)).files[writer.handle().id()];
            let encrypted = writer.crypto_view() is Some;
            &&& r matches Ok(n) ==> {
                &&& clean(queues)
                &&& n == all.len()
                &&& parse_table(bytes, encrypted) is Ok
                &&& is_open(&writer.handle(), final(vfs))
                &&& file_synced::<V::File>(final(vfs), writer.handle().id())
                &&& parse_table(bytes, encrypted)->Ok_0.header.num_entries == all.len()
                &&& parse_table(bytes, encrypted)->Ok_0.header.checksum_alg
                    == writer.algorithm().tag_of()
                &&& parse_table(bytes, encrypted)->Ok_0.filter is Some == (all.len() > 0)
                &&& parse_table(bytes, encrypted)->Ok_0.filter matches Some(f) ==> f.params
                    == writer.filter_view()->0.params && f.num_blocks
                    == writer.filter_view()->0.num_blocks
                &&& exists|blocks: Seq<Seq<Entry>>|
                    flat(blocks) == all && #[trigger] table_holds(
                        bytes,
                        writer.crypto_view(),
                        parse_table(bytes, encrypted)->Ok_0,
                        blocks,
                    ) && (sorted(all) ==> table_ok(
                        bytes,
                        writer.crypto_view(),
                        parse_table(bytes, encrypted)->Ok_0,
                        blocks,
                    ))
            }
            &&& clean(queues) && V::File::fs_reliable(old(vfs)) && weight(all) <= MAX_TABLE_WEIGHT
                && HEADER_SIZE + writer.filter_view()->0.num_blocks * BLOCK_BYTES <= u32::MAX
                ==> r is Ok
            &&& V::File::fs_reliable(old(vfs)) ==> match merge_fault(
                merged_until(queues),
                encrypted,
                writer.filter_view()->0.num_blocks as nat,
            ) {
                Some(f) => r matches Err(e) && shows(e, f),
                None => r is Ok,
            }
        }),
        V::File::fs_reliable(old(vfs)) ==> V::File::fs_reliable(final(vfs)),
{
    let mut merger = merger;
    let mut writer = writer;
    let ghost writer0 = writer;
    let ghost id = writer.handle().id();
    let ghost queues = merger.queues(vfs);
    let ghost all = merged(runs_of(queues));
    let ghost state0 = V::File::fs_state(vfs);
    let emitted: u64 = match copy_all(vfs, &mut merger, &mut writer) {
        Ok(n) => n,
        Err(e) => {
            return Err(e);
        },
    };
    let ghost state1 = V::File::fs_state(vfs);
    proof {
        lemma_merged_clean(queues);
        if weight(all) <= MAX_TABLE_WEIGHT && HEADER_SIZE
            + writer0.filter_view()->0.num_blocks * BLOCK_BYTES <= u32::MAX {
            writer.lemma_finish_accepted(vfs);
        }
        assert(writer.finish_refusal() == table_refusal(
            all,
            DEFAULT_BLOCK_SIZE as nat,
            writer0.crypto_view() is Some,
            Some(writer0.filter_view()->0.num_blocks as nat),
        ));
    }
    let ghost blocks = writer.all_blocks();
    let finished = writer.finish(vfs);
    proof {
        state0.lemma_changes_transitive(state1, V::File::fs_state(vfs), id);
    }
    match finished {
        Ok(_) => {},
        Err(e) => {
            return Err(e);
        },
    }
    proof {
        reveal(header_fits);
    }
    Ok(emitted)
}

/// Merge `inputs` (newest first) into a single SSTable at `output_path`.
/// Returns the freshly opened reader on the new file and the number of
/// records emitted.
///
/// The merge keeps every record of the inputs, those at the same `(key, seqno)`
/// in the order of the inputs. It refuses an output file that is not empty.
#[verifier::rlimit(60)]
pub fn compact_sstables<'a, V: Vfs>(
    vfs: &mut V,
    inputs: &[&'a SstReader<V::File>],
    output_path: &str,
    config: &CompactionConfig<'a>,
) -> (r: Result<CompactionOutput<V>>)
    requires
        forall|i: int|
            #![trigger inputs@[i]]
            0 <= i < inputs@.len() ==> inputs@[i].wf() && is_open(&inputs@[i].handle(), old(vfs))
                && bytes_of(&inputs@[i].handle(), old(vfs)).len() > 0,
        config.bloom.valid(),
    ensures
        ({
            let before = V::File::fs_state(old(vfs));
            let after = V::File::fs_state(final(vfs));
            let queues = input_queues(inputs@, old(vfs));
            let all = merged(runs_of(queues));
            &&& touches_only(before, after, output_path@)
            &&& !vacant(before, output_path@) ==> r is Err && after == before
            &&& r matches Ok(out) ==> {
                &&& clean(queues)
                &&& wrote_file(before, after, output_path@, out.reader.handle().id())
                &&& out.reader.wf()
                &&& is_open(&out.reader.handle(), final(vfs))
                &&& file_synced::<V::File>(final(vfs), out.reader.handle().id())
                &&& table_made_for(
                    out.reader.table(),
                    output_capacity(inputs@, config.bloom_capacity_floor) as usize,
                    config.bloom,
                    config.checksum,
                )
                &&& bytes_of(&out.reader.handle(), final(vfs)).len() > 0
                &&& out.reader.crypto_view() == config.crypto_view()
                &&& parse_table(
                    bytes_of(&out.reader.handle(), final(vfs)),
                    config.encryption is Some,
                ) == Ok::<TableView, Fault>(out.reader.table())
                &&& out.records_emitted == all.len()
                &&& out.records_emitted == total(runs_of(queues))
                &&& all.to_multiset() == flat(runs_of(queues)).to_multiset()
                &&& out.reader.queue(final(vfs)) == (all, None::<Fault>)
                &&& all_sorted(runs_of(queues)) ==> out.reader.holds_run(final(vfs), all) && sorted(
                    all,
                ) && forall|key: Seq<u8>, seqno: u64| #[trigger]
                    versions_at(all, key, seqno) == versions_at(
                        flat(runs_of(queues)),
                        key,
                        seqno,
                    )
            }
            &&& vacant(before, output_path@) && clean(queues) && V::File::fs_reliable(old(vfs))
                && weight(all) <= MAX_TABLE_WEIGHT && HEADER_SIZE + blocks_for(
                output_capacity(inputs@, config.bloom_capacity_floor) as usize,
                config.bloom.bits_per_key,
            ) * BLOCK_BYTES <= u32::MAX ==> r is Ok
            &&& V::File::fs_reliable(old(vfs)) ==> match compaction_fault(
                inputs@,
                old(vfs),
                output_path@,
                config.encryption is Some,
                config.bloom_capacity_floor,
                config.bloom.bits_per_key,
            ) {
                Some(f) => r matches Err(e) && shows(e, f),
                None => r is Ok,
            }
        }),
        V::File::fs_reliable(old(vfs)) ==> V::File::fs_reliable(final(vfs)),
{
    let ghost before = V::File::fs_state(vfs);
    let ghost queues = input_queues(inputs@, vfs);
    let ghost fs0 = *vfs;
    let streams: Vec<SstStream<'a, V::File>> = match open_streams(inputs) {
        Ok(v) => v,
        Err(e) => {
            proof {
                let i = lemma_first_index_fault(inputs@);
                assert(queues[i] == inputs@[i].queue(&fs0));
                assert(queues[i].1 is Some);
            }
            return Err(e);
        },
    };
    let estimate: usize = estimate_total_entries(inputs);
    let capacity: usize = if config.bloom_capacity_floor > estimate {
        config.bloom_capacity_floor
    } else {
        estimate
    };
    let file: V::File = match vfs.open_writable(output_path) {
        Ok(f) => f,
        Err(e) => {
            return Err(e);
        },
    };
    let ghost id = file.id();
    let ghost state1 = V::File::fs_state(vfs);
    proof {
        assert(state1 =~= state1.with_bytes(id, state1.files[id]));
        lemma_wrote(before, state1, state1, output_path@, id);
    }
    let size: u64 = match file.size(vfs) {
        Ok(n) => n,
        Err(e) => {
            return Err(e);
        },
    };
    if size != 0 {
        return Err(Error::io(IoErrorKind::Other, "compaction output file is not empty"));
    }
    let started = start_writer(vfs, file, capacity, config);
    proof {
        lemma_wrote(before, state1, V::File::fs_state(vfs), output_path@, id);
    }
    let writer = match started {
        Ok(w) => w,
        Err(e) => {
            return Err(e);
        },
    };
    let ghost state2 = V::File::fs_state(vfs);
    let merger = KWayMerge::new(streams);
    proof {
        lemma_merger_ready::<V>(inputs@, streams@, merger, &fs0, vfs, id, queues);
    }
    let ghost all = merged(runs_of(queues));
    let written = write_merged(vfs, merger, writer);
    proof {
        state1.lemma_changes_transitive(state2, V::File::fs_state(vfs), id);
        lemma_wrote(before, state1, V::File::fs_state(vfs), output_path@, id);
    }
    let emitted: u64 = match written {
        Ok(n) => n,
        Err(e) => {
            return Err(e);
        },
    };
    let reader: SstReader<V::File> = match reopen(vfs, output_path, config) {
        Ok(rd) => rd,
        Err(e) => {
            return Err(e);
        },
    };
    proof {
        lemma_table_len(bytes_of(&reader.handle(), vfs), config.encryption is Some);
        law_merge_len(runs_of(queues));
        law_merge_keeps_entries(runs_of(queues));
        let bytes = bytes_of(&reader.handle(), vfs);
        let blocks = choose|blocks: Seq<Seq<Entry>>|
            flat(blocks) == all && #[trigger] table_holds(
                bytes,
                config.crypto_view(),
                reader.table(),
                blocks,
            ) && (sorted(all) ==> table_ok(bytes, config.crypto_view(), reader.table(), blocks));
        reader.lemma_queue_of_blocks(vfs, blocks);
        if all_sorted(runs_of(queues)) {
            law_merge_is_sorted(runs_of(queues));
            assert forall|key: Seq<u8>, seqno: u64| #[trigger]
                versions_at(all, key, seqno) == versions_at(flat(runs_of(queues)), key, seqno) by {
                law_merge_is_stable(runs_of(queues), key, seqno);
            }
            assert(table_ok(
                bytes_of(&reader.handle(), vfs),
                reader.crypto_view(),
                reader.table(),
                blocks,
            ));
        }
    }
    Ok(CompactionOutput { reader, records_emitted: emitted })
}

/// The merger over the streams of the inputs reads what the inputs hold, also
/// after the output file came.
proof fn lemma_merger_ready<'a, V: Vfs>(
    inputs: Seq<&'a SstReader<V::File>>,
    streams: Seq<SstStream<'a, V::File>>,
    merger: KWayMerge<SstStream<'a, V::File>>,
    fs0: &V,
    fs: &V,
    id: int,
    queues: Seq<(Seq<Entry>, Option<Fault>)>,
)
    requires
        streams.len() == inputs.len(),
        forall|i: int|
            #![trigger streams[i]]
            0 <= i < streams.len() ==> streams[i].source() == *inputs[i] && (forall|f: &V|
                #[trigger] streams[i].rest(f) == inputs[i].queue(f)),
        forall|i: int|
            #![trigger inputs[i]]
            0 <= i < inputs.len() ==> is_open(&inputs[i].handle(), fs0) && bytes_of(
                &inputs[i].handle(),
                fs0,
            ).len() > 0,
        ({
            let before = V::File::fs_state(fs0);
            let after = V::File::fs_state(fs);
            &&& before.files.dom().contains(id) ==> before.files[id].len() == 0
            &&& after.files == before.files.insert(id, after.files[id])
        }),
        forall|f: &V|
            (forall|i: int|
                0 <= i < streams.len() ==> (#[trigger] streams[i]).ready(f)) ==> #[trigger] merger.wf(
                f,
            ),
        forall|f: &V|
            #[trigger] merger.queues(f) == streams.map_values(
                |s: SstStream<'a, V::File>| RecordStream::rest(&s, f),
            ),
        merger.origins() == streams.map_values(
            |s: SstStream<'a, V::File>| RecordStream::origin(&s),
        ),
        queues == input_queues(inputs, fs0),
    ensures
        merger.wf(fs),
        merger.queues(fs) == queues,
        forall|i: int|
            #![trigger merger.origins()[i]]
            0 <= i < merger.origins().len() ==> merger.origins()[i] != id,
{
    assert forall|i: int| #![trigger streams[i]] 0 <= i < streams.len() implies {
        &&& inputs[i].handle().id() != id
        &&& is_open(&inputs[i].handle(), fs)
        &&& inputs[i].queue(fs) == inputs[i].queue(fs0)
        &&& RecordStream::ready(&streams[i], fs)
    } by {
        assert(is_open(&inputs[i].handle(), fs0));
        assert(bytes_of(&inputs[i].handle(), fs) == bytes_of(&inputs[i].handle(), fs0));
    }
    assert(merger.queues(fs) =~= queues) by {
        assert forall|i: int| 0 <= i < queues.len() implies #[trigger] merger.queues(fs)[i]
            == queues[i] by {
            assert(streams[i].rest(fs) == inputs[i].queue(fs));
        }
    }
    assert forall|i: int|
        #![trigger merger.origins()[i]]
        0 <= i < merger.origins().len() implies merger.origins()[i] != id by {
        assert(streams[i].source() == *inputs[i]);
    }
}

} // verus!
