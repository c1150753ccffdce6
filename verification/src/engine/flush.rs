//! Writing a memtable out as a table.
use vstd::prelude::*;

use crate::checksum::Algorithm;
use crate::compaction::compact::{
    files_but, lemma_wrote, opened, reopen, start_writer, touches_only, vacant, wrote_file,
    CompactionConfig,
};
use crate::crypto::aead::AeadKey;
use crate::crypto::kdf::{derive_sstable_key, MasterKey};
use crate::engine::disk::table_crypto;
use crate::error::{Error, ErrorView, IoErrorKind, Result};
use crate::filter::blocked_bloom::{
    blocks_for, law_blocks_make_up_the_budget, BloomParams, BLOCK_BYTES, HEADER_SIZE,
};
use crate::io::vfs::{
    bytes_of, file_synced, is_open, others_synced, synced_kept, FsState, Vfs, VfsFile,
};
use crate::memtable::skiplist::{Iter, SkipList};
use crate::model::{lemma_weight_part, payload, weight, Entry};
use crate::sstable::format::DEFAULT_BLOCK_SIZE;
use crate::sstable::reader::SstReader;
use crate::sstable::table::{
    header_fits, is_table, lemma_table_len, parse_table, table_ok, Fault, TableView,
};
use crate::sstable::writer::{
    adding_refusal, law_light_table_is_accepted, lemma_refusal_stays, table_made_for, table_refusal, SstWriter,
    MAX_TABLE_WEIGHT,
};

verus! {

/// The raw bytes of an optional master key.
pub open spec fn master_view(key: &Option<MasterKey>) -> Option<Seq<u8>> {
    match key {
        Some(k) => Some(k@),
        None => None,
    }
}

/// A run that is light enough to be written out, with a filter that its
/// handle can say.
pub open spec fn flushable(run: Seq<Entry>, bits_per_key: u8) -> bool {
    &&& weight(run) <= MAX_TABLE_WEIGHT
    &&& HEADER_SIZE + blocks_for(
        if run.len() == 0 {
            1
        } else {
            run.len() as usize
        },
        bits_per_key,
    ) * BLOCK_BYTES <= u32::MAX
}

/// Why a run cannot be written out as a table, if so.
pub open spec fn flush_refusal(run: Seq<Entry>, bits_per_key: u8, encrypted: bool) -> Option<
    Seq<char>,
> {
    table_refusal(
        run,
        DEFAULT_BLOCK_SIZE as nat,
        encrypted,
        Some(
            blocks_for(
                if run.len() == 0 {
                    1
                } else {
                    run.len() as usize
                },
                bits_per_key,
            ),
        ),
    )
}

/// Why runs cannot be written out as tables one after the other, from the last
/// to the first, if so. Each takes a file number, from `next` on.
pub open spec fn drain_refusal(
    runs: Seq<Seq<Entry>>,
    next: int,
    bits_per_key: u8,
    encrypted: bool,
) -> Option<Seq<char>>
    decreases runs.len(),
{
    if runs.len() == 0 {
        None
    } else if next >= u64::MAX {
        Some("file numbers exhausted"@)
    } else {
        match flush_refusal(runs.last(), bits_per_key, encrypted) {
            Some(why) => Some(why),
            None => drain_refusal(runs.drop_last(), next + 1, bits_per_key, encrypted),
        }
    }
}

/// Law: memtables are refused only for their weight, and for want of numbers.
/// Where the keys and values of each, with 64 bytes for each entry, make up no
/// more than 2147418112 bytes, all of them can be written out, whatever the bit
/// budget of the filters.
pub proof fn law_light_memtables_are_written(
    runs: Seq<Seq<Entry>>,
    next: int,
    bits_per_key: u8,
    encrypted: bool,
)
    requires
        forall|i: int|
            0 <= i < runs.len() ==> payload(#[trigger] runs[i]) + 64 * runs[i].len()
                <= 2_147_418_112,
        next + runs.len() <= u64::MAX,
    ensures
        drain_refusal(runs, next, bits_per_key, encrypted) is None,
    decreases runs.len(),
{
    if runs.len() > 0 {
        let run = runs.last();
        let less = runs.drop_last();
        assert(payload(runs[runs.len() - 1]) + 64 * run.len() <= 2_147_418_112);
        let keys: usize = if run.len() == 0 {
            1
        } else {
            run.len() as usize
        };
        let bits = bits_per_key as int;
        assert(keys * bits <= 33_553_408 * 255) by (nonlinear_arith)
            requires
                0 <= keys <= 33_553_408,
                0 <= bits <= 255,
        ;
        law_blocks_make_up_the_budget(keys, keys, bits_per_key);
        law_light_table_is_accepted(
            run,
            DEFAULT_BLOCK_SIZE as nat,
            encrypted,
            Some(blocks_for(keys, bits_per_key)),
        );
        assert forall|i: int| 0 <= i < less.len() implies payload(#[trigger] less[i]) + 64
            * less[i].len() <= 2_147_418_112 by {
            assert(less[i] == runs[i]);
        }
        law_light_memtables_are_written(less, next + 1, bits_per_key, encrypted);
    }
}

/// Copy every entry of the memtable to the table.
fn copy_memtable<V: Vfs>(vfs: &mut V, mem: &SkipList, writer: &mut SstWriter<V::File>) -> (r: Result<
    (),
>)
    requires
        mem.wf(),
        old(writer).wf(old(vfs)),
        old(writer).entries() == Seq::<Entry>::empty(),
        old(writer).in_order(),
    ensures
        final(writer).same_settings(*old(writer)),
        V::File::fs_state(old(vfs)).only_changes(
            V::File::fs_state(final(vfs)),
            old(writer).handle().id(),
        ),
        r is Ok ==> final(writer).wf(final(vfs)) && final(writer).entries() == mem@
            && final(writer).in_order(),
        V::File::fs_reliable(old(vfs)) && weight(mem@) <= MAX_TABLE_WEIGHT ==> r is Ok,
        V::File::fs_reliable(old(vfs)) ==> match adding_refusal(
            mem@,
            old(writer).target(),
            old(writer).crypto_view() is Some,
        ) {
            Some(why) => r matches Err(e) && e@ == ErrorView::InvalidArgument(why),
            None => r is Ok,
        },
        others_synced(
            V::File::fs_synced(old(vfs)),
            V::File::fs_synced(final(vfs)),
            old(writer).handle().id(),
        ),
        V::File::fs_reliable(old(vfs)) ==> V::File::fs_reliable(final(vfs)),
{
    let ghost state0 = V::File::fs_state(vfs);
    let ghost id = writer.handle().id();
    let mut it: Iter<'_> = mem.iter();
    let mut done: bool = false;
    let ghost mut n: int = 0;
    proof {
        writer.lemma_count(vfs);
        assert(state0 =~= state0.with_bytes(id, state0.files[id]));
        assert(mem@.subrange(0, mem@.len() as int) =~= mem@);
        assert(mem@.subrange(0, 0) =~= Seq::<Entry>::empty());
    }
    while !done
        invariant
            it.wf(),
            0 <= n <= mem@.len(),
            it.remaining() == mem@.subrange(n, mem@.len() as int),
            writer.wf(vfs),
            writer.same_settings(*old(writer)),
            id == old(writer).handle().id(),
            writer.entries() == mem@.subrange(0, n),
            writer.in_order(),
            state0 == V::File::fs_state(old(vfs)),
            state0.only_changes(V::File::fs_state(vfs), id),
            others_synced(V::File::fs_synced(old(vfs)), V::File::fs_synced(vfs), id),
            V::File::fs_reliable(old(vfs)) ==> V::File::fs_reliable(vfs),
            done ==> n == mem@.len(),
        decreases mem@.len() - n + (if done { 0int } else { 1int }),
    {
        let ghost left = it.remaining();
        match it.next() {
            None => {
                done = true;
            },
            Some(node) => {
                let ghost e = node@;
                let ghost before = V::File::fs_state(vfs);
                let ghost w0 = *writer;
                proof {
                    assert(left[0] == mem@[n]);
                    assert(e == mem@[n]);
                    assert(mem@.subrange(0, n + 1) =~= mem@.subrange(0, n).push(e));
                    assert(left.subrange(1, left.len() as int) =~= mem@.subrange(
                        n + 1,
                        mem@.len() as int,
                    ));
                    if weight(mem@) <= MAX_TABLE_WEIGHT {
                        lemma_weight_part(mem@, 0, n + 1);
                        writer.lemma_add_accepted(e);
                    }
                }
                let added = writer.add(
                    vfs,
                    node.key(),
                    node.value(),
                    node.seqno(),
                    node.op_type().to_record_op(),
                );
                proof {
                    state0.lemma_changes_transitive(before, V::File::fs_state(vfs), id);
                    assert(e == (Entry { key: e.key, seqno: e.seqno, op: e.op, value: e.value }));
                    SstWriter::lemma_add_in_order(w0, *writer, e);
                    if w0.refusal(e) is Some {
                        lemma_refusal_stays(
                            mem@,
                            n + 1,
                            w0.target(),
                            w0.crypto_view() is Some,
                        );
                    }
                }
                match added {
                    Err(e) => {
                        return Err(e);
                    },
                    Ok(()) => {},
                }
                proof {
                    n = n + 1;
                }
            },
        }
    }
    assert(mem@.subrange(0, n) =~= mem@);
    Ok(())
}

/// Opening a file and writing it leaves what is durable of the others.
proof fn lemma_synced_but(
    before: FsState,
    mid: FsState,
    path: Seq<char>,
    id: int,
    a: Map<int, Seq<u8>>,
    b: Map<int, Seq<u8>>,
    c: Map<int, Seq<u8>>,
)
    requires
        opened(before, mid, path, id),
        synced_kept(a, b, before.files),
        others_synced(b, c, id),
    ensures
        synced_kept(a, c, files_but(before, path)),
{
    let rest = files_but(before, path);
    assert forall|i: int| #[trigger] rest.dom().contains(i) && a.dom().contains(i) implies c.dom().contains(i)
        && c[i] == a[i] by {
        assert(before.files.dom().contains(i));
        assert(b.remove(id).dom().contains(i));
        assert(c.remove(id)[i] == b.remove(id)[i]);
    }
}

/// Write the memtable to a new table at `path`, under the number `id`, and
/// open the table for reading. A file that is not empty is refused.
pub fn write_table<V: Vfs>(
    vfs: &mut V,
    mem: &SkipList,
    path: &str,
    id: u64,
    bloom: BloomParams,
    master_key: &Option<MasterKey>,
) -> (r: Result<SstReader<V::File>>)
    requires
        mem.wf(),
        bloom.valid(),
    ensures
        ({
            let before = V::File::fs_state(old(vfs));
            let after = V::File::fs_state(final(vfs));
            &&& touches_only(before, after, path@)
            &&& synced_kept(
                V::File::fs_synced(old(vfs)),
                V::File::fs_synced(final(vfs)),
                files_but(before, path@),
            )
            &&& !vacant(before, path@) ==> r is Err && after == before
            &&& r matches Ok(reader) ==> {
                &&& wrote_file(before, after, path@, reader.handle().id())
                &&& reader.wf()
                &&& is_open(&reader.handle(), final(vfs))
                &&& file_synced::<V::File>(final(vfs), reader.handle().id())
                &&& table_made_for(
                    reader.table(),
                    if mem@.len() == 0 {
                        1
                    } else {
                        mem@.len() as usize
                    },
                    bloom,
                    Algorithm::Crc32c,
                )
                &&& bytes_of(&reader.handle(), final(vfs)).len() > 0
                &&& reader.crypto_view() == table_crypto(master_view(master_key), id)
                &&& parse_table(
                    bytes_of(&reader.handle(), final(vfs)),
                    master_key is Some,
                ) == Ok::<TableView, Fault>(reader.table())
                &&& reader.holds_run(final(vfs), mem@)
                &&& is_table(
                    bytes_of(&reader.handle(), final(vfs)),
                    table_crypto(master_view(master_key), id),
                    mem@,
                )
            }
            &&& vacant(before, path@) && V::File::fs_reliable(old(vfs)) && flushable(
                mem@,
                bloom.bits_per_key,
            ) ==> r is Ok
            &&& V::File::fs_reliable(old(vfs)) ==> (if vacant(before, path@) {
                match flush_refusal(mem@, bloom.bits_per_key, master_key is Some) {
                    Some(why) => r matches Err(e) && e@ == ErrorView::InvalidArgument(why),
                    None => r is Ok,
                }
            } else {
                r matches Err(e) && e@ == (ErrorView::Io {
                    kind: IoErrorKind::Other,
                    message: "table file is not empty"@,
                })
            })
        }),
        V::File::fs_reliable(old(vfs)) ==> V::File::fs_reliable(final(vfs)),
{
    let ghost before = V::File::fs_state(vfs);
    let key: Option<AeadKey> = match master_key {
        Some(m) => Some(derive_sstable_key(m, id)),
        None => None,
    };
    let encryption: Option<(&AeadKey, u64)> = match &key {
        Some(k) => Some((k, id)),
        None => None,
    };
    let capacity: usize = if mem.len() == 0 {
        1
    } else {
        mem.len()
    };
    let config = CompactionConfig {
        bloom,
        bloom_capacity_floor: capacity,
        checksum: Algorithm::Crc32c,
        encryption,
    };
    assert(config.crypto_view() == table_crypto(master_view(master_key), id));
    proof {
        mem.lemma_sorted();
    }
    let file: V::File = match vfs.open_writable(path) {
        Ok(f) => f,
        Err(e) => {
            return Err(e);
        },
    };
    let ghost fid = file.id();
    let ghost state1 = V::File::fs_state(vfs);
    let ghost synced0 = V::File::fs_synced(old(vfs));
    let ghost synced1 = V::File::fs_synced(vfs);
    proof {
        assert(state1 =~= state1.with_bytes(fid, state1.files[fid]));
        lemma_wrote(before, state1, state1, path@, fid);
    }
    let size: u64 = match file.size(vfs) {
        Ok(n) => n,
        Err(e) => {
            return Err(e);
        },
    };
    if size != 0 {
        return Err(Error::io(IoErrorKind::Other, "table file is not empty"));
    }
    let started = start_writer(vfs, file, capacity, &config);
    proof {
        lemma_wrote(before, state1, V::File::fs_state(vfs), path@, fid);
        lemma_synced_but(before, state1, path@, fid, synced0, synced1, V::File::fs_synced(vfs));
    }
    let mut writer = match started {
        Ok(w) => w,
        Err(e) => {
            return Err(e);
        },
    };
    let ghost state2 = V::File::fs_state(vfs);
    let copied = copy_memtable(vfs, mem, &mut writer);
    let ghost state3 = V::File::fs_state(vfs);
    proof {
        state1.lemma_changes_transitive(state2, state3, fid);
        lemma_wrote(before, state1, state3, path@, fid);
        lemma_synced_but(before, state1, path@, fid, synced0, synced1, V::File::fs_synced(vfs));
    }
    match copied {
        Ok(()) => {},
        Err(e) => {
            return Err(e);
        },
    }
    proof {
        if flushable(mem@, bloom.bits_per_key) {
            writer.lemma_finish_accepted(vfs);
        }
    }
    let ghost blocks = writer.all_blocks();
    let finished = writer.finish(vfs);
    proof {
        state1.lemma_changes_transitive(state3, V::File::fs_state(vfs), fid);
        lemma_wrote(before, state1, V::File::fs_state(vfs), path@, fid);
        lemma_synced_but(before, state1, path@, fid, synced0, synced1, V::File::fs_synced(vfs));
    }
    match finished {
        Ok(_) => {},
        Err(e) => {
            return Err(e);
        },
    }
    let reader: SstReader<V::File> = match reopen(vfs, path, &config) {
        Ok(rd) => rd,
        Err(e) => {
            return Err(e);
        },
    };
    proof {
        reveal(header_fits);
        lemma_table_len(bytes_of(&reader.handle(), vfs), config.encryption is Some);
        assert(table_ok(
            bytes_of(&reader.handle(), vfs),
            reader.crypto_view(),
            reader.table(),
            blocks,
        ));
    }
    Ok(reader)
}

} // verus!
