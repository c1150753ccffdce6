//! SSTable writer.
//!
//! Drives a sorted stream of `(key, value, seqno, op)` records into a
//! complete SSTable file. Records are routed into block builders; when a block
//! fills, its bytes are written and padded out to the next
//! [`BLOCK_ALIGNMENT`] boundary, so that the next block starts page-aligned.
//!
//! ## Output structure
//!
//! 1. Reserved file-header region: [`FILE_HEADER_REGION_SIZE`] bytes. The
//!    [`FileHeader`] is written here last, when the totals are known.
//! 2. Data blocks, padded to [`BLOCK_ALIGNMENT`], encrypted where asked for.
//! 3. Filter block, where the table has a filter and at least one record.
//! 4. Index block: the last key of every data block and the block's handle.
//! 5. Footer ([`FOOTER_SIZE`] bytes).
use vstd::prelude::*;
use vstd::slice::slice_to_vec;

use crate::checksum::{crc32c, Algorithm};
use crate::crypto::aead::{Aead, AeadKey, TAG_LEN};
use crate::crypto::envelope::{block_aad, derive_block_nonce};
use crate::encoding::fixed::{read_u32, zeros};
use crate::error::{Error, ErrorView, Result};
use crate::filter::blocked_bloom::{
    blocks_for, law_blocks_make_up_the_budget, law_filter_round_trip, parse_filter, BlockedBloom,
    BloomParams, FilterView, BLOCK_BYTES, HEADER_SIZE,
};
use crate::io::vfs::{bytes_of, file_synced, is_open, others_synced, overwrite, VfsFile};
use crate::model::{
    entry_le, lemma_payload_bounds, lemma_payload_concat, payload, sorted, weight, Entry,
};
use crate::sstable::block::{
    block_bytes, block_entries, block_fits, block_size, encoded_entries, law_block_round_trip,
    law_restarts_fit, lemma_same_size, lemma_size_bound, parse_block, restart_starts, restarts_fit, BlockBuilder,
};
use crate::sstable::flag;
use crate::sstable::format::{
    BlockHandle, CompressionAlg, FileHeader, Footer, RecordOp, BLOCK_ALIGNMENT, BLOCK_HANDLE_SIZE,
    DEFAULT_BLOCK_SIZE, FILE_HEADER_REGION_SIZE, FILE_HEADER_SIZE, FOOTER_SIZE,
};
use crate::sstable::table::{
    block_ok, block_plain, bytes_at, filter_fits, flat, header_fits, index_entries, index_entry_ok,
    keys_of, layout_fits, lemma_flat_part, lemma_flat_push, parse_handle, parse_table,
    says_encrypted, table_holds, table_ok, trailer, CryptoView, Fault, TableView,
};

verus! {

/// Filter capacity of a table whose number of records is not known ahead.
pub const DEFAULT_FILTER_CAPACITY: usize = 10000;

/// A block of `size` bytes can be written: its length, with the tag where it
/// is encrypted, fits the handle and the cipher's buffer.
pub open spec fn sealable(size: nat, encrypted: bool) -> bool {
    if encrypted {
        size + TAG_LEN <= u32::MAX && size + TAG_LEN <= isize::MAX
    } else {
        size <= u32::MAX
    }
}

/// The filter that a table of `expected_keys` keys gets, before any key is in
/// it. No keys, no filter.
pub open spec fn filter_for(
    filter: Option<FilterView>,
    expected_keys: usize,
    params: BloomParams,
) -> bool {
    if expected_keys == 0 {
        filter is None
    } else {
        filter matches Some(f) && f.built_from(Seq::empty()) && f.params == params && f.num_blocks
            == blocks_for(expected_keys, params.bits_per_key)
    }
}

/// The table was written for `expected_keys` keys, with these parameters and
/// checksums: its filter, which a table without records lacks, has that size.
pub open spec fn table_made_for(
    t: TableView,
    expected_keys: usize,
    params: BloomParams,
    checksum: Algorithm,
) -> bool {
    &&& t.header.checksum_alg == checksum.tag_of()
    &&& if t.header.num_entries == 0 {
        t.filter is None
    } else {
        t.filter matches Some(f) && f.params == params && f.num_blocks == blocks_for(
            expected_keys,
            params.bits_per_key,
        )
    }
}

/// How records fall into blocks: those that are full, and the records of the
/// block being built. A block is full once its size reaches the target.
pub open spec fn split_blocks(entries: Seq<Entry>, target: nat) -> (Seq<Seq<Entry>>, Seq<Entry>)
    decreases entries.len(),
{
    if entries.len() == 0 {
        (Seq::empty(), Seq::empty())
    } else {
        let (full, open) = split_blocks(entries.drop_last(), target);
        let block = open.push(entries.last());
        if block_size(block) >= target {
            (full.push(block), Seq::empty())
        } else {
            (full, block)
        }
    }
}

/// The blocks of a table whose last block is `open`, unless that is empty.
pub open spec fn closed_blocks(full: Seq<Seq<Entry>>, open: Seq<Entry>) -> Seq<Seq<Entry>> {
    if open.len() == 0 {
        full
    } else {
        full.push(open)
    }
}

/// Why the record `e` cannot follow `count` others, of which those in `open`
/// stand in the block being built, if so.
pub open spec fn record_refusal(
    open: Seq<Entry>,
    count: nat,
    e: Entry,
    target: nat,
    encrypted: bool,
) -> Option<Seq<char>> {
    let block = open.push(e);
    if e.key.len() > u32::MAX || e.value.len() > u32::MAX {
        Some("sstable key or value too long"@)
    } else if count == u64::MAX {
        Some("too many records in one sstable"@)
    } else if block_size(block) >= target && !sealable(block_size(block), encrypted) {
        Some("sstable block too large"@)
    } else {
        None
    }
}

/// Why one of the records cannot be added, if so: the first that is refused
/// decides.
pub open spec fn adding_refusal(entries: Seq<Entry>, target: nat, encrypted: bool) -> Option<
    Seq<char>,
>
    decreases entries.len(),
{
    if entries.len() == 0 {
        None
    } else {
        let front = entries.drop_last();
        match adding_refusal(front, target, encrypted) {
            Some(why) => Some(why),
            None => record_refusal(
                split_blocks(front, target).1,
                front.len(),
                entries.last(),
                target,
                encrypted,
            ),
        }
    }
}

/// Why a table of full blocks and a last block cannot be finished, if so.
pub open spec fn closing_refusal(
    full: Seq<Seq<Entry>>,
    open: Seq<Entry>,
    filter_blocks: Option<nat>,
    encrypted: bool,
) -> Option<Seq<char>> {
    if open.len() > 0 && !sealable(block_size(open), encrypted) {
        Some("sstable block too large"@)
    } else if (flat(full) + open).len() > 0 && (filter_blocks matches Some(n) && HEADER_SIZE + n
        * BLOCK_BYTES > u32::MAX) {
        Some("sstable filter too large"@)
    } else if block_size(index_shape(closed_blocks(full, open))) > u32::MAX {
        Some("sstable index too large"@)
    } else {
        None
    }
}

/// Why no table can be written of the records, if so.
pub open spec fn table_refusal(
    entries: Seq<Entry>,
    target: nat,
    encrypted: bool,
    filter_blocks: Option<nat>,
) -> Option<Seq<char>> {
    match adding_refusal(entries, target, encrypted) {
        Some(why) => Some(why),
        None => {
            let (full, open) = split_blocks(entries, target);
            closing_refusal(full, open, filter_blocks, encrypted)
        },
    }
}

/// A refusal stays however many records follow.
pub proof fn lemma_refusal_stays(entries: Seq<Entry>, n: int, target: nat, encrypted: bool)
    requires
        0 <= n <= entries.len(),
        adding_refusal(entries.subrange(0, n), target, encrypted) is Some,
    ensures
        adding_refusal(entries, target, encrypted) == adding_refusal(
            entries.subrange(0, n),
            target,
            encrypted,
        ),
    decreases entries.len(),
{
    if n == entries.len() {
        assert(entries.subrange(0, n) =~= entries);
    } else {
        let front = entries.drop_last();
        assert(front.subrange(0, n) =~= entries.subrange(0, n));
        lemma_refusal_stays(front, n, target, encrypted);
    }
}

/// Law: no table is refused that is light enough. Its keys and values, with 64
/// bytes for each record, make up no more than 2147418112 bytes, and its filter no
/// more than four gigabytes; whatever the records are, however they fall into
/// blocks, encrypted or not.
pub proof fn law_light_table_is_accepted(
    entries: Seq<Entry>,
    target: nat,
    encrypted: bool,
    filter_blocks: Option<nat>,
)
    requires
        payload(entries) + 64 * entries.len() <= 2_147_418_112,
        filter_blocks matches Some(n) ==> 16 + n * 64 <= 0xFFFF_FFFF,
    ensures
        table_refusal(entries, target, encrypted, filter_blocks) is None,
{
    lemma_light_records(entries, target, encrypted);
    let (full, open) = split_blocks(entries, target);
    lemma_split_parts(entries, target);
    lemma_payload_concat(flat(full), open);
    lemma_size_bound(open);
    let blocks = closed_blocks(full, open);
    assert(flat(blocks) =~= entries) by {
        if open.len() > 0 {
            lemma_flat_push(full, open);
        }
    }
    assert forall|i: int| 0 <= i < blocks.len() implies (#[trigger] blocks[i]).len() > 0 by {
        if i < full.len() {
            assert(full[i].len() > 0);
        }
    }
    lemma_index_weight(blocks);
    lemma_size_bound(index_shape(blocks));
}

/// Every record of a light table is accepted.
proof fn lemma_light_records(entries: Seq<Entry>, target: nat, encrypted: bool)
    requires
        payload(entries) + 64 * entries.len() <= 2_147_418_112,
    ensures
        adding_refusal(entries, target, encrypted) is None,
    decreases entries.len(),
{
    if entries.len() > 0 {
        let front = entries.drop_last();
        let e = entries.last();
        lemma_light_records(front, target, encrypted);
        lemma_split_parts(front, target);
        let (full, open) = split_blocks(front, target);
        let block = open.push(e);
        lemma_payload_bounds(entries, entries.len() - 1);
        assert(front.push(e) =~= entries);
        assert(flat(full) + block =~= (flat(full) + open).push(e));
        lemma_payload_concat(flat(full), block);
        lemma_size_bound(block);
    }
}

/// The blocks hold the records in order, and none is empty.
proof fn lemma_split_parts(entries: Seq<Entry>, target: nat)
    ensures
        flat(split_blocks(entries, target).0) + split_blocks(entries, target).1 == entries,
        forall|i: int|
            0 <= i < split_blocks(entries, target).0.len() ==> (#[trigger] split_blocks(
                entries,
                target,
            ).0[i]).len() > 0,
    decreases entries.len(),
{
    if entries.len() == 0 {
        assert(flat(Seq::<Seq<Entry>>::empty()) + Seq::<Entry>::empty() =~= entries);
    } else {
        let front = entries.drop_last();
        lemma_split_parts(front, target);
        let (full, open) = split_blocks(front, target);
        let block = open.push(entries.last());
        lemma_flat_push(full, block);
        assert(front.push(entries.last()) =~= entries);
        assert(flat(full) + block =~= (flat(full) + open).push(entries.last()));
        if block_size(block) >= target {
            assert(flat(full.push(block)) + Seq::<Entry>::empty() =~= entries);
            assert forall|i: int| 0 <= i < full.push(block).len() implies (
            #[trigger] full.push(block)[i]).len() > 0 by {
                if i < full.len() {
                    assert(full.push(block)[i] == full[i]);
                }
            }
        }
    }
}

/// Law: a block is written as soon as it is large enough, and not before. All
/// records are in blocks, in order. Every block but the last reaches the target
/// size, and would not without its last record; the last one does not.
pub proof fn law_blocks_reach_the_target(entries: Seq<Entry>, target: nat, i: int)
    requires
        target > 8,
    ensures
        ({
            let (full, open) = split_blocks(entries, target);
            &&& flat(full) + open == entries
            &&& open.len() > 0 ==> block_size(open) < target
            &&& 0 <= i < full.len() ==> full[i].len() > 0 && block_size(full[i]) >= target && (
            full[i].len() > 1 ==> block_size(full[i].drop_last()) < target)
        }),
    decreases entries.len(),
{
    lemma_split_parts(entries, target);
    if entries.len() > 0 {
        let front = entries.drop_last();
        law_blocks_reach_the_target(front, target, i);
        let (full, open) = split_blocks(front, target);
        let block = open.push(entries.last());
        if block_size(block) >= target && i == full.len() {
            assert(full.push(block)[i] == block);
            assert(block.drop_last() =~= open);
        } else if block_size(block) >= target && 0 <= i < full.len() {
            assert(full.push(block)[i] == full[i]);
        }
    }
}

/// Law: a table's filter makes up the bit budget of all its records, where it was
/// made for as many; and no more than that of the number it was made for.
pub proof fn law_filter_has_the_budget(
    t: TableView,
    expected_keys: usize,
    params: BloomParams,
    checksum: Algorithm,
)
    requires
        table_made_for(t, expected_keys, params, checksum),
        0 < t.header.num_entries <= expected_keys,
        expected_keys * params.bits_per_key <= 0xFFFF_FFFF,
    ensures
        t.filter matches Some(f) && f.params == params && f.num_blocks * 512
            >= t.header.num_entries * params.bits_per_key && (f.num_blocks > 1 ==> (f.num_blocks
            - 1) * 512 < expected_keys * params.bits_per_key),
{
    let bits = params.bits_per_key as int;
    let (n, k) = (t.header.num_entries as int, expected_keys as int);
    law_blocks_make_up_the_budget(expected_keys, expected_keys, params.bits_per_key);
    assert(n * bits <= k * bits) by (nonlinear_arith)
        requires
            n <= k,
            bits >= 0,
    ;
}

/// The index entry of the block that ends in `key` and stands at `h`.
pub open spec fn index_record(key: Seq<u8>, h: BlockHandle) -> Entry {
    Entry { key, seqno: 0, op: RecordOp::Put, value: h.bytes() }
}

/// The index entries of blocks by their last keys and handles.
pub open spec fn index_records(pending: Seq<(Vec<u8>, BlockHandle)>) -> Seq<Entry> {
    pending.map_values(|p: (Vec<u8>, BlockHandle)| index_record(p.0@, p.1))
}

/// Block `entries` stands at `h`, behind the header region.
spec fn block_placed(
    bytes: Seq<u8>,
    crypto: Option<CryptoView>,
    h: BlockHandle,
    entries: Seq<Entry>,
) -> bool {
    &&& entries.len() > 0
    &&& FILE_HEADER_REGION_SIZE <= h.offset
    &&& h.offset + h.length <= bytes.len()
    &&& block_plain(bytes, crypto, h) is Ok
    &&& block_ok(block_plain(bytes, crypto, h)->Ok_0, entries)
    &&& h.offset % BLOCK_ALIGNMENT as u64 == 0
    &&& h.checksum == trailer(block_plain(bytes, crypto, h)->Ok_0)
}

/// Every block stands where its handle says.
#[verifier::opaque]
spec fn all_placed(
    bytes: Seq<u8>,
    crypto: Option<CryptoView>,
    pending: Seq<(Vec<u8>, BlockHandle)>,
    blocks: Seq<Seq<Entry>>,
) -> bool {
    &&& pending.len() == blocks.len()
    &&& forall|i: int|
        #![trigger blocks[i]]
        0 <= i < blocks.len() ==> block_placed(bytes, crypto, pending[i].1, blocks[i])
            && pending[i].0@ == blocks[i].last().key && pending[i].0@.len() <= u32::MAX
}

/// Least and greatest sequence number of some entries.
#[verifier::opaque]
spec fn seqno_range(entries: Seq<Entry>, min: u64, max: u64) -> bool {
    &&& forall|i: int|
        #![trigger entries[i]]
        0 <= i < entries.len() ==> min <= entries[i].seqno <= max
    &&& entries.len() == 0 ==> min == u64::MAX && max == 0
    &&& entries.len() > 0 ==> (exists|i: int|
        0 <= i < entries.len() && #[trigger] entries[i].seqno == max) && (exists|i: int|
        0 <= i < entries.len() && #[trigger] entries[i].seqno == min)
}

/// The bytes behind the header region stay as they are.
spec fn keeps_blocks(before: Seq<u8>, after: Seq<u8>) -> bool {
    &&& before.len() <= after.len()
    &&& forall|k: int|
        FILE_HEADER_REGION_SIZE <= k < before.len() ==> #[trigger] after[k] == before[k]
}

proof fn lemma_block_stays(
    before: Seq<u8>,
    after: Seq<u8>,
    crypto: Option<CryptoView>,
    h: BlockHandle,
    entries: Seq<Entry>,
)
    requires
        keeps_blocks(before, after),
        block_placed(before, crypto, h, entries),
    ensures
        block_placed(after, crypto, h, entries),
        block_plain(after, crypto, h) == block_plain(before, crypto, h),
{
    reveal(block_plain);
    assert(after.subrange(h.offset as int, h.offset + h.length) =~= before.subrange(
        h.offset as int,
        h.offset + h.length,
    ));
}

proof fn lemma_all_stay(
    before: Seq<u8>,
    after: Seq<u8>,
    crypto: Option<CryptoView>,
    pending: Seq<(Vec<u8>, BlockHandle)>,
    blocks: Seq<Seq<Entry>>,
)
    requires
        keeps_blocks(before, after),
        all_placed(before, crypto, pending, blocks),
    ensures
        all_placed(after, crypto, pending, blocks),
{
    reveal(all_placed);
    assert forall|i: int| #![trigger blocks[i]] 0 <= i < blocks.len() implies block_placed(
        after,
        crypto,
        pending[i].1,
        blocks[i],
    ) by {
        lemma_block_stays(before, after, crypto, pending[i].1, blocks[i]);
    }
}

proof fn lemma_placed_push(
    bytes: Seq<u8>,
    crypto: Option<CryptoView>,
    pending: Seq<(Vec<u8>, BlockHandle)>,
    blocks: Seq<Seq<Entry>>,
    p: (Vec<u8>, BlockHandle),
    b: Seq<Entry>,
)
    requires
        all_placed(bytes, crypto, pending, blocks),
        block_placed(bytes, crypto, p.1, b),
        p.0@ == b.last().key,
        p.0@.len() <= u32::MAX,
    ensures
        all_placed(bytes, crypto, pending.push(p), blocks.push(b)),
        pending.len() == blocks.len(),
{
    reveal(all_placed);
    let pending2 = pending.push(p);
    let blocks2 = blocks.push(b);
    assert forall|i: int| #![trigger blocks2[i]] 0 <= i < blocks2.len() implies block_placed(
        bytes,
        crypto,
        pending2[i].1,
        blocks2[i],
    ) && pending2[i].0@ == blocks2[i].last().key && pending2[i].0@.len() <= u32::MAX by {
        if i < blocks.len() {
            assert(blocks2[i] == blocks[i]);
            assert(pending2[i] == pending[i]);
        }
    }
}

proof fn lemma_range_push(entries: Seq<Entry>, e: Entry, min: u64, max: u64)
    requires
        seqno_range(entries, min, max),
    ensures
        seqno_range(
            entries.push(e),
            if e.seqno < min { e.seqno } else { min },
            if e.seqno > max { e.seqno } else { max },
        ),
{
    reveal(seqno_range);
    let all = entries.push(e);
    let n = entries.len() as int;
    assert(all[n] == e);
    assert forall|i: int| #![trigger all[i]] 0 <= i < all.len() implies (if e.seqno < min {
        e.seqno
    } else {
        min
    }) <= all[i].seqno && all[i].seqno <= (if e.seqno > max { e.seqno } else { max }) by {
        if i < n {
            assert(all[i] == entries[i]);
        }
    }
    if n > 0 {
        let a = choose|i: int| 0 <= i < n && #[trigger] entries[i].seqno == max;
        assert(all[a].seqno == max);
        let b = choose|i: int| 0 <= i < n && #[trigger] entries[i].seqno == min;
        assert(all[b].seqno == min);
        assert(all[n].seqno == e.seqno);
    } else {
        assert(all[0].seqno == e.seqno);
    }
}

/// A handle read back from an index value.
proof fn lemma_handle_value(h: BlockHandle)
    ensures
        parse_handle(h.bytes()) == Ok::<BlockHandle, ErrorView>(h),
{
    h.law_round_trip();
    assert(h.bytes().subrange(0, BLOCK_HANDLE_SIZE as int) =~= h.bytes());
}

/// A block that a builder wrote is sound.
proof fn lemma_built_block(entries: Seq<Entry>)
    requires
        block_fits(entries),
    ensures
        block_ok(block_bytes(entries), entries),
        block_entries(block_bytes(entries)) == Ok::<Seq<Entry>, ErrorView>(entries),
        block_bytes(entries).len() == block_size(entries),
{
    reveal(block_ok);
    law_block_round_trip(entries);
    law_restarts_fit(entries);
    assert(restarts_fit(
        parse_block(block_bytes(entries))->Ok_0.0,
        parse_block(block_bytes(entries))->Ok_0.1,
        entries,
        restart_starts(entries.len()),
    ));
}

/// The parts of the assembled file stand where they were put.
proof fn lemma_slices(
    data: Seq<u8>,
    filter: Seq<u8>,
    index: Seq<u8>,
    footer: Seq<u8>,
    header: Seq<u8>,
)
    requires
        data.len() >= FILE_HEADER_REGION_SIZE,
        footer.len() == FOOTER_SIZE,
        header.len() == FILE_HEADER_SIZE,
    ensures
        ({
            let whole = overwrite(data + filter + index + footer, 0, header);
            let n = whole.len() as int;
            let at = (data.len() + filter.len()) as int;
            &&& n == data.len() + filter.len() + index.len() + FOOTER_SIZE
            &&& whole.subrange(n - FOOTER_SIZE, n) == footer
            &&& whole.subrange(0, FILE_HEADER_SIZE as int) == header
            &&& whole.subrange(at, at + index.len()) == index
            &&& whole.subrange(data.len() as int, at) == filter
            &&& keeps_blocks(data, whole)
        }),
{
    let whole = overwrite(data + filter + index + footer, 0, header);
    let n = whole.len() as int;
    let at = (data.len() + filter.len()) as int;
    assert(whole.subrange(n - FOOTER_SIZE, n) =~= footer);
    assert(whole.subrange(0, FILE_HEADER_SIZE as int) =~= header);
    assert(whole.subrange(at, at + index.len()) =~= index);
    assert(whole.subrange(data.len() as int, at) =~= filter);
}

/// A file with these parts opens to them.
proof fn lemma_parts_open(
    whole: Seq<u8>,
    filter: Option<FilterView>,
    filter_bytes: Seq<u8>,
    index: Seq<u8>,
    footer: Footer,
    header: FileHeader,
    encrypted: bool,
)
    requires
        whole.len() >= FILE_HEADER_SIZE + FOOTER_SIZE,
        Footer::parse(whole.subrange(whole.len() - FOOTER_SIZE, whole.len() as int)) == footer,
        FileHeader::parse(whole.subrange(0, FILE_HEADER_SIZE as int)) == header,
        footer.valid(),
        header.valid(),
        says_encrypted(header) == encrypted,
        bytes_at(
            whole,
            footer.index_handle.offset as nat,
            footer.index_handle.length as nat,
        ) == Ok::<Seq<u8>, Fault>(index),
        filter is None ==> footer.filter_handle.length == 0,
        filter is Some ==> footer.filter_handle.length > 0 && bytes_at(
            whole,
            footer.filter_handle.offset as nat,
            footer.filter_handle.length as nat,
        ) == Ok::<Seq<u8>, Fault>(filter_bytes),
        filter matches Some(f) ==> parse_filter(filter_bytes) == Ok::<FilterView, ErrorView>(f),
    ensures
        parse_table(whole, encrypted) == Ok::<TableView, Fault>(
            TableView { header, footer, index, filter },
        ),
{
    reveal(parse_table);
}

/// The bytes of an optional filter.
spec fn filter_bytes_of(filter: Option<FilterView>) -> Seq<u8> {
    match filter {
        Some(f) => f.encoded(),
        None => Seq::empty(),
    }
}

/// What the assembled file opens to.
proof fn lemma_assembled(
    data: Seq<u8>,
    filter: Option<FilterView>,
    index: Seq<u8>,
    footer: Footer,
    header: FileHeader,
    encrypted: bool,
)
    requires
        data.len() >= FILE_HEADER_REGION_SIZE,
        filter matches Some(f) ==> f.wf() && f.encoded().len() == footer.filter_handle.length
            && footer.filter_handle.offset == data.len(),
        filter is None ==> footer.filter_handle.length == 0,
        footer.index_handle.offset == data.len() + footer.filter_handle.length,
        footer.index_handle.length == index.len(),
        footer.valid(),
        header.valid(),
        says_encrypted(header) == encrypted,
    ensures
        ({
            let whole = overwrite(
                data + filter_bytes_of(filter) + index + footer.bytes(),
                0,
                header.bytes(),
            );
            &&& parse_table(whole, encrypted) == Ok::<TableView, Fault>(
                TableView { header, footer, index, filter },
            )
            &&& keeps_blocks(data, whole)
        }),
{
    let filter_bytes = filter_bytes_of(filter);
    footer.law_round_trip();
    header.law_round_trip();
    let whole = overwrite(data + filter_bytes + index + footer.bytes(), 0, header.bytes());
    lemma_slices(data, filter_bytes, index, footer.bytes(), header.bytes());
    match filter {
        Some(f) => {
            law_filter_round_trip(f);
            lemma_filter_len(f);
        },
        None => {},
    }
    lemma_parts_open(whole, filter, filter_bytes, index, footer, header, encrypted);
}

/// Length of an optional filter's bytes.
proof fn lemma_filter_matters(filter: Option<FilterView>)
    requires
        filter matches Some(f) ==> f.wf(),
    ensures
        filter matches Some(f) ==> filter_bytes_of(filter).len() == HEADER_SIZE + f.num_blocks
            * BLOCK_BYTES,
        filter is None ==> filter_bytes_of(filter).len() == 0,
{
    if filter is Some {
        lemma_filter_len(filter->0);
    }
}

/// Length of a filter's bytes.
proof fn lemma_filter_len(f: FilterView)
    requires
        f.wf(),
    ensures
        f.encoded().len() == HEADER_SIZE + f.num_blocks * BLOCK_BYTES,
        f.encoded().len() > 0,
{
}

/// Builds a complete SSTable from records passed to [`add`](Self::add).
pub struct SstWriter<F: VfsFile> {
    file: F,
    data_builder: BlockBuilder,
    /// Last key and handle of every block already written.
    pending_index: Vec<(Vec<u8>, BlockHandle)>,
    /// Key of the most recent record.
    last_key: Vec<u8>,
    bytes_written: u64,
    num_entries: u64,
    num_blocks: u64,
    min_seqno: u64,
    max_seqno: u64,
    checksum_alg: Algorithm,
    block_size: usize,
    bloom: Option<BlockedBloom>,
    crypto: Option<(Aead, u64)>,
    blocks: Ghost<Seq<Seq<Entry>>>,
}

impl<F: VfsFile> SstWriter<F> {
    /// The blocks already written.
    pub closed spec fn sealed(&self) -> Seq<Seq<Entry>> {
        self.blocks@
    }

    /// The records of the block being built.
    pub closed spec fn open_block(&self) -> Seq<Entry> {
        self.data_builder@
    }

    /// Every record added so far.
    pub open spec fn entries(&self) -> Seq<Entry> {
        flat(self.sealed()) + self.open_block()
    }

    /// The file being written.
    pub closed spec fn handle(&self) -> F {
        self.file
    }

    /// Bytes written so far.
    pub closed spec fn position(&self) -> u64 {
        self.bytes_written
    }

    /// Key and identity under which blocks are encrypted.
    pub closed spec fn crypto_view(&self) -> Option<CryptoView> {
        match self.crypto {
            Some(c) => Some(CryptoView { key: c.0@, sstable_id: c.1 }),
            None => None,
        }
    }

    /// The filter built so far.
    pub closed spec fn filter_view(&self) -> Option<FilterView> {
        match self.bloom {
            Some(b) => Some(b@),
            None => None,
        }
    }

    /// Size from which on a block is written.
    pub closed spec fn target(&self) -> nat {
        if self.block_size <= u32::MAX {
            self.block_size as nat
        } else {
            u32::MAX as nat
        }
    }

    /// Tag of the checksum algorithm.
    pub closed spec fn algorithm(&self) -> Algorithm {
        self.checksum_alg
    }

    /// The header that finishing writes, if the data blocks end at `end` and
    /// are `blocks` in number.
    pub closed spec fn header_at(&self, blocks: u64, end: u64) -> FileHeader {
        FileHeader::signed(
            if self.crypto is Some { 3 } else { 1 },
            CompressionAlg::Uncompressed,
            self.checksum_alg,
            self.num_entries,
            blocks,
            if self.num_entries == 0 { 0 } else { self.min_seqno },
            self.max_seqno,
            end,
        )
    }

    /// Law: the header that finishing writes is valid, says that blocks carry
    /// checksums and, where there is a key, that they are encrypted, and names no
    /// compression and the writer's checksum algorithm.
    pub proof fn law_header_of_the_table(&self, blocks: u64, end: u64)
        ensures
            ({
                let h = self.header_at(blocks, end);
                &&& h.valid()
                &&& h.flags == (if self.crypto_view() is Some {
                    3u32
                } else {
                    1u32
                })
                &&& h.compression_alg == 0
                &&& h.checksum_alg == self.algorithm().tag_of()
                &&& h.num_blocks == blocks
                &&& h.data_blocks_end_offset == end
            }),
    {
        let h = self.header_at(blocks, end);
        assert(FileHeader { header_crc32c: 0, ..h }.signed_bytes() == h.signed_bytes());
    }

    /// Everything but the records and the bytes written is as in `other`.
    pub open spec fn same_settings(&self, other: Self) -> bool {
        &&& self.handle() == other.handle()
        &&& self.crypto_view() == other.crypto_view()
        &&& self.target() == other.target()
        &&& self.algorithm() == other.algorithm()
        &&& self.filter_view() is Some == other.filter_view() is Some
        &&& self.filter_view() is Some ==> self.filter_view()->0.num_blocks
            == other.filter_view()->0.num_blocks && self.filter_view()->0.params
            == other.filter_view()->0.params
    }

    /// The file holds the blocks written so far, and the counters are those
    /// of the records added.
    pub closed spec fn wf(&self, fs: &F::Fs) -> bool {
        &&& is_open(&self.file, fs)
        &&& bytes_of(&self.file, fs).len() == self.bytes_written
        &&& self.bytes_written >= FILE_HEADER_REGION_SIZE
        &&& self.bytes_written % BLOCK_ALIGNMENT as u64 == 0
        &&& self.data_builder.wf()
        &&& encoded_entries(self.data_builder@).len() <= u32::MAX
        &&& all_placed(
            bytes_of(&self.file, fs),
            self.crypto_view(),
            self.pending_index@,
            self.blocks@,
        )
        &&& self.num_blocks == self.blocks@.len()
        &&& self.num_entries == self.entries().len()
        &&& seqno_range(self.entries(), self.min_seqno, self.max_seqno)
        &&& self.data_builder@.len() > 0 ==> self.last_key@ == self.data_builder@.last().key
        &&& self.last_key@.len() <= u32::MAX
        &&& filter_fits(self.filter_view(), self.entries())
    }

    fn start(
        fs: &mut F::Fs,
        file: F,
        checksum_alg: Algorithm,
        bloom: Option<BlockedBloom>,
        crypto: Option<(Aead, u64)>,
    ) -> (r: Result<SstWriter<F>>)
        requires
            is_open(&file, old(fs)),
            bytes_of(&file, old(fs)).len() == 0,
            bloom matches Some(b) ==> b@.built_from(Seq::empty()),
        ensures
            r matches Ok(w) ==> w.wf(final(fs)) && w.entries() == Seq::<Entry>::empty() && w.sealed()
                == Seq::<Seq<Entry>>::empty() && w.handle() == file && w.crypto_view() == (
            match crypto {
                Some(c) => Some(CryptoView { key: c.0@, sstable_id: c.1 }),
                None => None,
            }) && w.target() == 16_384 && w.algorithm() == checksum_alg
                && w.filter_view() == (match bloom {
                Some(b) => Some(b@),
                None => None,
            }) && w.position() == FILE_HEADER_REGION_SIZE,
            F::fs_state(old(fs)).grows_to(F::fs_state(final(fs)), file.id()),
            F::fs_reliable(old(fs)) ==> r is Ok && F::fs_reliable(final(fs)),
            others_synced(F::fs_synced(old(fs)), F::fs_synced(final(fs)), file.id()),
    {
        let pad: Vec<u8> = zeros(FILE_HEADER_REGION_SIZE);
        proof {
            F::fs_state(fs).lemma_append_grows(file.id(), pad@);
        }
        match file.append(fs, pad.as_slice()) {
            Ok(_) => {},
            Err(e) => {
                return Err(e);
            },
        }
        let w = SstWriter {
            file,
            data_builder: BlockBuilder::new(),
            pending_index: Vec::new(),
            last_key: Vec::new(),
            bytes_written: FILE_HEADER_REGION_SIZE as u64,
            num_entries: 0,
            num_blocks: 0,
            min_seqno: u64::MAX,
            max_seqno: 0,
            checksum_alg,
            block_size: DEFAULT_BLOCK_SIZE,
            bloom,
            crypto,
            blocks: Ghost(Seq::empty()),
        };
        proof {
            reveal(all_placed);
            reveal(seqno_range);
            reveal(filter_fits);
            assert(w.entries() =~= Seq::<Entry>::empty());
            assert(keys_of(w.entries()) =~= Seq::<Seq<u8>>::empty());
        }
        Ok(w)
    }

    /// Construct a writer over the empty `file`, with a filter of default
    /// size. Reserves the header region at once.
    pub fn create(fs: &mut F::Fs, file: F, checksum_alg: Algorithm) -> (r: Result<SstWriter<F>>)
        requires
            is_open(&file, old(fs)),
            bytes_of(&file, old(fs)).len() == 0,
        ensures
            r matches Ok(w) ==> w.wf(final(fs)) && w.entries() == Seq::<Entry>::empty() && w.sealed()
                == Seq::<Seq<Entry>>::empty() && w.handle() == file && w.crypto_view() is None
                && w.target() == 16_384 && w.algorithm() == checksum_alg
                && filter_for(
                w.filter_view(),
                10_000,
                (BloomParams { num_hashes: 8, bits_per_key: 10 }),
            ) && w.position() == FILE_HEADER_REGION_SIZE,
            F::fs_state(old(fs)).grows_to(F::fs_state(final(fs)), file.id()),
            F::fs_reliable(old(fs)) ==> r is Ok && F::fs_reliable(final(fs)),
            others_synced(F::fs_synced(old(fs)), F::fs_synced(final(fs)), file.id()),
    {
        SstWriter::create_with_filter_capacity(
            fs,
            file,
            checksum_alg,
            DEFAULT_FILTER_CAPACITY,
            BloomParams::default(),
        )
    }

    /// Construct a writer over the empty `file` with a filter for
    /// `expected_keys` keys. No keys, no filter.
    pub fn create_with_filter_capacity(
        fs: &mut F::Fs,
        file: F,
        checksum_alg: Algorithm,
        expected_keys: usize,
        params: BloomParams,
    ) -> (r: Result<SstWriter<F>>)
        requires
            is_open(&file, old(fs)),
            bytes_of(&file, old(fs)).len() == 0,
            params.valid(),
        ensures
            r matches Ok(w) ==> w.wf(final(fs)) && w.entries() == Seq::<Entry>::empty() && w.sealed()
                == Seq::<Seq<Entry>>::empty() && w.handle() == file && w.crypto_view() is None
                && w.target() == 16_384 && w.algorithm() == checksum_alg && filter_for(
                w.filter_view(),
                expected_keys,
                params,
            ) && w.position() == FILE_HEADER_REGION_SIZE,
            F::fs_state(old(fs)).grows_to(F::fs_state(final(fs)), file.id()),
            F::fs_reliable(old(fs)) ==> r is Ok && F::fs_reliable(final(fs)),
            others_synced(F::fs_synced(old(fs)), F::fs_synced(final(fs)), file.id()),
    {
        let bloom: Option<BlockedBloom> = if expected_keys == 0 {
            None
        } else {
            Some(BlockedBloom::new(expected_keys, params))
        };
        SstWriter::start(fs, file, checksum_alg, bloom, None)
    }

    /// As [`create_with_filter_capacity`](Self::create_with_filter_capacity),
    /// with data blocks encrypted under `aead_key` and bound to `sstable_id`.
    pub fn create_encrypted(
        fs: &mut F::Fs,
        file: F,
        checksum_alg: Algorithm,
        expected_keys: usize,
        params: BloomParams,
        aead_key: &AeadKey,
        sstable_id: u64,
    ) -> (r: Result<SstWriter<F>>)
        requires
            is_open(&file, old(fs)),
            bytes_of(&file, old(fs)).len() == 0,
            params.valid(),
        ensures
            r matches Ok(w) ==> w.wf(final(fs)) && w.entries() == Seq::<Entry>::empty() && w.sealed()
                == Seq::<Seq<Entry>>::empty() && w.handle() == file && w.crypto_view() == Some(
                CryptoView { key: aead_key@, sstable_id },
            ) && w.target() == 16_384 && w.algorithm() == checksum_alg && filter_for(
                w.filter_view(),
                expected_keys,
                params,
            ) && w.position() == FILE_HEADER_REGION_SIZE,
            F::fs_state(old(fs)).grows_to(F::fs_state(final(fs)), file.id()),
            F::fs_reliable(old(fs)) ==> r is Ok && F::fs_reliable(final(fs)),
            others_synced(F::fs_synced(old(fs)), F::fs_synced(final(fs)), file.id()),
    {
        let bloom: Option<BlockedBloom> = if expected_keys == 0 {
            None
        } else {
            Some(BlockedBloom::new(expected_keys, params))
        };
        SstWriter::start(fs, file, checksum_alg, bloom, Some((Aead::new(aead_key), sstable_id)))
    }

    /// Override the block-size target (default [`DEFAULT_BLOCK_SIZE`]). A
    /// block never grows beyond what its handle can say, whatever the target.
    pub fn set_block_size(&mut self, size: usize)
        ensures
            final(self).target() == (if size <= u32::MAX { size as nat } else { u32::MAX as nat }),
            final(self).handle() == old(self).handle(),
            final(self).crypto_view() == old(self).crypto_view(),
            final(self).algorithm() == old(self).algorithm(),
            final(self).filter_view() == old(self).filter_view(),
            final(self).sealed() == old(self).sealed(),
            final(self).open_block() == old(self).open_block(),
            final(self).position() == old(self).position(),
            forall|fs: &F::Fs| old(self).wf(fs) ==> #[trigger] final(self).wf(fs),
    {
        self.block_size = size;
        assert(self.entries() == old(self).entries());
    }

    /// Number of bytes written into the file so far.
    pub fn bytes_written(&self) -> (n: u64)
        ensures
            n == self.position(),
    {
        self.bytes_written
    }

    /// Why the record `e` cannot be added, if so.
    pub open spec fn refusal(&self, e: Entry) -> Option<Seq<char>> {
        record_refusal(
            self.open_block(),
            self.entries().len(),
            e,
            self.target(),
            self.crypto_view() is Some,
        )
    }

    /// Append a record. Callers pass records in ascending `(key, seqno
    /// descending)` order: the writer does not sort.
    pub fn add(
        &mut self,
        fs: &mut F::Fs,
        key: &[u8],
        value: &[u8],
        seqno: u64,
        op: RecordOp,
    ) -> (r: Result<()>)
        requires
            old(self).wf(old(fs)),
        ensures
            final(self).same_settings(*old(self)),
            r is Ok ==> final(self).wf(final(fs)) && final(self).entries() == old(self).entries().push(
                Entry { key: key@, seqno, op, value: value@ },
            ),
            r is Ok ==> (if block_size(
                old(self).open_block().push(Entry { key: key@, seqno, op, value: value@ }),
            ) >= old(self).target() {
                final(self).open_block().len() == 0 && final(self).sealed() == old(self).sealed().push(
                    old(self).open_block().push(Entry { key: key@, seqno, op, value: value@ }),
                )
            } else {
                final(self).sealed() == old(self).sealed()
            }),
            F::fs_state(old(fs)).grows_to(F::fs_state(final(fs)), old(self).handle().id()),
            match old(self).refusal(Entry { key: key@, seqno, op, value: value@ }) {
                Some(why) => (r matches Err(e) && e@ == ErrorView::InvalidArgument(why)) && F::fs_state(final(fs))
                    == F::fs_state(old(fs)),
                None => F::fs_reliable(old(fs)) ==> r is Ok,
            },
            F::fs_reliable(old(fs)) ==> F::fs_reliable(final(fs)),
            others_synced(F::fs_synced(old(fs)), F::fs_synced(final(fs)), old(self).handle().id()),
    {
        let ghost e = Entry { key: key@, seqno, op, value: value@ };
        proof {
            F::fs_state(fs).lemma_append_grows(self.file.id(), Seq::empty());
            assert(F::fs_state(fs).files[self.file.id()] + Seq::<u8>::empty() =~= F::fs_state(
                fs,
            ).files[self.file.id()]);
        }
        if key.len() as u64 > u32::MAX as u64 || value.len() as u64 > u32::MAX as u64 {
            return Err(Error::InvalidArgument("sstable key or value too long"));
        }
        if self.num_entries == u64::MAX {
            return Err(Error::InvalidArgument("too many records in one sstable"));
        }
        let ghost before = self.entries();
        self.data_builder.add(key, value, seqno, op);
        self.last_key = slice_to_vec(key);
        self.num_entries = self.num_entries + 1;
        if seqno < self.min_seqno {
            self.min_seqno = seqno;
        }
        if seqno > self.max_seqno {
            self.max_seqno = seqno;
        }
        match &mut self.bloom {
            Some(b) => {
                proof {
                    reveal(filter_fits);
                }
                b.insert(key);
            },
            None => {},
        }
        proof {
            assert(self.entries() =~= before.push(e));
            lemma_range_push(before, e, old(self).min_seqno, old(self).max_seqno);
            reveal(filter_fits);
            let all = self.entries();
            assert(keys_of(all) =~= keys_of(before).push(e.key));
            match self.filter_view() {
                Some(f) => {
                    assert(old(self).filter_view()->0.built_from(keys_of(before)));
                    assert forall|i: int| #![trigger all[i]] 0 <= i < all.len() implies f.holds(
                        all[i].key,
                    ) by {
                        if i < before.len() {
                            assert(all[i] == before[i]);
                            assert(old(self).filter_view()->0.holds(before[i].key));
                        }
                    }
                },
                None => {},
            }
            self.data_builder.lemma_fits();
        }
        let target: usize = if self.block_size as u64 <= u32::MAX as u64 {
            self.block_size
        } else {
            u32::MAX as usize
        };
        if self.data_builder.estimated_size() >= target {
            return self.flush_block(fs);
        }
        Ok(())
    }

    /// All that a writer knows of its own but that the open block fits one
    /// more record.
    spec fn wf_full(&self, fs: &F::Fs) -> bool {
        &&& is_open(&self.file, fs)
        &&& bytes_of(&self.file, fs).len() == self.bytes_written
        &&& self.bytes_written >= FILE_HEADER_REGION_SIZE
        &&& self.bytes_written % BLOCK_ALIGNMENT as u64 == 0
        &&& self.data_builder.wf()
        &&& all_placed(
            bytes_of(&self.file, fs),
            self.crypto_view(),
            self.pending_index@,
            self.blocks@,
        )
        &&& self.num_blocks == self.blocks@.len()
        &&& self.num_entries == self.entries().len()
        &&& seqno_range(self.entries(), self.min_seqno, self.max_seqno)
        &&& self.data_builder@.len() > 0 ==> self.last_key@ == self.data_builder@.last().key
        &&& self.last_key@.len() <= u32::MAX
        &&& filter_fits(self.filter_view(), self.entries())
    }

    /// Seal the current data block (if non-empty) and write it out.
    fn flush_block(&mut self, fs: &mut F::Fs) -> (r: Result<()>)
        requires
            old(self).wf_full(old(fs)),
        ensures
            final(self).same_settings(*old(self)),
            final(self).num_entries == old(self).num_entries,
            final(self).min_seqno == old(self).min_seqno,
            final(self).max_seqno == old(self).max_seqno,
            final(self).bloom == old(self).bloom,
            final(self).crypto == old(self).crypto,
            r is Ok ==> final(self).wf(final(fs)) && final(self).entries() == old(self).entries()
                && final(self).open_block().len() == 0 && final(self).sealed() == (if old(self).open_block().len()
                == 0 {
                old(self).sealed()
            } else {
                old(self).sealed().push(old(self).open_block())
            }),
            F::fs_state(old(fs)).grows_to(F::fs_state(final(fs)), old(self).handle().id()),
            ({
                let refused = old(self).open_block().len() > 0 && !sealable(
                    block_size(old(self).open_block()),
                    old(self).crypto_view() is Some,
                );
                &&& refused ==> (r matches Err(e) && e@ == ErrorView::InvalidArgument(
                    "sstable block too large"@,
                )) && F::fs_state(final(fs)) == F::fs_state(old(fs))
                &&& !refused && F::fs_reliable(old(fs)) ==> r is Ok
            }),
            F::fs_reliable(old(fs)) ==> F::fs_reliable(final(fs)),
            others_synced(F::fs_synced(old(fs)), F::fs_synced(final(fs)), old(self).handle().id()),
    {
        proof {
            F::fs_state(fs).lemma_append_grows(self.file.id(), Seq::empty());
            assert(F::fs_state(fs).files[self.file.id()] + Seq::<u8>::empty() =~= F::fs_state(
                fs,
            ).files[self.file.id()]);
        }
        if self.data_builder.is_empty() {
            assert(encoded_entries(self.data_builder@).len() == 0);
            return Ok(());
        }
        let ghost block = self.data_builder@;
        let ghost entries = self.entries();
        let ghost crypto = self.crypto_view();
        let ghost bytes0 = bytes_of(&self.file, fs);
        proof {
            self.data_builder.lemma_fits();
            lemma_built_block(block);
        }
        let plain: Vec<u8> = self.data_builder.finish();
        let size: usize = plain.len();
        let too_large: bool = match &self.crypto {
            Some(_) => size as u64 > (u32::MAX as u64) - TAG_LEN as u64 || size > isize::MAX
                as usize - TAG_LEN,
            None => size as u64 > u32::MAX as u64,
        };
        if too_large {
            return Err(Error::InvalidArgument("sstable block too large"));
        }
        let handle: BlockHandle = match self.write_block(fs, plain.as_slice()) {
            Ok(h) => h,
            Err(e) => {
                return Err(e);
            },
        };
        let key: Vec<u8> = slice_to_vec(self.last_key.as_slice());
        let ghost pending = self.pending_index@;
        let ghost blocks = self.blocks@;
        self.pending_index.push((key, handle));
        self.blocks = Ghost(self.blocks@.push(block));
        proof {
            let bytes = bytes_of(&self.file, fs);
            assert(keeps_blocks(bytes0, bytes)) by {
                assert forall|k: int| FILE_HEADER_REGION_SIZE <= k < bytes0.len() implies #[trigger] bytes[k]
                    == bytes0[k] by {
                    assert(bytes.subrange(0, bytes0.len() as int)[k] == bytes0[k]);
                }
            }
            lemma_all_stay(bytes0, bytes, crypto, pending, blocks);
            lemma_placed_push(bytes, crypto, pending, blocks, (key, handle), block);
            lemma_flat_push(blocks, block);
            assert(flat(blocks.push(block)) + Seq::<Entry>::empty() =~= flat(blocks) + block);
            assert(self.entries() == entries);
        }
        self.num_blocks = self.count_block();
        Ok(())
    }

    /// One more than the number of blocks. Every block takes a byte of the
    /// file, so the number fits.
    fn count_block(&self) -> (n: u64)
        requires
            self.pending_index@.len() == self.num_blocks + 1,
        ensures
            n == self.num_blocks + 1,
    {
        assert(self.pending_index.len() == self.pending_index@.len());
        self.num_blocks + 1
    }

    /// Append `plain` as a single block and pad up to the next
    /// [`BLOCK_ALIGNMENT`]. Returns the handle of the block.
    fn write_block(&mut self, fs: &mut F::Fs, plain: &[u8]) -> (r: Result<BlockHandle>)
        requires
            is_open(&old(self).file, old(fs)),
            bytes_of(&old(self).file, old(fs)).len() == old(self).bytes_written,
            old(self).bytes_written >= FILE_HEADER_REGION_SIZE,
            old(self).bytes_written % BLOCK_ALIGNMENT as u64 == 0,
            sealable(plain@.len(), old(self).crypto is Some),
            plain@.len() >= 8,
        ensures
            *final(self) == (SstWriter { bytes_written: final(self).bytes_written, ..*old(self) }),
            F::fs_state(old(fs)).grows_to(F::fs_state(final(fs)), old(self).file.id()),
            r matches Ok(h) ==> bytes_of(&old(self).file, final(fs)).len() == final(self).bytes_written && h.offset == old(self).bytes_written && h.offset + h.length
                <= final(self).bytes_written && final(self).bytes_written % BLOCK_ALIGNMENT as u64 == 0
                && h.checksum == trailer(plain@) && block_plain(bytes_of(&old(self).file, final(fs)), old(self).crypto_view(), h)
                == Ok::<Seq<u8>, Fault>(plain@),
            F::fs_reliable(old(fs)) ==> r is Ok && F::fs_reliable(final(fs)),
            others_synced(F::fs_synced(old(fs)), F::fs_synced(final(fs)), old(self).handle().id()),
    {
        let offset: u64 = self.bytes_written;
        let ghost state0 = F::fs_state(fs);
        let ghost id = self.file.id();
        let checksum: u32 = read_u32(plain, plain.len() - 4);
        let on_disk: Vec<u8> = match &self.crypto {
            None => slice_to_vec(plain),
            Some((aead, sstable_id)) => {
                let nonce = derive_block_nonce(offset);
                let aad: [u8; 16] = block_aad(*sstable_id, offset);
                match aead.seal(nonce.as_nonce(), aad.as_slice(), plain) {
                    Ok(c) => c,
                    Err(_) => {
                        return Err(Error::InvalidArgument("sstable block too large"));
                    },
                }
            },
        };
        proof {
            state0.lemma_append_grows(id, on_disk@);
        }
        match self.file.append(fs, on_disk.as_slice()) {
            Ok(_) => {},
            Err(e) => {
                return Err(e);
            },
        }
        let ghost state1 = F::fs_state(fs);
        assert(on_disk.len() == on_disk@.len());
        self.bytes_written = self.bytes_written + on_disk.len() as u64;
        let handle = BlockHandle { offset, length: on_disk.len() as u32, checksum };
        proof {
            reveal(block_plain);
            assert(state1.files[id].subrange(offset as int, offset + on_disk@.len()) =~= on_disk@);
        }
        match self.align_to_block_boundary(fs) {
            Ok(()) => {},
            Err(e) => {
                proof {
                    state0.lemma_grows_transitive(state1, F::fs_state(fs), id);
                }
                return Err(e);
            },
        }
        proof {
            let state2 = F::fs_state(fs);
            state0.lemma_grows_transitive(state1, state2, id);
            assert(state2.files[id].subrange(offset as int, offset + on_disk@.len())
                =~= state2.files[id].subrange(0, state1.files[id].len() as int).subrange(
                offset as int,
                offset + on_disk@.len(),
            ));
        }
        Ok(handle)
    }

    fn align_to_block_boundary(&mut self, fs: &mut F::Fs) -> (r: Result<()>)
        requires
            is_open(&old(self).file, old(fs)),
            bytes_of(&old(self).file, old(fs)).len() == old(self).bytes_written,
        ensures
            *final(self) == (SstWriter { bytes_written: final(self).bytes_written, ..*old(self) }),
            F::fs_state(old(fs)).grows_to(F::fs_state(final(fs)), old(self).file.id()),
            r is Ok ==> bytes_of(&old(self).file, final(fs)).len() == final(self).bytes_written
                && final(self).bytes_written % BLOCK_ALIGNMENT as u64 == 0 && final(self).bytes_written >= old(self).bytes_written,
            F::fs_reliable(old(fs)) ==> r is Ok && F::fs_reliable(final(fs)),
            others_synced(F::fs_synced(old(fs)), F::fs_synced(final(fs)), old(self).handle().id()),
    {
        let rem: u64 = self.bytes_written % BLOCK_ALIGNMENT as u64;
        proof {
            F::fs_state(fs).lemma_append_grows(self.file.id(), Seq::empty());
            assert(F::fs_state(fs).files[self.file.id()] + Seq::<u8>::empty() =~= F::fs_state(
                fs,
            ).files[self.file.id()]);
        }
        if rem != 0 {
            let pad: Vec<u8> = zeros(BLOCK_ALIGNMENT - rem as usize);
            proof {
                F::fs_state(fs).lemma_append_grows(self.file.id(), pad@);
            }
            match self.file.append(fs, pad.as_slice()) {
                Ok(_) => {},
                Err(e) => {
                    return Err(e);
                },
            }
            assert(pad.len() == pad@.len());
            let ghost x = self.bytes_written as int;
            assert((x + 4096 - x % 4096) % 4096 == 0) by (nonlinear_arith);
            self.bytes_written = self.bytes_written + pad.len() as u64;
        }
        Ok(())
    }

    /// Build the index block from the last keys and handles gathered so far.
    fn build_index_block(&self) -> (r: Result<Vec<u8>>)
        requires
            forall|i: int|
                0 <= i < self.pending_index@.len() ==> (#[trigger] self.pending_index@[i]).0@.len()
                    <= u32::MAX,
        ensures
            r matches Ok(v) ==> v@ == block_bytes(index_records(self.pending_index@)) && block_fits(
                index_records(self.pending_index@),
            ) && v@.len() == block_size(index_records(self.pending_index@)) && v@.len() <= u32::MAX,
            block_size(index_records(self.pending_index@)) <= u32::MAX ==> r is Ok,
            block_size(index_records(self.pending_index@)) > u32::MAX ==> (r matches Err(e) && e@
                == ErrorView::InvalidArgument("sstable index too large"@)),
    {
        let mut b = BlockBuilder::new();
        let n: usize = self.pending_index.len();
        let mut i: usize = 0;
        let ghost all = index_records(self.pending_index@);
        assert(all.subrange(0, 0) =~= Seq::empty());
        while i < n
            invariant
                i <= n,
                n == self.pending_index@.len(),
                all == index_records(self.pending_index@),
                b.wf(),
                b@ == all.subrange(0, i as int),
                forall|j: int|
                    0 <= j < self.pending_index@.len() ==> (#[trigger] self.pending_index@[j]).0@.len()
                        <= u32::MAX,
            decreases n - i,
        {
            if !b.has_room() {
                proof {
                    lemma_size_grows(all, i as int);
                }
                return Err(Error::InvalidArgument("sstable index too large"));
            }
            let value: Vec<u8> = self.pending_index[i].1.as_bytes();
            assert(self.pending_index@[i as int].0@.len() <= u32::MAX);
            assert(all[i as int] == index_record(
                self.pending_index@[i as int].0@,
                self.pending_index@[i as int].1,
            ));
            b.add(self.pending_index[i].0.as_slice(), value.as_slice(), 0, RecordOp::Put);
            assert(b@ =~= all.subrange(0, i + 1));
            i += 1;
        }
        assert(all.subrange(0, n as int) =~= all);
        proof {
            b.lemma_fits();
            lemma_built_block(all);
        }
        let out: Vec<u8> = b.finish();
        if out.len() as u64 > u32::MAX as u64 {
            return Err(Error::InvalidArgument("sstable index too large"));
        }
        Ok(out)
    }
}

impl<F: VfsFile> SstWriter<F> {
    /// The blocks of the finished table.
    pub open spec fn all_blocks(&self) -> Seq<Seq<Entry>> {
        closed_blocks(self.sealed(), self.open_block())
    }

    /// Number of blocks of the filter, where there is one.
    pub open spec fn filter_blocks(&self) -> Option<nat> {
        match self.filter_view() {
            Some(f) => Some(f.num_blocks as nat),
            None => None,
        }
    }

    /// Why the table cannot be finished, if so.
    pub open spec fn finish_refusal(&self) -> Option<Seq<char>> {
        closing_refusal(
            self.sealed(),
            self.open_block(),
            self.filter_blocks(),
            self.crypto_view() is Some,
        )
    }

    /// Seal the SSTable: write any open data block, the filter, the index and
    /// the footer, then fill in the file header and make it all durable.
    pub fn finish(self, fs: &mut F::Fs) -> (r: Result<F>)
        requires
            self.wf(old(fs)),
        ensures
            r matches Ok(f) ==> f == self.handle(),
            r is Ok ==> file_synced::<F>(final(fs), self.handle().id()),
            r is Ok ==> ({
                let bytes = bytes_of(&self.handle(), final(fs));
                let t = parse_table(bytes, self.crypto_view() is Some)->Ok_0;
                &&& parse_table(bytes, self.crypto_view() is Some) is Ok
                &&& table_holds(bytes, self.crypto_view(), t, self.all_blocks())
                &&& sorted(self.entries()) ==> table_ok(
                    bytes,
                    self.crypto_view(),
                    t,
                    self.all_blocks(),
                )
                &&& flat(self.all_blocks()) == self.entries()
                &&& t.filter == (if self.entries().len() > 0 {
                    self.filter_view()
                } else {
                    None
                })
                &&& t.header == self.header_at(
                    self.all_blocks().len() as u64,
                    t.header.data_blocks_end_offset,
                )
                &&& t.header.checksum_alg == self.algorithm().tag_of()
            }),
            F::fs_state(old(fs)).only_changes(F::fs_state(final(fs)), self.handle().id()),
            match self.finish_refusal() {
                Some(why) => r matches Err(e) && (e@ == ErrorView::InvalidArgument(why)
                    || !F::fs_reliable(old(fs))),
                None => F::fs_reliable(old(fs)) ==> r is Ok,
            },
            F::fs_reliable(old(fs)) ==> F::fs_reliable(final(fs)),
            others_synced(F::fs_synced(old(fs)), F::fs_synced(final(fs)), self.handle().id()),
    {
        let mut w = self;
        let ghost state0 = F::fs_state(fs);
        let ghost id = w.file.id();
        let ghost crypto = w.crypto_view();
        let ghost entries = w.entries();
        let ghost blocks = w.all_blocks();
        assert(state0 =~= state0.with_bytes(id, state0.files[id]));
        match w.flush_block(fs) {
            Ok(()) => {},
            Err(e) => {
                return Err(e);
            },
        }
        let ghost data = bytes_of(&w.file, fs);
        let data_end: u64 = w.bytes_written;
        assert(flat(blocks) == entries && w.blocks@ == blocks) by {
            assert(w.open_block() =~= Seq::empty());
            assert(w.entries() =~= flat(w.blocks@));
        }
        let ghost state1 = F::fs_state(fs);
        assert(w.filter_view() matches Some(f) ==> f.wf()) by {
            reveal(filter_fits);
        }
        let filter_handle: BlockHandle = match w.write_filter(fs) {
            Ok(h) => h,
            Err(e) => {
                proof {
                    lemma_filter_matters(w.filter_view());
                    state0.lemma_changes_transitive(state1, F::fs_state(fs), id);
                }
                return Err(e);
            },
        };
        let ghost state2 = F::fs_state(fs);
        proof {
            lemma_filter_matters(w.filter_view());
            state0.lemma_changes_transitive(state1, state2, id);
        }
        let ghost filter = if entries.len() > 0 { w.filter_view() } else { None };
        proof {
            lemma_placed_index(data, crypto, w.pending_index@, blocks);
        }
        let index_bytes: Vec<u8> = match w.build_index_block() {
            Ok(v) => v,
            Err(e) => {
                return Err(e);
            },
        };
        let sealed = w.seal(
            fs,
            Ghost(data),
            Ghost(filter),
            filter_handle,
            &index_bytes,
            data_end,
        );
        proof {
            state0.lemma_changes_transitive(state2, F::fs_state(fs), id);
        }
        match sealed {
            Ok(()) => {},
            Err(e) => {
                return Err(e);
            },
        }
        proof {
            let bytes = bytes_of(&w.file, fs);
            let t = parse_table(bytes, crypto is Some)->Ok_0;
            assert(filter_fits(filter, entries)) by {
                reveal(filter_fits);
            }
            lemma_finished(
                bytes,
                data,
                crypto,
                t,
                w.pending_index@,
                blocks,
                w.min_seqno,
                w.max_seqno,
            );
        }
        Ok(w.file)
    }

    /// Write index, footer and header behind the data blocks and the filter.
    #[verifier::rlimit(60)]
    fn seal(
        &mut self,
        fs: &mut F::Fs,
        data: Ghost<Seq<u8>>,
        filter: Ghost<Option<FilterView>>,
        filter_handle: BlockHandle,
        index_bytes: &Vec<u8>,
        data_end: u64,
    ) -> (r: Result<()>)
        requires
            is_open(&old(self).file, old(fs)),
            bytes_of(&old(self).file, old(fs)) == data@ + filter_bytes_of(filter@),
            bytes_of(&old(self).file, old(fs)).len() == old(self).bytes_written,
            data@.len() >= FILE_HEADER_REGION_SIZE,
            filter@ matches Some(f) ==> f.wf(),
            filter_handle.length == filter_bytes_of(filter@).len(),
            filter_handle.offset == data@.len(),
            filter_handle.checksum == (match filter@ {
                Some(f) => crc32c::crc32c(f.encoded()),
                None => 0,
            }),
            data_end == data@.len(),
            4 <= index_bytes@.len() <= u32::MAX,
        ensures
            *final(self) == (SstWriter { bytes_written: final(self).bytes_written, ..*old(self) }),
            F::fs_state(old(fs)).only_changes(F::fs_state(final(fs)), old(self).file.id()),
            r is Ok ==> ({
                let bytes = bytes_of(&old(self).file, final(fs));
                let t = parse_table(bytes, old(self).crypto_view() is Some)->Ok_0;
                &&& parse_table(bytes, old(self).crypto_view() is Some) is Ok
                &&& t.header == old(self).header_at(old(self).num_blocks, data_end)
                &&& t.index == index_bytes@
                &&& t.filter == filter@
                &&& tail_fits(t)
                &&& keeps_blocks(data@, bytes)
            }),
            r is Ok ==> file_synced::<F>(final(fs), old(self).file.id()),
            F::fs_reliable(old(fs)) ==> r is Ok && F::fs_reliable(final(fs)),
            others_synced(F::fs_synced(old(fs)), F::fs_synced(final(fs)), old(self).handle().id()),
    {
        let index_handle = BlockHandle {
            offset: self.bytes_written,
            length: index_bytes.len() as u32,
            checksum: read_u32(index_bytes.as_slice(), index_bytes.len() - 4),
        };
        let meta_handle = BlockHandle { offset: data_end, length: 0, checksum: 0 };
        let footer = Footer::new_signed(index_handle, filter_handle, meta_handle);
        let header = FileHeader::new_signed(
            if self.crypto.is_some() {
                flag::CHECKSUMMED + flag::ENCRYPTED
            } else {
                flag::CHECKSUMMED
            },
            CompressionAlg::Uncompressed,
            self.checksum_alg,
            self.num_entries,
            self.num_blocks,
            if self.num_entries == 0 { 0 } else { self.min_seqno },
            self.max_seqno,
            data_end,
        );
        let r = self.write_tail(fs, index_bytes, &footer, &header);
        proof {
            lemma_assembled(
                data@,
                filter@,
                index_bytes@,
                footer,
                header,
                self.crypto_view() is Some,
            );
        }
        r
    }

    /// Write the filter, where there is one and a record that it could hold.
    fn write_filter(&mut self, fs: &mut F::Fs) -> (r: Result<BlockHandle>)
        requires
            is_open(&old(self).file, old(fs)),
            bytes_of(&old(self).file, old(fs)).len() == old(self).bytes_written,
            old(self).filter_view() matches Some(f) ==> f.wf(),
        ensures
            *final(self) == (SstWriter { bytes_written: final(self).bytes_written, ..*old(self) }),
            F::fs_state(old(fs)).only_changes(F::fs_state(final(fs)), old(self).file.id()),
            ({
                let filter = if old(self).num_entries > 0 { old(self).filter_view() } else { None };
                &&& r matches Ok(h) ==> bytes_of(&old(self).file, final(fs)) == bytes_of(
                    &old(self).file,
                    old(fs),
                ) + filter_bytes_of(filter) && bytes_of(&old(self).file, final(fs)).len() == final(self).bytes_written && h.length == filter_bytes_of(filter).len() && h.offset == old(self).bytes_written && h.checksum == (match filter {
                    Some(f) => crc32c::crc32c(f.encoded()),
                    None => 0,
                })
                &&& filter_bytes_of(filter).len() > u32::MAX ==> (r matches Err(e) && e@
                    == ErrorView::InvalidArgument("sstable filter too large"@))
                &&& filter_bytes_of(filter).len() <= u32::MAX && F::fs_reliable(old(fs)) ==> r is Ok
            }),
            F::fs_reliable(old(fs)) ==> F::fs_reliable(final(fs)),
            others_synced(F::fs_synced(old(fs)), F::fs_synced(final(fs)), old(self).handle().id()),
    {
        let ghost state0 = F::fs_state(fs);
        let ghost id = self.file.id();
        let offset: u64 = self.bytes_written;
        proof {
            assert(state0 =~= state0.with_bytes(id, state0.files[id]));
            assert(state0.files[id] + Seq::<u8>::empty() =~= state0.files[id]);
        }
        if self.num_entries == 0 {
            return Ok(BlockHandle { offset, length: 0, checksum: 0 });
        }
        match &self.bloom {
            None => Ok(BlockHandle { offset, length: 0, checksum: 0 }),
            Some(b) => {
                let encoded: Vec<u8> = b.encode();
                if encoded.len() as u64 > u32::MAX as u64 {
                    return Err(Error::InvalidArgument("sstable filter too large"));
                }
                let checksum: u32 = crc32c::hash(encoded.as_slice());
                match self.file.append(fs, encoded.as_slice()) {
                    Ok(_) => {},
                    Err(e) => {
                        return Err(e);
                    },
                }
                assert(encoded.len() == encoded@.len());
                self.bytes_written = self.bytes_written + encoded.len() as u64;
                Ok(BlockHandle { offset, length: encoded.len() as u32, checksum })
            },
        }
    }

    /// Write index and footer, fill in the header, and make it all durable.
    fn write_tail(
        &mut self,
        fs: &mut F::Fs,
        index: &Vec<u8>,
        footer: &Footer,
        header: &FileHeader,
    ) -> (r: Result<()>)
        requires
            is_open(&old(self).file, old(fs)),
            bytes_of(&old(self).file, old(fs)).len() == old(self).bytes_written,
            old(self).bytes_written >= FILE_HEADER_REGION_SIZE,
        ensures
            *final(self) == (SstWriter { bytes_written: final(self).bytes_written, ..*old(self) }),
            F::fs_state(old(fs)).only_changes(F::fs_state(final(fs)), old(self).file.id()),
            r is Ok ==> bytes_of(&old(self).file, final(fs)) == overwrite(
                bytes_of(&old(self).file, old(fs)) + index@ + footer.bytes(),
                0,
                header.bytes(),
            ),
            r is Ok ==> file_synced::<F>(final(fs), old(self).file.id()),
            F::fs_reliable(old(fs)) ==> r is Ok && F::fs_reliable(final(fs)),
            others_synced(F::fs_synced(old(fs)), F::fs_synced(final(fs)), old(self).handle().id()),
    {
        let ghost state0 = F::fs_state(fs);
        let ghost id = self.file.id();
        let footer_bytes: Vec<u8> = footer.as_bytes();
        let header_bytes: Vec<u8> = header.as_bytes();
        match self.file.append(fs, index.as_slice()) {
            Ok(_) => {},
            Err(e) => {
                return Err(e);
            },
        }
        let ghost state1 = F::fs_state(fs);
        assert(index.len() == index@.len());
        self.bytes_written = self.bytes_written + index.len() as u64;
        match self.file.append(fs, footer_bytes.as_slice()) {
            Ok(_) => {},
            Err(e) => {
                assert(F::fs_state(fs) =~= state0.with_bytes(id, F::fs_state(fs).files[id]));
                return Err(e);
            },
        }
        let ghost state2 = F::fs_state(fs);
        self.bytes_written = self.bytes_written + FOOTER_SIZE as u64;
        match self.file.write_at(fs, header_bytes.as_slice(), 0) {
            Ok(()) => {},
            Err(e) => {
                assert(F::fs_state(fs) =~= state0.with_bytes(id, F::fs_state(fs).files[id]));
                return Err(e);
            },
        }
        assert(F::fs_state(fs) =~= state0.with_bytes(id, F::fs_state(fs).files[id]));
        self.file.sync(fs)
    }
}

/// Weight up to which a table is never refused for its size.
pub const MAX_TABLE_WEIGHT: u64 = 0x7FFF_0000;

impl<F: VfsFile> SstWriter<F> {
    /// The records added fall into blocks as the target says.
    pub open spec fn in_order(&self) -> bool {
        &&& (self.sealed(), self.open_block()) == split_blocks(self.entries(), self.target())
        &&& adding_refusal(self.entries(), self.target(), self.crypto_view() is Some) is None
    }

    /// Adding a record to a writer in order.
    pub proof fn lemma_add_in_order(before: Self, after: Self, e: Entry)
        requires
            before.in_order(),
            after.same_settings(before),
        ensures
            adding_refusal(
                before.entries().push(e),
                before.target(),
                before.crypto_view() is Some,
            ) == before.refusal(e),
            before.refusal(e) is None && after.entries() == before.entries().push(e) && (
            if block_size(before.open_block().push(e)) >= before.target() {
                after.open_block().len() == 0 && after.sealed() == before.sealed().push(
                    before.open_block().push(e),
                )
            } else {
                after.sealed() == before.sealed()
            }) ==> after.in_order(),
    {
        let all = before.entries().push(e);
        assert(all.drop_last() =~= before.entries());
        if after.entries() == all {
            if block_size(before.open_block().push(e)) >= before.target() {
                if after.open_block().len() == 0 {
                    assert(after.open_block() =~= Seq::<Entry>::empty());
                }
            } else if after.sealed() == before.sealed() {
                let n = flat(before.sealed()).len() as int;
                assert(after.open_block() =~= all.subrange(n, all.len() as int));
                assert(before.open_block().push(e) =~= all.subrange(n, all.len() as int));
            }
        }
    }

    /// The number of records can be counted, and the position is the length of
    /// the file: a multiple of the alignment.
    pub proof fn lemma_count(&self, fs: &F::Fs)
        requires
            self.wf(fs),
        ensures
            self.entries().len() <= u64::MAX,
            is_open(&self.handle(), fs),
            bytes_of(&self.handle(), fs).len() == self.position(),
            self.position() >= FILE_HEADER_REGION_SIZE,
            self.position() % BLOCK_ALIGNMENT as u64 == 0,
    {
    }

    /// A record that leaves the table light enough is not refused.
    pub proof fn lemma_add_accepted(&self, e: Entry)
        requires
            weight(self.entries().push(e)) <= MAX_TABLE_WEIGHT,
        ensures
            self.refusal(e) is None,
    {
        let all = self.entries().push(e);
        let block = self.open_block().push(e);
        lemma_payload_bounds(all, all.len() - 1);
        assert(all =~= flat(self.sealed()) + block);
        lemma_payload_concat(flat(self.sealed()), block);
        lemma_size_bound(block);
    }

    /// A table that is light enough, with a filter that is not too large, can
    /// be finished.
    pub proof fn lemma_finish_accepted(&self, fs: &F::Fs)
        requires
            self.wf(fs),
            weight(self.entries()) <= MAX_TABLE_WEIGHT,
            self.filter_view() matches Some(f) ==> HEADER_SIZE + f.num_blocks * BLOCK_BYTES
                <= u32::MAX,
        ensures
            self.finish_refusal() is None,
    {
        let block = self.open_block();
        lemma_payload_concat(flat(self.sealed()), block);
        lemma_size_bound(block);
        let blocks = self.all_blocks();
        assert(flat(blocks) =~= self.entries()) by {
            if block.len() > 0 {
                lemma_flat_push(self.sealed(), block);
            }
        }
        assert forall|i: int| 0 <= i < blocks.len() implies (#[trigger] blocks[i]).len() > 0 by {
            reveal(all_placed);
            if i < self.sealed().len() {
                assert(block_placed(
                    bytes_of(&self.file, fs),
                    self.crypto_view(),
                    self.pending_index@[i].1,
                    self.blocks@[i],
                ));
            }
        }
        lemma_index_weight(blocks);
        lemma_size_bound(index_shape(blocks));
    }
}

/// The index weighs less than the blocks.
proof fn lemma_index_weight(blocks: Seq<Seq<Entry>>)
    requires
        forall|i: int| 0 <= i < blocks.len() ==> (#[trigger] blocks[i]).len() > 0,
    ensures
        payload(index_shape(blocks)) + 44 * blocks.len() <= weight(flat(blocks)),
    decreases blocks.len(),
{
    if blocks.len() > 0 {
        let front = blocks.drop_last();
        let last = blocks.last();
        assert forall|i: int| 0 <= i < front.len() implies (#[trigger] front[i]).len() > 0 by {
            assert(front[i] == blocks[i]);
        }
        lemma_index_weight(front);
        assert(blocks[blocks.len() - 1].len() > 0);
        lemma_payload_concat(flat(front), last);
        lemma_payload_bounds(last, last.len() - 1);
        let shape = index_shape(blocks);
        assert(shape.drop_last() =~= index_shape(front));
        (BlockHandle { offset: 0, length: 0, checksum: 0 }).law_round_trip();
        assert(shape.last().value.len() == 16);
        assert(shape.last().key == last.last().key);
    }
}

/// The index records of blocks, with handles left out.
pub open spec fn index_shape(blocks: Seq<Seq<Entry>>) -> Seq<Entry> {
    Seq::new(
        blocks.len(),
        |i: int|
            index_record(blocks[i].last().key, BlockHandle { offset: 0, length: 0, checksum: 0 }),
    )
}

/// What the blocks in place say of the index.
proof fn lemma_placed_index(
    bytes: Seq<u8>,
    crypto: Option<CryptoView>,
    pending: Seq<(Vec<u8>, BlockHandle)>,
    blocks: Seq<Seq<Entry>>,
)
    requires
        all_placed(bytes, crypto, pending, blocks),
    ensures
        block_size(index_records(pending)) == block_size(index_shape(blocks)),
        forall|i: int|
            0 <= i < pending.len() ==> (#[trigger] pending[i]).0@.len() <= u32::MAX,
{
    reveal(all_placed);
    lemma_index_shape(pending, blocks);
    assert forall|i: int| 0 <= i < pending.len() implies (#[trigger] pending[i]).0@.len()
        <= u32::MAX by {
        assert(block_placed(bytes, crypto, pending[i].1, blocks[i]));
    }
}

/// Handles do not change the size of the index.
proof fn lemma_index_shape(pending: Seq<(Vec<u8>, BlockHandle)>, blocks: Seq<Seq<Entry>>)
    requires
        pending.len() == blocks.len(),
        forall|i: int|
            #![trigger blocks[i]]
            0 <= i < blocks.len() ==> pending[i].0@ == blocks[i].last().key,
    ensures
        block_size(index_records(pending)) == block_size(index_shape(blocks)),
{
    let a = index_records(pending);
    let b = index_shape(blocks);
    assert forall|i: int| #![trigger a[i]] 0 <= i < a.len() implies a[i].key == b[i].key
        && a[i].value.len() == b[i].value.len() by {
        assert(blocks[i].last().key == pending[i].0@);
        pending[i].1.law_round_trip();
        (BlockHandle { offset: 0, length: 0, checksum: 0 }).law_round_trip();
    }
    lemma_same_size(a, b);
}

/// Filter, index and footer lie behind the data blocks.
spec fn tail_fits(t: TableView) -> bool {
    let end = t.header.data_blocks_end_offset;
    &&& t.footer.filter_handle.offset == end
    &&& t.footer.filter_handle.checksum == (match t.filter {
        Some(f) => crc32c::crc32c(f.encoded()),
        None => 0,
    })
    &&& t.footer.meta_handle == (BlockHandle { offset: end, length: 0, checksum: 0 })
    &&& t.footer.index_handle.offset == end + t.footer.filter_handle.length
    &&& t.footer.index_handle.length == t.index.len()
    &&& t.footer.index_handle.checksum == trailer(t.index)
}

/// The assembled table holds the blocks that were written.
proof fn lemma_finished(
    bytes: Seq<u8>,
    data: Seq<u8>,
    crypto: Option<CryptoView>,
    t: TableView,
    pending: Seq<(Vec<u8>, BlockHandle)>,
    blocks: Seq<Seq<Entry>>,
    min: u64,
    max: u64,
)
    requires
        keeps_blocks(data, bytes),
        all_placed(data, crypto, pending, blocks),
        t.index == block_bytes(index_records(pending)),
        block_fits(index_records(pending)),
        seqno_range(flat(blocks), min, max),
        t.header.num_entries == flat(blocks).len(),
        t.header.min_seqno == (if flat(blocks).len() == 0 { 0 } else { min }),
        t.header.max_seqno == max,
        filter_fits(t.filter, flat(blocks)),
        t.header.num_blocks == blocks.len(),
        t.header.data_blocks_end_offset == data.len(),
        data.len() % BLOCK_ALIGNMENT as nat == 0,
        tail_fits(t),
    ensures
        table_holds(bytes, crypto, t, blocks),
        sorted(flat(blocks)) ==> table_ok(bytes, crypto, t, blocks),
{
    let index = index_records(pending);
    lemma_all_stay(data, bytes, crypto, pending, blocks);
    lemma_built_block(index);
    assert(index_entries(t) == index);
    assert(header_fits(t.header, flat(blocks))) by {
        reveal(header_fits);
        reveal(seqno_range);
    }
    reveal(all_placed);
    assert forall|i: int| #![trigger blocks[i]] 0 <= i < blocks.len() implies index_entry_ok(
        bytes,
        crypto,
        index[i],
        blocks[i],
    ) by {
        reveal(index_entry_ok);
        lemma_handle_value(pending[i].1);
        assert(index[i] == index_record(pending[i].0@, pending[i].1));
    }
    assert(layout_fits(bytes, crypto, t)) by {
        reveal(layout_fits);
        assert forall|i: int| 0 <= i < index.len() implies ({
            let h = parse_handle((#[trigger] index[i]).value)->Ok_0;
            &&& h.offset % BLOCK_ALIGNMENT as u64 == 0
            &&& h.offset >= FILE_HEADER_REGION_SIZE
            &&& h.offset + h.length <= data.len()
            &&& h.checksum == trailer(block_plain(bytes, crypto, h)->Ok_0)
        }) by {
            lemma_handle_value(pending[i].1);
            assert(index[i] == index_record(pending[i].0@, pending[i].1));
            assert(block_placed(bytes, crypto, pending[i].1, blocks[i]));
            assert(block_placed(data, crypto, pending[i].1, blocks[i]));
        }
    }
    if sorted(flat(blocks)) {
        assert forall|i: int, j: int|
            #![trigger index[i], index[j]]
            0 <= i < j < index.len() implies entry_le(index[i], index[j]) by {
            lemma_flat_part(blocks, i);
            lemma_flat_part(blocks, j);
            lemma_flat_order(blocks, i, j);
            let at_i = flat(blocks.subrange(0, i)).len() as int;
            let at_j = flat(blocks.subrange(0, j)).len() as int;
            let last_i = at_i + blocks[i].len() - 1;
            let last_j = at_j + blocks[j].len() - 1;
            assert(block_placed(bytes, crypto, pending[i].1, blocks[i]));
            assert(block_placed(bytes, crypto, pending[j].1, blocks[j]));
            assert(flat(blocks).subrange(at_i, last_i + 1)[blocks[i].len() - 1]
                == blocks[i].last());
            assert(flat(blocks).subrange(at_j, last_j + 1)[blocks[j].len() - 1]
                == blocks[j].last());
            assert(entry_le(flat(blocks)[last_i], flat(blocks)[last_j]));
        }
    }
}

/// A later block starts behind an earlier one.
proof fn lemma_flat_order(blocks: Seq<Seq<Entry>>, i: int, j: int)
    requires
        0 <= i < j < blocks.len(),
    ensures
        flat(blocks.subrange(0, i)).len() + blocks[i].len() <= flat(blocks.subrange(0, j)).len(),
    decreases j - i,
{
    assert(blocks.subrange(0, j).drop_last() =~= blocks.subrange(0, j - 1));
    assert(blocks.subrange(0, j).last() == blocks[j - 1]);
    if i + 1 < j {
        lemma_flat_order(blocks, i, j - 1);
    }
}

/// A block only grows with its records.
proof fn lemma_size_grows(entries: Seq<Entry>, k: int)
    requires
        0 <= k <= entries.len(),
    ensures
        block_size(entries.subrange(0, k)) <= block_size(entries),
    decreases entries.len() - k,
{
    if k == entries.len() {
        assert(entries.subrange(0, k) =~= entries);
    } else {
        lemma_size_grows(entries, k + 1);
        let more = entries.subrange(0, k + 1);
        assert(more.drop_last() =~= entries.subrange(0, k));
    }
}

} // verus!
