//! What the bytes of an SSTable mean.
use vstd::prelude::*;

use crate::checksum::crc32c::{crc32c, one_byte_off};
use crate::crypto::aead::aes256gcm_opened;
use crate::crypto::envelope::{block_aad_bytes, block_nonce};
use crate::encoding::fixed::u32_from;
use crate::encoding::order::{lemma_lex_asymmetric, lemma_lex_total, lex_le, lex_lt};
use crate::error::{corruption, invalid_format, Error, ErrorView, Result};
use crate::filter::blocked_bloom::{parse_filter, FilterView};
use crate::model::{
    entry_le, lemma_lookup_concat, lemma_lookup_none, lemma_sorted_keys, lemma_sorted_subrange,
    lookup, sorted, visible, Entry,
};
use crate::sstable::block::{
    block_entries, found_run, index_at_least, law_block_damage_is_noticed, lemma_first_at,
    lemma_found_run, parse_block, restarts_fit,
};
use crate::sstable::format::{
    BlockHandle, FileHeader, Footer, BLOCK_ALIGNMENT, BLOCK_HANDLE_SIZE, FILE_HEADER_REGION_SIZE,
    FILE_HEADER_SIZE, FOOTER_SIZE,
};

verus! {

/// Key and identity under which a table's data blocks are encrypted.
#[verifier::ext_equal]
pub struct CryptoView {
    /// The table's key.
    pub key: Seq<u8>,
    /// The table's id, bound into every block's associated data.
    pub sstable_id: u64,
}

/// Why something could not be read: the file ends too early, or its bytes are
/// not accepted.
pub enum Fault {
    /// The file system reports an error.
    Io,
    /// The bytes are refused.
    Refused(ErrorView),
}

/// The error `e` tells of the fault `f`.
pub open spec fn shows(e: Error, f: Fault) -> bool {
    match f {
        Fault::Io => e is Io,
        Fault::Refused(v) => e@ == v,
    }
}

/// The operation failed with `f`, or because the file system did.
pub open spec fn failed_with<T>(r: Result<T>, f: Fault, reliable: bool) -> bool {
    r matches Err(e) && (shows(e, f) || (!reliable && e is Io))
}

/// The operation failed because the file system did.
pub open spec fn failed_io<T>(r: Result<T>, reliable: bool) -> bool {
    !reliable && (r matches Err(e) && e is Io)
}

/// What opening a table loads into memory.
#[verifier::ext_equal]
pub struct TableView {
    /// The file header.
    pub header: FileHeader,
    /// The footer.
    pub footer: Footer,
    /// Bytes of the index block.
    pub index: Seq<u8>,
    /// The filter, where the table has one.
    pub filter: Option<FilterView>,
}

/// The `len` bytes at `offset`.
pub open spec fn bytes_at(bytes: Seq<u8>, offset: nat, len: nat) -> core::result::Result<
    Seq<u8>,
    Fault,
> {
    if offset + len <= bytes.len() {
        Ok(bytes.subrange(offset as int, (offset + len) as int))
    } else {
        Err(Fault::Io)
    }
}

/// The header says that data blocks are encrypted.
pub open spec fn says_encrypted(header: FileHeader) -> bool {
    (header.flags / 2) % 2 == 1
}

/// What opening `bytes` as a table gives.
#[verifier::opaque]
pub open spec fn parse_table(bytes: Seq<u8>, encrypted: bool) -> core::result::Result<
    TableView,
    Fault,
> {
    let n = bytes.len() as int;
    let footer = Footer::parse(bytes.subrange(n - FOOTER_SIZE, n));
    let header = FileHeader::parse(bytes.subrange(0, FILE_HEADER_SIZE as int));
    if n < FILE_HEADER_SIZE + FOOTER_SIZE {
        Err(Fault::Refused(invalid_format("sstable"@, "file smaller than header + footer"@)))
    } else if !footer.valid() {
        Err(Fault::Refused(corruption("sstable footer"@, "checksum / magic mismatch"@)))
    } else if !header.valid() {
        Err(
            Fault::Refused(
                corruption(
                    "sstable file header"@,
                    "magic / version / reserved / checksum mismatch"@,
                ),
            ),
        )
    } else if says_encrypted(header) && !encrypted {
        Err(
            Fault::Refused(
                invalid_format(
                    "sstable"@,
                    "file is encrypted; open via SstReader::open_encrypted"@,
                ),
            ),
        )
    } else if !says_encrypted(header) && encrypted {
        Err(
            Fault::Refused(
                invalid_format("sstable"@, "file is not encrypted; open via SstReader::open"@),
            ),
        )
    } else {
        match bytes_at(
            bytes,
            footer.index_handle.offset as nat,
            footer.index_handle.length as nat,
        ) {
            Err(f) => Err(f),
            Ok(index) => if footer.filter_handle.length == 0 {
                Ok(TableView { header, footer, index, filter: None })
            } else {
                match bytes_at(
                    bytes,
                    footer.filter_handle.offset as nat,
                    footer.filter_handle.length as nat,
                ) {
                    Err(f) => Err(f),
                    Ok(filter_bytes) => match parse_filter(filter_bytes) {
                        Err(e) => Err(Fault::Refused(e)),
                        Ok(filter) => Ok(TableView { header, footer, index, filter: Some(filter) }),
                    },
                }
            },
        }
    }
}

/// A file that opens as a table holds a header and a footer.
pub proof fn lemma_table_len(bytes: Seq<u8>, encrypted: bool)
    requires
        parse_table(bytes, encrypted) is Ok,
    ensures
        bytes.len() >= FILE_HEADER_SIZE + FOOTER_SIZE,
{
    reveal(parse_table);
}

/// The plain bytes of the block that `h` points to.
#[verifier::opaque]
pub open spec fn block_plain(bytes: Seq<u8>, crypto: Option<CryptoView>, h: BlockHandle) ->
    core::result::Result<Seq<u8>, Fault> {
    match bytes_at(bytes, h.offset as nat, h.length as nat) {
        Err(f) => Err(f),
        Ok(on_disk) => match crypto {
            None => Ok(on_disk),
            Some(c) => match aes256gcm_opened(
                c.key,
                block_nonce(h.offset),
                block_aad_bytes(c.sstable_id, h.offset),
                on_disk,
            ) {
                Some(plain) => Ok(plain),
                None => Err(
                    Fault::Refused(
                        corruption(
                            "sstable data block"@,
                            "AEAD authentication failed (corruption or wrong key)"@,
                        ),
                    ),
                ),
            },
        },
    }
}

/// The entries of the block that `h` points to.
pub open spec fn read_block(bytes: Seq<u8>, crypto: Option<CryptoView>, h: BlockHandle) ->
    core::result::Result<Seq<Entry>, Fault> {
    match block_plain(bytes, crypto, h) {
        Err(f) => Err(f),
        Ok(plain) => match block_entries(plain) {
            Err(e) => Err(Fault::Refused(e)),
            Ok(entries) => Ok(entries),
        },
    }
}

/// The handle that an index value holds.
pub open spec fn parse_handle(value: Seq<u8>) -> core::result::Result<BlockHandle, ErrorView> {
    if value.len() < BLOCK_HANDLE_SIZE {
        Err(invalid_format("sstable index value"@, "shorter than BlockHandle"@))
    } else {
        Ok(BlockHandle::parse(value.subrange(0, BLOCK_HANDLE_SIZE as int)))
    }
}

/// The entries of all blocks from index entry `i` on, or the first fault.
pub open spec fn scan_from(
    bytes: Seq<u8>,
    crypto: Option<CryptoView>,
    index: Seq<Entry>,
    i: nat,
) -> core::result::Result<Seq<Entry>, Fault>
    decreases index.len() - i,
{
    if i >= index.len() {
        Ok(Seq::empty())
    } else {
        match parse_handle(index[i as int].value) {
            Err(e) => Err(Fault::Refused(e)),
            Ok(h) => match read_block(bytes, crypto, h) {
                Err(f) => Err(f),
                Ok(entries) => match scan_from(bytes, crypto, index, i + 1) {
                    Err(f) => Err(f),
                    Ok(more) => Ok(entries + more),
                },
            },
        }
    }
}

/// All entries of an opened table, or the first fault.
pub open spec fn scan_table(bytes: Seq<u8>, crypto: Option<CryptoView>, table: TableView) ->
    core::result::Result<Seq<Entry>, Fault> {
    match block_entries(table.index) {
        Err(e) => Err(Fault::Refused(e)),
        Ok(index) => scan_from(bytes, crypto, index, 0),
    }
}

/// The handles that index entries hold, or the first refusal.
pub open spec fn parse_handles(index: Seq<Entry>) -> core::result::Result<
    Seq<BlockHandle>,
    ErrorView,
>
    decreases index.len(),
{
    if index.len() == 0 {
        Ok(Seq::empty())
    } else {
        match parse_handles(index.drop_last()) {
            Err(e) => Err(e),
            Ok(handles) => match parse_handle(index.last().value) {
                Err(e) => Err(e),
                Ok(h) => Ok(handles.push(h)),
            },
        }
    }
}

/// The entries of the blocks from handle `i` on, up to the first fault, and
/// that fault.
pub open spec fn stream_from(
    bytes: Seq<u8>,
    crypto: Option<CryptoView>,
    handles: Seq<BlockHandle>,
    i: nat,
) -> (Seq<Entry>, Option<Fault>)
    decreases handles.len() - i,
{
    if i >= handles.len() {
        (Seq::empty(), None)
    } else {
        match read_block(bytes, crypto, handles[i as int]) {
            Err(f) => (Seq::empty(), Some(f)),
            Ok(entries) => {
                let (more, end) = stream_from(bytes, crypto, handles, i + 1);
                (entries + more, end)
            },
        }
    }
}

/// What a walk over the entries from the first one at or behind `key` finds:
/// the first visible version of `key`. The walk ends at the first entry of
/// another key; the flag says that it did not meet one.
pub open spec fn walk(run: Seq<Entry>, key: Seq<u8>, snapshot: u64) -> (Option<Entry>, bool)
    decreases run.len(),
{
    if run.len() == 0 {
        (None, true)
    } else if run[0].key != key {
        (None, false)
    } else if run[0].seqno <= snapshot {
        (Some(run[0]), false)
    } else {
        walk(run.subrange(1, run.len() as int), key, snapshot)
    }
}

/// What looking for `key` in a block finds, and whether the versions of `key`
/// may go on in the next one.
pub open spec fn find_in(plain: Seq<u8>, key: Seq<u8>, snapshot: u64) -> core::result::Result<
    (Option<Entry>, bool),
    ErrorView,
> {
    match parse_block(plain) {
        Err(e) => Err(e),
        Ok((records, restarts)) => {
            let found = found_run(records, restarts, key);
            if found.len() == 0 {
                Ok((None, false))
            } else {
                Ok(walk(found, key, snapshot))
            }
        },
    }
}

/// What a lookup answers that starts at entry `i` of `index`.
pub open spec fn find_from(
    bytes: Seq<u8>,
    crypto: Option<CryptoView>,
    index: Seq<Entry>,
    i: int,
    key: Seq<u8>,
    snapshot: u64,
) -> core::result::Result<Option<Entry>, Fault>
    decreases index.len() - i,
{
    if i < 0 || i >= index.len() {
        Ok(None)
    } else {
        match parse_handle(index[i].value) {
            Err(e) => Err(Fault::Refused(e)),
            Ok(h) => match block_plain(bytes, crypto, h) {
                Err(f) => Err(f),
                Ok(plain) => match find_in(plain, key, snapshot) {
                    Err(e) => Err(Fault::Refused(e)),
                    Ok((Some(e), _)) => Ok(Some(e)),
                    Ok((None, more)) => if more {
                        find_from(bytes, crypto, index, i + 1, key, snapshot)
                    } else {
                        Ok(None)
                    },
                },
            },
        }
    }
}

/// What a lookup in an opened table answers: nothing where the filter rules
/// the key out, else what the blocks say from the one on that the index leads
/// to.
pub open spec fn table_get(
    bytes: Seq<u8>,
    crypto: Option<CryptoView>,
    table: TableView,
    key: Seq<u8>,
    snapshot: u64,
) -> core::result::Result<Option<Entry>, Fault> {
    if table.filter is Some && !table.filter->0.holds(key) {
        Ok(None)
    } else {
        match parse_block(table.index) {
            Err(e) => Err(Fault::Refused(e)),
            Ok((records, restarts)) => find_from(
                bytes,
                crypto,
                found_run(records, restarts, key),
                0,
                key,
                snapshot,
            ),
        }
    }
}

// ----- Sound tables -----

/// Runs one after another.
pub open spec fn flat(blocks: Seq<Seq<Entry>>) -> Seq<Entry>
    decreases blocks.len(),
{
    if blocks.len() == 0 {
        Seq::empty()
    } else {
        flat(blocks.drop_last()) + blocks.last()
    }
}

/// `plain` is a block of `entries`, with restarts that fit.
#[verifier::opaque]
pub open spec fn block_ok(plain: Seq<u8>, entries: Seq<Entry>) -> bool {
    &&& parse_block(plain) is Ok
    &&& block_entries(plain) == Ok::<Seq<Entry>, ErrorView>(entries)
    &&& exists|starts: Seq<int>|
        restarts_fit(
            parse_block(plain)->Ok_0.0,
            parse_block(plain)->Ok_0.1,
            entries,
            starts,
        )
}

/// Index entry `e` points to the block of `entries`, by its last key.
#[verifier::opaque]
pub open spec fn index_entry_ok(
    bytes: Seq<u8>,
    crypto: Option<CryptoView>,
    e: Entry,
    entries: Seq<Entry>,
) -> bool {
    &&& entries.len() > 0
    &&& e.key == entries.last().key
    &&& parse_handle(e.value) is Ok
    &&& block_plain(bytes, crypto, parse_handle(e.value)->Ok_0) is Ok
    &&& block_ok(block_plain(bytes, crypto, parse_handle(e.value)->Ok_0)->Ok_0, entries)
}

/// The index entries of a table.
pub open spec fn index_entries(table: TableView) -> Seq<Entry> {
    block_entries(table.index)->Ok_0
}

/// What the header says of the entries.
#[verifier::opaque]
pub open spec fn header_fits(header: FileHeader, entries: Seq<Entry>) -> bool {
    &&& header.num_entries == entries.len()
    &&& forall|i: int|
        #![trigger entries[i]]
        0 <= i < entries.len() ==> header.min_seqno <= entries[i].seqno <= header.max_seqno
    &&& entries.len() == 0 ==> header.max_seqno == 0 && header.min_seqno == 0
    &&& entries.len() > 0 ==> (exists|i: int|
        0 <= i < entries.len() && #[trigger] entries[i].seqno == header.max_seqno)
    &&& entries.len() > 0 ==> (exists|i: int|
        0 <= i < entries.len() && #[trigger] entries[i].seqno == header.min_seqno)
}

/// The checksum that a block ends with.
pub open spec fn trailer(plain: Seq<u8>) -> u32 {
    u32_from(plain.subrange(plain.len() - 4, plain.len() as int))
}

/// Where the parts of a table lie: data blocks at multiples of the alignment,
/// then the filter, then the index. Every handle holds the checksum of its
/// part.
#[verifier::opaque]
pub open spec fn layout_fits(bytes: Seq<u8>, crypto: Option<CryptoView>, table: TableView) -> bool {
    let index = index_entries(table);
    let end = table.header.data_blocks_end_offset;
    let footer = table.footer;
    &&& table.header.num_blocks == index.len()
    &&& forall|i: int|
        0 <= i < index.len() ==> ({
            let h = parse_handle((#[trigger] index[i]).value)->Ok_0;
            &&& h.offset % BLOCK_ALIGNMENT as u64 == 0
            &&& h.offset >= FILE_HEADER_REGION_SIZE
            &&& h.offset + h.length <= end
            &&& h.checksum == trailer(block_plain(bytes, crypto, h)->Ok_0)
        })
    &&& end % BLOCK_ALIGNMENT as u64 == 0
    &&& footer.filter_handle.offset == end
    &&& footer.filter_handle.checksum == (match table.filter {
        Some(f) => crc32c(f.encoded()),
        None => 0,
    })
    &&& footer.meta_handle == (BlockHandle { offset: end, length: 0, checksum: 0 })
    &&& footer.index_handle.offset == end + footer.filter_handle.length
    &&& footer.index_handle.length == table.index.len()
    &&& footer.index_handle.checksum == trailer(table.index)
}

/// The keys of entries.
pub open spec fn keys_of(entries: Seq<Entry>) -> Seq<Seq<u8>> {
    entries.map_values(|e: Entry| e.key)
}

/// The filter, where there is one, is that of exactly the entries' keys, and
/// lets every one of them pass.
#[verifier::opaque]
pub open spec fn filter_fits(filter: Option<FilterView>, entries: Seq<Entry>) -> bool {
    filter matches Some(f) ==> f.built_from(keys_of(entries)) && forall|i: int|
        #![trigger entries[i]]
        0 <= i < entries.len() ==> f.holds(entries[i].key)
}

/// The opened table holds `blocks`: the index leads to each of them, header
/// and filter fit their entries, and every part lies where it should.
pub open spec fn table_holds(
    bytes: Seq<u8>,
    crypto: Option<CryptoView>,
    table: TableView,
    blocks: Seq<Seq<Entry>>,
) -> bool {
    let index = index_entries(table);
    &&& block_entries(table.index) is Ok
    &&& block_ok(table.index, index)
    &&& index.len() == blocks.len()
    &&& forall|i: int|
        #![trigger blocks[i]]
        0 <= i < blocks.len() ==> index_entry_ok(bytes, crypto, index[i], blocks[i])
    &&& header_fits(table.header, flat(blocks))
    &&& filter_fits(table.filter, flat(blocks))
    &&& layout_fits(bytes, crypto, table)
}

/// The opened table is sound: it holds `blocks`, and they are sorted as a
/// whole.
pub open spec fn table_ok(
    bytes: Seq<u8>,
    crypto: Option<CryptoView>,
    table: TableView,
    blocks: Seq<Seq<Entry>>,
) -> bool {
    &&& table_holds(bytes, crypto, table, blocks)
    &&& sorted(index_entries(table))
    &&& sorted(flat(blocks))
}

/// `bytes` is a complete, sound table that holds `entries`.
pub open spec fn is_table(bytes: Seq<u8>, crypto: Option<CryptoView>, entries: Seq<Entry>) -> bool {
    &&& parse_table(bytes, crypto is Some) is Ok
    &&& exists|blocks: Seq<Seq<Entry>>|
        #[trigger] table_ok(bytes, crypto, parse_table(bytes, crypto is Some)->Ok_0, blocks)
            && flat(blocks) == entries
}

// ----- Lemmas -----

/// The first block can be taken off the front.
pub proof fn lemma_flat_front(blocks: Seq<Seq<Entry>>, i: int)
    requires
        0 <= i < blocks.len(),
    ensures
        flat(blocks.subrange(i, blocks.len() as int)) == blocks[i] + flat(
            blocks.subrange(i + 1, blocks.len() as int),
        ),
    decreases blocks.len(),
{
    let n = blocks.len() as int;
    let here = blocks.subrange(i, n);
    let rest = blocks.subrange(i + 1, n);
    if i == n - 1 {
        assert(here.drop_last() =~= Seq::empty());
        assert(rest =~= Seq::empty());
        assert(here.last() == blocks[i]);
        assert(flat(here) == flat(here.drop_last()) + blocks[i]);
        assert(flat(here) =~= blocks[i]);
        assert(blocks[i] + flat(rest) =~= blocks[i]);
    } else {
        let front = blocks.drop_last();
        lemma_flat_front(front, i);
        assert(here.drop_last() =~= front.subrange(i, n - 1));
        assert(rest.drop_last() =~= front.subrange(i + 1, n - 1));
        assert(flat(here) =~= blocks[i] + flat(rest));
    }
}

/// The runs split at any place.
pub proof fn lemma_flat_split(blocks: Seq<Seq<Entry>>, i: int)
    requires
        0 <= i <= blocks.len(),
    ensures
        flat(blocks) == flat(blocks.subrange(0, i)) + flat(
            blocks.subrange(i, blocks.len() as int),
        ),
    decreases i,
{
    let n = blocks.len() as int;
    if i == 0 {
        assert(blocks.subrange(0, 0) =~= Seq::empty());
        assert(blocks.subrange(0, n) =~= blocks);
        assert(flat(blocks) =~= flat(blocks.subrange(0, 0)) + flat(blocks));
    } else {
        lemma_flat_split(blocks, i - 1);
        lemma_flat_front(blocks, i - 1);
        assert(blocks.subrange(0, i).drop_last() =~= blocks.subrange(0, i - 1));
        assert(flat(blocks) =~= flat(blocks.subrange(0, i)) + flat(blocks.subrange(i, n)));
    }
}

/// Adding a run at the end.
pub proof fn lemma_flat_push(blocks: Seq<Seq<Entry>>, b: Seq<Entry>)
    ensures
        flat(blocks.push(b)) == flat(blocks) + b,
{
    assert(blocks.push(b).drop_last() =~= blocks);
}

/// Where index entry `i` of a sound table leads.
pub proof fn lemma_index_entry(
    bytes: Seq<u8>,
    crypto: Option<CryptoView>,
    table: TableView,
    blocks: Seq<Seq<Entry>>,
    i: int,
)
    requires
        table_holds(bytes, crypto, table, blocks),
        0 <= i < blocks.len(),
    ensures
        ({
            let e = index_entries(table)[i];
            let h = parse_handle(e.value)->Ok_0;
            let plain = block_plain(bytes, crypto, h)->Ok_0;
            &&& blocks[i].len() > 0
            &&& e.key == blocks[i].last().key
            &&& parse_handle(e.value) is Ok
            &&& block_plain(bytes, crypto, h) is Ok
            &&& block_ok(plain, blocks[i])
            &&& read_block(bytes, crypto, h) == Ok::<Seq<Entry>, Fault>(blocks[i])
        }),
{
    reveal(index_entry_ok);
    reveal(block_ok);
    assert(index_entry_ok(bytes, crypto, index_entries(table)[i], blocks[i]));
}

/// Scanning a sound table gives its entries.
pub proof fn lemma_scan_sound(
    bytes: Seq<u8>,
    crypto: Option<CryptoView>,
    table: TableView,
    blocks: Seq<Seq<Entry>>,
    i: nat,
)
    requires
        table_holds(bytes, crypto, table, blocks),
        i <= blocks.len(),
    ensures
        scan_from(bytes, crypto, index_entries(table), i) == Ok::<Seq<Entry>, Fault>(
            flat(blocks.subrange(i as int, blocks.len() as int)),
        ),
    decreases blocks.len() - i,
{
    let n = blocks.len() as int;
    if i < n {
        lemma_scan_sound(bytes, crypto, table, blocks, i + 1);
        lemma_flat_front(blocks, i as int);
        lemma_index_entry(bytes, crypto, table, blocks, i as int);
    } else {
        assert(blocks.subrange(n, n) =~= Seq::empty());
    }
}

/// The handles of a sound table.
pub proof fn lemma_handles_sound(
    bytes: Seq<u8>,
    crypto: Option<CryptoView>,
    table: TableView,
    blocks: Seq<Seq<Entry>>,
    n: int,
)
    requires
        table_holds(bytes, crypto, table, blocks),
        0 <= n <= blocks.len(),
    ensures
        ({
            let r = parse_handles(index_entries(table).subrange(0, n));
            &&& r is Ok
            &&& r->Ok_0.len() == n
            &&& forall|i: int|
                #![trigger r->Ok_0[i]]
                0 <= i < n ==> parse_handle(index_entries(table)[i].value) == Ok::<
                    BlockHandle,
                    ErrorView,
                >(r->Ok_0[i])
        }),
    decreases n,
{
    let index = index_entries(table);
    let now = index.subrange(0, n);
    if n > 0 {
        lemma_handles_sound(bytes, crypto, table, blocks, n - 1);
        assert(now.drop_last() =~= index.subrange(0, n - 1));
        lemma_index_entry(bytes, crypto, table, blocks, n - 1);
    }
}

/// Streaming a sound table gives its entries and no fault.
pub proof fn lemma_stream_sound(
    bytes: Seq<u8>,
    crypto: Option<CryptoView>,
    table: TableView,
    blocks: Seq<Seq<Entry>>,
    handles: Seq<BlockHandle>,
    i: nat,
)
    requires
        table_holds(bytes, crypto, table, blocks),
        parse_handles(index_entries(table)) == Ok::<Seq<BlockHandle>, ErrorView>(handles),
        i <= blocks.len(),
    ensures
        handles.len() == blocks.len(),
        stream_from(bytes, crypto, handles, i) == (
            flat(blocks.subrange(i as int, blocks.len() as int)),
            None::<Fault>,
        ),
    decreases blocks.len() - i,
{
    let n = blocks.len() as int;
    let index = index_entries(table);
    lemma_handles_sound(bytes, crypto, table, blocks, n);
    assert(index.subrange(0, n) =~= index);
    if i < n {
        lemma_stream_sound(bytes, crypto, table, blocks, handles, i + 1);
        lemma_flat_front(blocks, i as int);
        lemma_index_entry(bytes, crypto, table, blocks, i as int);
        assert(parse_handle(index[i as int].value) == Ok::<BlockHandle, ErrorView>(
            handles[i as int],
        ));
    } else {
        assert(blocks.subrange(n, n) =~= Seq::empty());
    }
}

/// Block `i` is the part of the whole that starts where the blocks before it
/// end.
pub proof fn lemma_flat_part(blocks: Seq<Seq<Entry>>, i: int)
    requires
        0 <= i < blocks.len(),
    ensures
        ({
            let at = flat(blocks.subrange(0, i)).len() as int;
            let end = at + blocks[i].len();
            &&& end <= flat(blocks).len()
            &&& flat(blocks).subrange(at, end) == blocks[i]
            &&& flat(blocks).subrange(end, flat(blocks).len() as int) == flat(
                blocks.subrange(i + 1, blocks.len() as int),
            )
        }),
{
    let n = blocks.len() as int;
    lemma_flat_split(blocks, i);
    lemma_flat_front(blocks, i);
    let at = flat(blocks.subrange(0, i)).len() as int;
    let end = at + blocks[i].len();
    assert(flat(blocks).subrange(at, end) =~= blocks[i]);
    assert(flat(blocks).subrange(end, flat(blocks).len() as int) =~= flat(
        blocks.subrange(i + 1, n),
    ));
}

/// A walk over sorted entries finds what a lookup does, and goes on past their
/// end where the last one is of the key.
proof fn lemma_walk(run: Seq<Entry>, key: Seq<u8>, snapshot: u64)
    requires
        sorted(run),
        run.len() > 0 ==> lex_le(key, run[0].key),
    ensures
        walk(run, key, snapshot).0 == lookup(run, key, snapshot),
        run.len() > 0 && walk(run, key, snapshot).0 is None ==> walk(run, key, snapshot).1 == (
        run.last().key == key),
    decreases run.len(),
{
    if run.len() == 0 {
    } else if run[0].key != key {
        assert forall|j: int| 0 <= j < run.len() implies (#[trigger] run[j]).key != key by {
            lemma_sorted_keys(run, 0, j);
            if run[j].key == key {
                lemma_lex_asymmetric(key, run[0].key);
            }
        }
        lemma_lookup_none(run, key, snapshot);
    } else {
        let rest = run.subrange(1, run.len() as int);
        lemma_sorted_subrange(run, 1, run.len() as int);
        if rest.len() > 0 {
            lemma_sorted_keys(run, 0, 1);
            assert(rest[0] == run[1]);
            assert(rest.last() == run.last());
        }
        lemma_walk(rest, key, snapshot);
    }
}

/// A search in a sound block finds its entries from the first one on that is
/// at or behind the key.
proof fn lemma_block_run(plain: Seq<u8>, entries: Seq<Entry>, key: Seq<u8>)
    requires
        block_ok(plain, entries),
        sorted(entries),
    ensures
        parse_block(plain) is Ok,
        found_run(parse_block(plain)->Ok_0.0, parse_block(plain)->Ok_0.1, key) == entries.subrange(
            index_at_least(entries, key),
            entries.len() as int,
        ),
{
    reveal(block_ok);
    let (records, restarts) = parse_block(plain)->Ok_0;
    let starts = choose|starts: Seq<int>| restarts_fit(records, restarts, entries, starts);
    lemma_found_run(records, restarts, entries, starts, key);
}

/// Looking for a key in a sound block finds what a lookup in its entries does.
proof fn lemma_find_in(plain: Seq<u8>, entries: Seq<Entry>, key: Seq<u8>, snapshot: u64)
    requires
        block_ok(plain, entries),
        sorted(entries),
        entries.len() > 0,
    ensures
        find_in(plain, key, snapshot) matches Ok((hit, more)) && hit == lookup(
            entries,
            key,
            snapshot,
        ) && (hit is None ==> more == (entries.last().key == key)),
{
    lemma_block_run(plain, entries, key);
    let i = lemma_first_at(entries, key);
    let n = entries.len() as int;
    let found = entries.subrange(i, n);
    let before = entries.subrange(0, i);
    assert(entries =~= before + found);
    lemma_lookup_none(before, key, snapshot);
    lemma_lookup_concat(before, found, key, snapshot);
    lemma_sorted_subrange(entries, i, n);
    lemma_walk(found, key, snapshot);
    if i == n {
        assert(!lex_le(key, entries[n - 1].key));
    } else {
        assert(found[0] == entries[i]);
        assert(found.last() == entries.last());
    }
}

/// A lookup that starts inside of a part of the index is one in the whole.
proof fn lemma_find_part(
    bytes: Seq<u8>,
    crypto: Option<CryptoView>,
    index: Seq<Entry>,
    at: int,
    i: int,
    key: Seq<u8>,
    snapshot: u64,
)
    requires
        0 <= at <= at + i <= index.len(),
        0 <= i,
    ensures
        find_from(
            bytes,
            crypto,
            index.subrange(at, index.len() as int),
            i,
            key,
            snapshot,
        ) == find_from(bytes, crypto, index, at + i, key, snapshot),
    decreases index.len() - at - i,
{
    if at + i < index.len() {
        lemma_find_part(bytes, crypto, index, at, i + 1, key, snapshot);
    }
}

/// A lookup that starts at a block of a sound table answers what the blocks
/// from there on hold.
proof fn lemma_find_sound(
    bytes: Seq<u8>,
    crypto: Option<CryptoView>,
    table: TableView,
    blocks: Seq<Seq<Entry>>,
    i: int,
    key: Seq<u8>,
    snapshot: u64,
)
    requires
        table_ok(bytes, crypto, table, blocks),
        0 <= i <= blocks.len(),
    ensures
        find_from(bytes, crypto, index_entries(table), i, key, snapshot) == Ok::<
            Option<Entry>,
            Fault,
        >(lookup(flat(blocks.subrange(i, blocks.len() as int)), key, snapshot)) || (i < blocks.len() && lex_lt(blocks[i].last().key, key)),
    decreases blocks.len() - i,
{
    let n = blocks.len() as int;
    let index = index_entries(table);
    if i == n {
        assert(blocks.subrange(n, n) =~= Seq::empty());
    } else if lex_lt(blocks[i].last().key, key) {
    } else {
        let entries = blocks[i];
        lemma_index_entry(bytes, crypto, table, blocks, i);
        lemma_flat_part(blocks, i);
        let at = flat(blocks.subrange(0, i)).len() as int;
        let end = at + entries.len();
        lemma_sorted_subrange(flat(blocks), at, end);
        lemma_flat_front(blocks, i);
        let plain = block_plain(bytes, crypto, parse_handle(index[i].value)->Ok_0)->Ok_0;
        lemma_find_in(plain, entries, key, snapshot);
        let rest = flat(blocks.subrange(i + 1, n));
        lemma_lookup_concat(entries, rest, key, snapshot);
        lemma_lex_total(entries.last().key, key);
        if lookup(entries, key, snapshot) is None {
            if entries.last().key == key {
                lemma_find_sound(bytes, crypto, table, blocks, i + 1, key, snapshot);
                if i + 1 < n {
                    lemma_index_entry(bytes, crypto, table, blocks, i + 1);
                    assert(entry_le(index[i], index[i + 1]));
                    if lex_lt(blocks[i + 1].last().key, key) {
                        lemma_lex_asymmetric(key, blocks[i + 1].last().key);
                        crate::encoding::order::lemma_lex_irreflexive(key);
                    }
                }
            } else {
                assert forall|j: int| 0 <= j < rest.len() implies !visible(
                    #[trigger] rest[j],
                    key,
                    snapshot,
                ) by {
                    assert(rest[j] == flat(blocks)[end + j]);
                    assert(entries.last() == flat(blocks)[end - 1]);
                    lemma_sorted_keys(flat(blocks), end - 1, end + j);
                    if rest[j].key == key {
                        lemma_lex_asymmetric(key, entries.last().key);
                    }
                }
                lemma_lookup_none(rest, key, snapshot);
            }
        }
    }
}

/// No version of the key stands in the blocks before the first one whose last
/// key is at or behind it.
proof fn lemma_none_before(
    bytes: Seq<u8>,
    crypto: Option<CryptoView>,
    table: TableView,
    blocks: Seq<Seq<Entry>>,
    key: Seq<u8>,
    snapshot: u64,
    i: int,
)
    requires
        table_ok(bytes, crypto, table, blocks),
        0 <= i <= blocks.len(),
        forall|j: int| 0 <= j < i ==> !lex_le(key, (#[trigger] index_entries(table)[j]).key),
    ensures
        forall|j: int|
            0 <= j < flat(blocks.subrange(0, i)).len() ==> !visible(
                #[trigger] flat(blocks.subrange(0, i))[j],
                key,
                snapshot,
            ),
{
    let index = index_entries(table);
    let all = flat(blocks);
    let before = flat(blocks.subrange(0, i));
    lemma_flat_split(blocks, i);
    assert forall|j: int| 0 <= j < before.len() implies !visible(
        #[trigger] before[j],
        key,
        snapshot,
    ) by {
        lemma_flat_part(blocks, i - 1);
        assert(i > 0) by {
            if i == 0 {
                assert(blocks.subrange(0, 0) =~= Seq::empty());
            }
        }
        assert(blocks.subrange(0, i).drop_last() =~= blocks.subrange(0, i - 1));
        assert(blocks.subrange(0, i).last() == blocks[i - 1]);
        lemma_index_entry(bytes, crypto, table, blocks, i - 1);
        let last = before.len() - 1;
        assert(before[last] == blocks[i - 1].last());
        assert(all[j] == before[j]);
        assert(all[last] == before[last]);
        lemma_sorted_keys(all, j, last);
        assert(!lex_le(key, index[i - 1].key));
    }
}

/// Law: a lookup in a sound table answers what a lookup in its entries does:
/// the first visible version of the key, wherever the blocks are cut.
pub proof fn law_table_get_is_lookup(
    bytes: Seq<u8>,
    crypto: Option<CryptoView>,
    table: TableView,
    blocks: Seq<Seq<Entry>>,
    key: Seq<u8>,
    snapshot: u64,
)
    requires
        table_ok(bytes, crypto, table, blocks),
    ensures
        table_get(bytes, crypto, table, key, snapshot) == Ok::<Option<Entry>, Fault>(
            lookup(flat(blocks), key, snapshot),
        ),
{
    let n = blocks.len() as int;
    let index = index_entries(table);
    let all = flat(blocks);
    if table.filter is Some && !table.filter->0.holds(key) {
        reveal(filter_fits);
        assert forall|j: int| 0 <= j < all.len() implies !visible(
            #[trigger] all[j],
            key,
            snapshot,
        ) by {}
        lemma_lookup_none(all, key, snapshot);
    } else {
        let i = lemma_first_at(index, key);
        lemma_block_run(table.index, index, key);
        lemma_find_part(bytes, crypto, index, i, 0, key, snapshot);
        lemma_find_sound(bytes, crypto, table, blocks, i, key, snapshot);
        if i < n {
            lemma_index_entry(bytes, crypto, table, blocks, i);
            if lex_lt(blocks[i].last().key, key) {
                lemma_lex_asymmetric(key, blocks[i].last().key);
                crate::encoding::order::lemma_lex_irreflexive(key);
            }
        }
        let before = flat(blocks.subrange(0, i));
        lemma_flat_split(blocks, i);
        lemma_none_before(bytes, crypto, table, blocks, key, snapshot, i);
        lemma_lookup_none(before, key, snapshot);
        lemma_lookup_concat(before, flat(blocks.subrange(i, n)), key, snapshot);
    }
}

// ----- Damage -----

/// Law: what the header of a sound table tells of its records: how many there are, in
/// how many blocks, and between which sequence numbers, of which both occur. Blocks start
/// at multiples of 4096 behind the header, and end where the header says.
pub proof fn law_header_tells_of_the_records(
    bytes: Seq<u8>,
    crypto: Option<CryptoView>,
    table: TableView,
    blocks: Seq<Seq<Entry>>,
    i: int,
    j: int,
)
    requires
        table_ok(bytes, crypto, table, blocks),
    ensures
        ({
            let (h, all) = (table.header, flat(blocks));
            &&& h.num_entries == all.len()
            &&& h.num_blocks == blocks.len()
            &&& 0 <= i < all.len() ==> h.min_seqno <= all[i].seqno <= h.max_seqno
            &&& all.len() > 0 ==> exists|k: int|
                0 <= k < all.len() && #[trigger] all[k].seqno == h.min_seqno
            &&& all.len() > 0 ==> exists|k: int|
                0 <= k < all.len() && #[trigger] all[k].seqno == h.max_seqno
            &&& all.len() == 0 ==> h.min_seqno == 0 && h.max_seqno == 0
            &&& 0 <= j < blocks.len() ==> ({
                let b = handle_of(table, j);
                b.offset % 4096 == 0 && b.offset >= 4096 && b.offset + b.length
                    <= h.data_blocks_end_offset
            })
        }),
{
    reveal(header_fits);
    reveal(layout_fits);
}

/// Law: a key that the filter does not let pass is not in the table: a lookup gives
/// nothing, and no block is looked at, whatever became of it.
pub proof fn law_filter_rules_keys_out(
    bytes: Seq<u8>,
    crypto: Option<CryptoView>,
    table: TableView,
    key: Seq<u8>,
    snapshot: u64,
)
    requires
        table.filter matches Some(f) && !f.holds(key),
    ensures
        table_get(bytes, crypto, table, key, snapshot) == Ok::<Option<Entry>, Fault>(None),
{
}

/// Law: which bytes open as a table, and what is loaded of them. The header is the
/// first 64 bytes, the footer the last 64, and both are valid; the index and the
/// filter lie where the footer says, and the filter, unless it is empty, can be read;
/// and the table is encrypted where the second bit of its flags says so.
pub proof fn law_opened_table(bytes: Seq<u8>, encrypted: bool)
    requires
        bytes.len() >= 128,
    ensures
        ({
            let n = bytes.len() as int;
            let header = FileHeader::parse(bytes.subrange(0, 64));
            let footer = Footer::parse(bytes.subrange(n - 64, n));
            let (index_at, index_end) = (
                footer.index_handle.offset as int,
                footer.index_handle.offset + footer.index_handle.length,
            );
            let (filter_at, filter_end) = (
                footer.filter_handle.offset as int,
                footer.filter_handle.offset + footer.filter_handle.length,
            );
            let no_filter = filter_at == filter_end;
            &&& parse_table(bytes, encrypted) is Ok <==> header.valid() && footer.valid() && (
            encrypted <==> (header.flags / 2) % 2 == 1) && index_end <= n && (no_filter || filter_end
                <= n && parse_filter(bytes.subrange(filter_at, filter_end)) is Ok)
            &&& parse_table(bytes, encrypted) matches Ok(t) ==> {
                &&& t.header == header
                &&& t.footer == footer
                &&& t.index == bytes.subrange(index_at, index_end)
                &&& no_filter ==> t.filter is None
                &&& !no_filter ==> t.filter == Some(
                    parse_filter(bytes.subrange(filter_at, filter_end))->Ok_0,
                )
            }
        }),
{
    reveal(parse_table);
}

/// Law: a table opens either with a key or without one, never both ways: what was
/// written under a key is not read as plain bytes, nor the other way round.
pub proof fn law_encryption_is_told_apart(bytes: Seq<u8>)
    ensures
        !(parse_table(bytes, true) is Ok && parse_table(bytes, false) is Ok),
        parse_table(bytes, true) is Ok ==> (parse_table(bytes, false) matches Err(
            Fault::Refused(e),
        ) && e is InvalidFormat),
        parse_table(bytes, false) is Ok ==> (parse_table(bytes, true) matches Err(
            Fault::Refused(e),
        ) && e is InvalidFormat),
{
    reveal(parse_table);
}

/// The bytes hold a valid footer.
#[verifier::opaque]
spec fn is_footer(b: Seq<u8>) -> bool {
    Footer::parse(b).valid()
}

/// The bytes hold a valid header.
#[verifier::opaque]
spec fn is_header(b: Seq<u8>) -> bool {
    FileHeader::parse(b).valid()
}

/// Footer and header of a table that opens are valid.
proof fn lemma_ends(bytes: Seq<u8>, encrypted: bool)
    ensures
        ({
            let n = bytes.len() as int;
            let ends = is_footer(bytes.subrange(n - 64, n)) && is_header(bytes.subrange(0, 64));
            &&& parse_table(bytes, encrypted) is Ok ==> n >= 128 && ends
            &&& n >= 128 && !ends ==> (parse_table(bytes, encrypted) matches Err(
                Fault::Refused(e),
            ) && e is Corruption)
        }),
{
    reveal(parse_table);
    reveal(is_footer);
    reveal(is_header);
}

/// A part of damaged bytes is damaged where the damage lies inside.
proof fn lemma_part_off(good: Seq<u8>, bad: Seq<u8>, p: int, from: int, to: int)
    requires
        one_byte_off(good, bad, p),
        0 <= from <= to <= good.len(),
    ensures
        from <= p < to ==> one_byte_off(good.subrange(from, to), bad.subrange(from, to), p - from),
        p < from || p >= to ==> good.subrange(from, to) == bad.subrange(from, to),
{
    let (x, y) = (good.subrange(from, to), bad.subrange(from, to));
    assert forall|i: int| 0 <= i < x.len() && i != p - from implies #[trigger] x[i] == y[i] by {
        assert(good[i + from] == bad[i + from]);
    }
    if p < from || p >= to {
        assert(x =~= y);
    }
}

/// Law: a table with any one byte of its header or footer damaged does not open.
pub proof fn law_damaged_ends_do_not_open(good: Seq<u8>, bad: Seq<u8>, encrypted: bool, p: int)
    requires
        parse_table(good, encrypted) is Ok,
        one_byte_off(good, bad, p),
        p < 64 || p >= good.len() - 64,
    ensures
        parse_table(bad, encrypted) matches Err(Fault::Refused(e)) && e is Corruption,
{
    let n = good.len() as int;
    lemma_ends(good, encrypted);
    lemma_ends(bad, encrypted);
    lemma_part_off(good, bad, p, n - 64, n);
    lemma_part_off(good, bad, p, 0, 64);
    if p >= n - 64 {
        reveal(is_footer);
        Footer::law_damage_is_noticed(
            good.subrange(n - 64, n),
            bad.subrange(n - 64, n),
            p - (n - 64),
        );
    } else {
        reveal(is_header);
        FileHeader::law_damage_is_noticed(good.subrange(0, 64), bad.subrange(0, 64), p);
    }
}

/// Law: a plain block with any one byte damaged is refused for its checksum.
pub proof fn law_damaged_block_is_refused(
    good: Seq<u8>,
    bad: Seq<u8>,
    h: BlockHandle,
    p: int,
)
    requires
        read_block(good, None, h) is Ok,
        one_byte_off(good, bad, p),
        h.offset <= p < h.offset + h.length,
    ensures
        read_block(bad, None, h) matches Err(Fault::Refused(e)) && (
        e matches ErrorView::ChecksumMismatch { context, expected, found } && context
            == "sstable data block"@ && expected != found),
{
    reveal(block_plain);
    let (from, to) = (h.offset as int, h.offset + h.length);
    let (x, y) = (good.subrange(from, to), bad.subrange(from, to));
    lemma_part_off(good, bad, p, from, to);
    law_block_damage_is_noticed(x, y, p - from);
}

/// Law: an encrypted block that does not open under the table's key is refused.
pub proof fn law_unopened_block_is_refused(bytes: Seq<u8>, c: CryptoView, h: BlockHandle)
    requires
        h.offset + h.length <= bytes.len(),
        aes256gcm_opened(
            c.key,
            block_nonce(h.offset),
            block_aad_bytes(c.sstable_id, h.offset),
            bytes.subrange(h.offset as int, h.offset + h.length),
        ) is None,
    ensures
        read_block(bytes, Some(c), h) matches Err(Fault::Refused(e)) && e is Corruption,
{
    reveal(block_plain);
}

/// The handle of block `i` of a table.
pub open spec fn handle_of(table: TableView, i: int) -> BlockHandle {
    parse_handle(index_entries(table)[i].value)->Ok_0
}

/// `bad` is what became of a sound table whose bytes were `good`: the blocks
/// before `i` read as before, and block `i` cannot be read, for the reason `f`.
pub open spec fn broken_at(
    good: Seq<u8>,
    bad: Seq<u8>,
    crypto: Option<CryptoView>,
    table: TableView,
    blocks: Seq<Seq<Entry>>,
    i: int,
    f: Fault,
) -> bool {
    &&& 0 <= i < blocks.len()
    &&& forall|m: int|
        0 <= m < i ==> block_plain(bad, crypto, #[trigger] handle_of(table, m)) == block_plain(
            good,
            crypto,
            handle_of(table, m),
        )
    &&& read_block(bad, crypto, handle_of(table, i)) == Err::<Seq<Entry>, Fault>(f)
}

/// A lookup that starts at block `s` and has to go on to the broken one.
proof fn lemma_find_meets(
    good: Seq<u8>,
    bad: Seq<u8>,
    crypto: Option<CryptoView>,
    table: TableView,
    blocks: Seq<Seq<Entry>>,
    i: int,
    f: Fault,
    s: int,
    key: Seq<u8>,
    snapshot: u64,
)
    requires
        table_ok(good, crypto, table, blocks),
        broken_at(good, bad, crypto, table, blocks, i, f),
        0 <= s <= i,
        lex_le(key, blocks[s].last().key),
        exists|j: int| 0 <= j < blocks[i].len() && (#[trigger] blocks[i][j]).key == key,
        forall|m: int| s <= m < i ==> lookup(#[trigger] blocks[m], key, snapshot) is None,
    ensures
        find_from(bad, crypto, index_entries(table), s, key, snapshot) == Err::<
            Option<Entry>,
            Fault,
        >(f),
    decreases i - s,
{
    let index = index_entries(table);
    let all = flat(blocks);
    lemma_index_entry(good, crypto, table, blocks, s);
    if s < i {
        let entries = blocks[s];
        let plain = block_plain(good, crypto, handle_of(table, s))->Ok_0;
        assert(block_plain(bad, crypto, handle_of(table, s)) == block_plain(
            good,
            crypto,
            handle_of(table, s),
        ));
        let j = choose|j: int| 0 <= j < blocks[i].len() && (#[trigger] blocks[i][j]).key == key;
        lemma_flat_part(blocks, s);
        lemma_flat_part(blocks, i);
        lemma_flat_order(blocks, s, i);
        let at = flat(blocks.subrange(0, s)).len() as int;
        let end = at + entries.len();
        let there = flat(blocks.subrange(0, i)).len() + j;
        assert(all.subrange(at, end)[entries.len() - 1] == entries.last());
        assert(all.subrange(there - j, there - j + blocks[i].len())[j] == blocks[i][j]);
        assert(end - 1 < there);
        lemma_sorted_keys(all, end - 1, there);
        lemma_lex_total(entries.last().key, key);
        if lex_lt(key, entries.last().key) {
            lemma_lex_asymmetric(key, entries.last().key);
        }
        assert(entries.last().key == key);
        lemma_sorted_subrange(all, at, end);
        lemma_find_in(plain, entries, key, snapshot);
        assert(lookup(blocks[s], key, snapshot) is None);
        lemma_index_entry(good, crypto, table, blocks, s + 1);
        assert(entry_le(index[s], index[s + 1]));
        lemma_find_meets(good, bad, crypto, table, blocks, i, f, s + 1, key, snapshot);
    }
}

/// A later block starts behind an earlier one.
proof fn lemma_flat_order(blocks: Seq<Seq<Entry>>, i: int, j: int)
    requires
        0 <= i < j < blocks.len(),
    ensures
        flat(blocks.subrange(0, i)).len() + blocks[i].len() <= flat(blocks.subrange(0, j)).len(),
    decreases j - i,
{
    assert(blocks.subrange(0, j).drop_last() =~= blocks.subrange(0, j - 1));
    assert(blocks.subrange(0, j).last() == blocks[j - 1]);
    if i + 1 < j {
        lemma_flat_order(blocks, i, j - 1);
    }
}

/// Law: a lookup never passes over a block that cannot be read. Where a key
/// stands in such a block, and no earlier block holds a version that the reader
/// may see, the lookup fails for that reason; it finds neither nothing nor
/// something older.
pub proof fn law_lookup_meets_fault(
    good: Seq<u8>,
    bad: Seq<u8>,
    crypto: Option<CryptoView>,
    table: TableView,
    blocks: Seq<Seq<Entry>>,
    i: int,
    f: Fault,
    key: Seq<u8>,
    snapshot: u64,
)
    requires
        table_ok(good, crypto, table, blocks),
        broken_at(good, bad, crypto, table, blocks, i, f),
        exists|j: int| 0 <= j < blocks[i].len() && (#[trigger] blocks[i][j]).key == key,
        forall|m: int| 0 <= m < i ==> lookup(#[trigger] blocks[m], key, snapshot) is None,
    ensures
        table_get(bad, crypto, table, key, snapshot) == Err::<Option<Entry>, Fault>(f),
{
    let index = index_entries(table);
    let n = blocks.len() as int;
    let all = flat(blocks);
    let j = choose|j: int| 0 <= j < blocks[i].len() && (#[trigger] blocks[i][j]).key == key;
    lemma_flat_part(blocks, i);
    let there = flat(blocks.subrange(0, i)).len() + j;
    assert(all.subrange(there - j, there - j + blocks[i].len())[j] == blocks[i][j]);
    assert(all[there].key == key);
    assert(table.filter is Some ==> table.filter->0.holds(key)) by {
        reveal(filter_fits);
    }
    let s = lemma_first_at(index, key);
    lemma_index_entry(good, crypto, table, blocks, i);
    assert(lex_le(key, blocks[i].last().key)) by {
        let last = there - j + blocks[i].len() - 1;
        assert(all.subrange(there - j, last + 1)[blocks[i].len() - 1] == blocks[i].last());
        lemma_sorted_keys(all, there, last);
    }
    assert(s <= i) by {
        if s > i {
            assert(!lex_le(key, index[i].key));
        }
    }
    lemma_index_entry(good, crypto, table, blocks, s);
    lemma_block_run(table.index, index, key);
    lemma_find_part(bad, crypto, index, s, 0, key, snapshot);
    lemma_find_meets(good, bad, crypto, table, blocks, i, f, s, key, snapshot);
}

/// Scanning from block `s` on meets the fault.
proof fn lemma_scan_meets(
    good: Seq<u8>,
    bad: Seq<u8>,
    crypto: Option<CryptoView>,
    table: TableView,
    blocks: Seq<Seq<Entry>>,
    i: int,
    f: Fault,
    handles: Seq<BlockHandle>,
    s: int,
)
    requires
        table_holds(good, crypto, table, blocks),
        broken_at(good, bad, crypto, table, blocks, i, f),
        parse_handles(index_entries(table)) == Ok::<Seq<BlockHandle>, ErrorView>(handles),
        0 <= s <= i,
    ensures
        scan_from(bad, crypto, index_entries(table), s as nat) == Err::<Seq<Entry>, Fault>(f),
        stream_from(bad, crypto, handles, s as nat) == (flat(blocks.subrange(s, i)), Some(f)),
    decreases i - s,
{
    let index = index_entries(table);
    lemma_handles_sound(good, crypto, table, blocks, blocks.len() as int);
    assert(index.subrange(0, blocks.len() as int) =~= index);
    lemma_index_entry(good, crypto, table, blocks, s);
    assert(handles[s] == handle_of(table, s));
    if s == i {
        assert(blocks.subrange(s, i) =~= Seq::empty());
    } else {
        lemma_scan_meets(good, bad, crypto, table, blocks, i, f, handles, s + 1);
        assert(block_plain(bad, crypto, handle_of(table, s)) == block_plain(
            good,
            crypto,
            handle_of(table, s),
        ));
        let part = blocks.subrange(0, i);
        lemma_flat_front(part, s);
        assert(part.subrange(s, i) =~= blocks.subrange(s, i));
        assert(part.subrange(s + 1, i) =~= blocks.subrange(s + 1, i));
        assert(stream_from(bad, crypto, handles, s as nat).0 =~= flat(blocks.subrange(s, i)));
    }
}

/// Law: neither scanning nor streaming a table passes over a block that cannot
/// be read. A scan fails for that reason, and a stream gives the entries before
/// the block and then the fault.
pub proof fn law_scan_meets_fault(
    good: Seq<u8>,
    bad: Seq<u8>,
    crypto: Option<CryptoView>,
    table: TableView,
    blocks: Seq<Seq<Entry>>,
    i: int,
    f: Fault,
)
    requires
        table_holds(good, crypto, table, blocks),
        broken_at(good, bad, crypto, table, blocks, i, f),
    ensures
        scan_table(bad, crypto, table) == Err::<Seq<Entry>, Fault>(f),
        parse_handles(index_entries(table)) matches Ok(handles) && stream_from(
            bad,
            crypto,
            handles,
            0,
        ) == (flat(blocks.subrange(0, i)), Some(f)),
{
    let index = index_entries(table);
    lemma_handles_sound(good, crypto, table, blocks, blocks.len() as int);
    assert(index.subrange(0, blocks.len() as int) =~= index);
    lemma_scan_meets(
        good,
        bad,
        crypto,
        table,
        blocks,
        i,
        f,
        parse_handles(index)->Ok_0,
        0,
    );
}

/// Law: a table whose index has any one byte damaged is never taken for one
/// without the key. Where the filter lets a key pass, a lookup fails for the
/// checksum, and so does a scan.
pub proof fn law_damaged_index_is_refused(
    bytes: Seq<u8>,
    crypto: Option<CryptoView>,
    good: TableView,
    bad: TableView,
    p: int,
    key: Seq<u8>,
    snapshot: u64,
)
    requires
        parse_block(good.index) is Ok,
        one_byte_off(good.index, bad.index, p),
        bad.filter is Some ==> bad.filter->0.holds(key),
    ensures
        table_get(bytes, crypto, bad, key, snapshot) matches Err(Fault::Refused(e)) && e
            is ChecksumMismatch,
        scan_table(bytes, crypto, bad) matches Err(Fault::Refused(e)) && e is ChecksumMismatch,
{
    law_block_damage_is_noticed(good.index, bad.index, p);
}

} // verus!
