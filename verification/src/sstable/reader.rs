//! SSTable reader.
//!
//! Opens a complete SSTable file produced by
//! [`SstWriter`](crate::sstable::writer::SstWriter), parses its footer, loads
//! the index and the filter, and serves point lookups and scans. Data blocks
//! stay on disk and are loaded on demand.
use core::sync::atomic::AtomicU64;

use vstd::prelude::*;
use vstd::slice::slice_to_vec;

use crate::checksum::Algorithm;
use crate::crypto::aead::{Aead, AeadKey};
use crate::crypto::envelope::{block_aad, derive_block_nonce};
use crate::encoding::order::{compare_bytes, lemma_lex_irreflexive, Order};
use crate::error::{Error, ErrorView, Result};
use crate::filter::blocked_bloom::BlockedBloom;
use crate::io::vfs::{bytes_of, is_open, read_vec, VfsFile};
use crate::model::{lookup, sorted, Entry};
use crate::sstable::block::{block_entries, entry_of, found_run, BlockIter, BlockReader, RecordView};
use crate::sstable::format::{
    BlockHandle, FileHeader, Footer, RecordOp, BLOCK_HANDLE_SIZE, FILE_HEADER_SIZE, FOOTER_SIZE,
};
use crate::sstable::table::{
    block_plain, broken_at, failed_io, failed_with, find_from, find_in, flat, index_entries,
    law_scan_meets_fault, law_table_get_is_lookup, lemma_scan_sound, lemma_stream_sound,
    parse_handle, parse_handles, parse_table, scan_from, scan_table, shows, stream_from, table_get,
    table_holds, table_ok, walk, CryptoView, Fault, TableView,
};

verus! {

/// Per-SSTable decryption state, present when the file header carries the
/// `ENCRYPTED` flag.
pub(crate) struct DecryptionCtx {
    pub(crate) aead: Aead,
    pub(crate) sstable_id: u64,
}

/// Key and identity that an optional decryption state stands for.
pub(crate) open spec fn ctx_view(ctx: Option<DecryptionCtx>) -> Option<CryptoView> {
    match ctx {
        Some(c) => Some(CryptoView { key: c.aead@, sstable_id: c.sstable_id }),
        None => None,
    }
}

/// SSTable reader.
pub struct SstReader<F: VfsFile> {
    file: F,
    header: FileHeader,
    footer: Footer,
    index_bytes: Vec<u8>,
    bloom: Option<BlockedBloom>,
    /// Lookups that the filter answered. Only for observation, so a lost
    /// increment would be fine.
    bloom_misses_pruned: AtomicU64,
    crypto: Option<DecryptionCtx>,
}

/// Result of a successful point lookup.
#[derive(Debug, Clone)]
pub struct LookupHit {
    /// Sequence number stored on the record.
    pub seqno: u64,
    /// Operation tag.
    pub op: RecordOp,
    /// Value bytes (empty when `op` is a tombstone).
    pub value: Vec<u8>,
}

/// The entry that a hit on `key` stands for.
pub open spec fn hit_entry(key: Seq<u8>, hit: LookupHit) -> Entry {
    Entry { key, seqno: hit.seqno, op: hit.op, value: hit.value@ }
}

/// The entry that an optional hit on `key` stands for.
pub open spec fn answer_of(key: Seq<u8>, hit: Option<LookupHit>) -> Option<Entry> {
    match hit {
        Some(h) => Some(hit_entry(key, h)),
        None => None,
    }
}

/// The entry that a scanned record stands for.
pub open spec fn record_entry(r: (Vec<u8>, LookupHit)) -> Entry {
    hit_entry(r.0@, r.1)
}

/// The entries that scanned records stand for.
pub open spec fn record_entries(records: Seq<(Vec<u8>, LookupHit)>) -> Seq<Entry> {
    records.map_values(|r: (Vec<u8>, LookupHit)| record_entry(r))
}

/// What pulling from a stream does: it gives the first entry that is left, or
/// the end, or the fault behind the last entry.
pub open spec fn stream_step(
    before: (Seq<Entry>, Option<Fault>),
    r: Result<Option<(Vec<u8>, LookupHit)>>,
    after: (Seq<Entry>, Option<Fault>),
    reliable: bool,
) -> bool {
    if before.0.len() > 0 {
        ||| (r matches Ok(Some(rec)) && record_entry(rec) == before.0[0] && after == (
            before.0.subrange(1, before.0.len() as int),
            before.1,
        ))
        ||| failed_io(r, reliable)
    } else {
        match before.1 {
            Some(f) => failed_with(r, f, reliable),
            None => (r matches Ok(x) && x is None && after == before) || failed_io(r, reliable),
        }
    }
}

fn into_hit(rec: &RecordView<'_>) -> (hit: LookupHit)
    ensures
        hit_entry(rec.key@, hit) == rec@,
{
    LookupHit { seqno: rec.seqno, op: rec.op, value: slice_to_vec(rec.value) }
}

fn decode_block_handle(bytes: &[u8]) -> (r: Result<BlockHandle>)
    ensures
        match parse_handle(bytes@) {
            Ok(h) => r == Ok::<BlockHandle, Error>(h),
            Err(e) => r matches Err(x) && x@ == e,
        },
{
    if bytes.len() < BLOCK_HANDLE_SIZE {
        return Err(Error::invalid_format_static("sstable index value", "shorter than BlockHandle"));
    }
    Ok(BlockHandle::read(bytes, 0))
}

/// Decode every record of a block.
fn decode_block(bytes: &[u8]) -> (r: Result<Vec<(Vec<u8>, LookupHit)>>)
    ensures
        match block_entries(bytes@) {
            Ok(entries) => r matches Ok(v) && record_entries(v@) == entries,
            Err(e) => r matches Err(x) && x@ == e,
        },
{
    let reader = match BlockReader::open(bytes) {
        Ok(reader) => reader,
        Err(e) => {
            return Err(e);
        },
    };
    let mut out: Vec<(Vec<u8>, LookupHit)> = Vec::new();
    let mut it = reader.iter();
    let ghost all = it.remaining();
    let mut done: bool = false;
    assert(record_entries(out@) + it.remaining() =~= all);
    while !done
        invariant
            record_entries(out@) + it.remaining() == all,
            done ==> it.remaining().len() == 0,
        decreases it.remaining().len() + (if done { 0int } else { 1int }),
    {
        let ghost before = it.remaining();
        match it.next() {
            None => {
                done = true;
            },
            Some(rec) => {
                let hit = into_hit(&rec);
                let ghost gone = out@;
                out.push((rec.key, hit));
                assert(record_entries(out@) =~= record_entries(gone).push(before[0]));
                assert(record_entries(out@) + it.remaining() =~= record_entries(gone) + before);
            },
        }
    }
    assert(record_entries(out@) =~= all);
    Ok(out)
}

/// Decode the handles that an index block holds.
fn decode_index_handles(index_bytes: &[u8]) -> (r: Result<Vec<BlockHandle>>)
    ensures
        match block_entries(index_bytes@) {
            Err(e) => r matches Err(x) && x@ == e,
            Ok(index) => match parse_handles(index) {
                Err(e) => r matches Err(x) && x@ == e,
                Ok(handles) => r matches Ok(v) && v@ == handles,
            },
        },
{
    let reader = match BlockReader::open(index_bytes) {
        Ok(reader) => reader,
        Err(e) => {
            return Err(e);
        },
    };
    let mut out: Vec<BlockHandle> = Vec::new();
    let mut it = reader.iter();
    let ghost index = it.remaining();
    let ghost mut i: int = 0;
    let mut done: bool = false;
    assert(index.subrange(0, 0) =~= Seq::empty());
    assert(index.subrange(0, index.len() as int) =~= index);
    while !done
        invariant
            0 <= i <= index.len(),
            block_entries(index_bytes@) == Ok::<Seq<Entry>, ErrorView>(index),
            it.remaining() == index.subrange(i, index.len() as int),
            parse_handles(index.subrange(0, i)) == Ok::<Seq<BlockHandle>, ErrorView>(out@),
            done ==> i == index.len(),
        decreases it.remaining().len() + (if done { 0int } else { 1int }),
    {
        match it.next() {
            None => {
                done = true;
            },
            Some(rec) => {
                let ghost now = index.subrange(0, i + 1);
                assert(now.drop_last() =~= index.subrange(0, i));
                assert(rec@ == index[i]);
                match decode_block_handle(rec.value) {
                    Ok(h) => {
                        out.push(h);
                    },
                    Err(e) => {
                        proof {
                            lemma_handles_fault(index, i + 1);
                        }
                        return Err(e);
                    },
                }
                proof {
                    assert(it.remaining() =~= index.subrange(i + 1, index.len() as int));
                    i = i + 1;
                }
            },
        }
    }
    assert(index.subrange(0, i) =~= index);
    Ok(out)
}

/// A refused handle refuses every longer list.
proof fn lemma_handles_fault(index: Seq<Entry>, n: int)
    requires
        0 <= n <= index.len(),
        parse_handles(index.subrange(0, n)) is Err,
    ensures
        parse_handles(index) == parse_handles(index.subrange(0, n)),
    decreases index.len() - n,
{
    if n == index.len() {
        assert(index.subrange(0, n) =~= index);
    } else {
        assert(index.subrange(0, n + 1).drop_last() =~= index.subrange(0, n));
        lemma_handles_fault(index, n + 1);
    }
}

/// Look for `key` in a block. Gives the first visible version, and whether
/// the block ends in versions of `key` that are all too new.
fn find_in_block(plain: &[u8], key: &[u8], snapshot: u64) -> (r: Result<(Option<LookupHit>, bool)>)
    ensures
        match find_in(plain@, key@, snapshot) {
            Err(e) => r matches Err(x) && x@ == e,
            Ok((answer, goes_on)) => r matches Ok((hit, more)) && answer_of(key@, hit) == answer
                && more == goes_on,
        },
{
    let reader = match BlockReader::open(plain) {
        Ok(reader) => reader,
        Err(e) => {
            return Err(e);
        },
    };
    let ghost found = found_run(reader.record_bytes(), reader.restarts(), key@);
    let (first, rest) = reader.seek_from(key);
    let mut cur: Option<RecordView> = first;
    let mut it: BlockIter = rest;
    if cur.is_none() {
        return Ok((None, false));
    }
    let ghost mut run = found;
    while cur.is_some()
        invariant
            find_in(plain@, key@, snapshot) == Ok::<(Option<Entry>, bool), ErrorView>(
                walk(run, key@, snapshot),
            ),
            if run.len() > 0 {
                entry_of(cur) == Some(run[0]) && it.remaining() == run.subrange(1, run.len() as int)
            } else {
                cur is None
            },
        decreases it.remaining().len() + (if cur is Some { 1int } else { 0int }),
    {
        match cur {
            None => {},
            Some(rec) => {
                match compare_bytes(rec.key.as_slice(), key) {
                    Order::Equal => {},
                    Order::Less | Order::Greater => {
                        proof {
                            lemma_lex_irreflexive(key@);
                        }
                        return Ok((None, false));
                    },
                }
                if rec.seqno <= snapshot {
                    return Ok((Some(into_hit(&rec)), false));
                }
                let next = it.next();
                proof {
                    run = run.subrange(1, run.len() as int);
                }
                cur = next;
            },
        }
    }
    Ok((None, true))
}

impl<F: VfsFile> SstReader<F> {
    /// What opening the file loaded.
    pub closed spec fn table(&self) -> TableView {
        TableView {
            header: self.header,
            footer: self.footer,
            index: self.index_bytes@,
            filter: match self.bloom {
                Some(b) => Some(b@),
                None => None,
            },
        }
    }

    /// Key and identity for decryption.
    pub closed spec fn crypto_view(&self) -> Option<CryptoView> {
        ctx_view(self.crypto)
    }

    /// The file behind the reader.
    pub closed spec fn handle(&self) -> F {
        self.file
    }

    /// Why the index cannot be read, if so.
    pub open spec fn index_fault(&self) -> Option<ErrorView> {
        match block_entries(self.table().index) {
            Err(e) => Some(e),
            Ok(index) => match parse_handles(index) {
                Err(e) => Some(e),
                Ok(_) => None,
            },
        }
    }

    /// The entries that streaming the table gives, and the fault after them
    /// where there is one.
    pub open spec fn queue(&self, fs: &F::Fs) -> (Seq<Entry>, Option<Fault>) {
        match self.index_fault() {
            Some(e) => (Seq::empty(), Some(Fault::Refused(e))),
            None => stream_from(
                bytes_of(&self.handle(), fs),
                self.crypto_view(),
                parse_handles(index_entries(self.table()))->Ok_0,
                0,
            ),
        }
    }

    /// The table is sound and holds `run`.
    pub open spec fn holds_run(&self, fs: &F::Fs, run: Seq<Entry>) -> bool {
        exists|blocks: Seq<Seq<Entry>>|
            #[trigger] table_ok(
                bytes_of(&self.handle(), fs),
                self.crypto_view(),
                self.table(),
                blocks,
            ) && flat(blocks) == run
    }

    /// Streaming a table gives the blocks that it holds.
    pub proof fn lemma_queue_of_blocks(&self, fs: &F::Fs, blocks: Seq<Seq<Entry>>)
        requires
            table_holds(bytes_of(&self.handle(), fs), self.crypto_view(), self.table(), blocks),
        ensures
            self.queue(fs) == (flat(blocks), None::<Fault>),
    {
        self.lemma_handles_readable(fs, blocks);
        lemma_stream_sound(
            bytes_of(&self.handle(), fs),
            self.crypto_view(),
            self.table(),
            blocks,
            parse_handles(index_entries(self.table()))->Ok_0,
            0,
        );
        assert(blocks.subrange(0, blocks.len() as int) =~= blocks);
    }

    /// Streaming a sound table gives its run.
    pub proof fn lemma_queue_of_run(&self, fs: &F::Fs, run: Seq<Entry>)
        requires
            self.holds_run(fs, run),
        ensures
            self.queue(fs) == (run, None::<Fault>),
            sorted(run),
    {
        let blocks = choose|blocks: Seq<Seq<Entry>>|
            #[trigger] table_ok(
                bytes_of(&self.handle(), fs),
                self.crypto_view(),
                self.table(),
                blocks,
            ) && flat(blocks) == run;
        self.lemma_queue_of_blocks(fs, blocks);
    }

    /// Law: streaming never passes over a block that cannot be read: it gives the
    /// entries before the block, and then the fault. `good` are the bytes with
    /// which the table was sound.
    pub proof fn law_queue_meets_fault(
        &self,
        fs: &F::Fs,
        good: Seq<u8>,
        blocks: Seq<Seq<Entry>>,
        i: int,
        f: Fault,
    )
        requires
            table_holds(good, self.crypto_view(), self.table(), blocks),
            broken_at(
                good,
                bytes_of(&self.handle(), fs),
                self.crypto_view(),
                self.table(),
                blocks,
                i,
                f,
            ),
        ensures
            self.queue(fs) == (flat(blocks.subrange(0, i)), Some(f)),
    {
        law_scan_meets_fault(
            good,
            bytes_of(&self.handle(), fs),
            self.crypto_view(),
            self.table(),
            blocks,
            i,
            f,
        );
    }

    /// The filter can be asked.
    pub closed spec fn wf(&self) -> bool {
        self.bloom matches Some(b) ==> b@.wf()
    }

    /// Open a plaintext `file`, validate the footer and the file header, and
    /// load the index block into memory.
    ///
    /// Fails with [`Error::InvalidFormat`] if the file's header advertises
    /// encryption: callers must use [`open_encrypted`](Self::open_encrypted)
    /// for those tables.
    pub fn open(fs: &F::Fs, file: F) -> (r: Result<SstReader<F>>)
        requires
            is_open(&file, fs),
        ensures
            match parse_table(bytes_of(&file, fs), false) {
                Ok(t) => (r matches Ok(rd) && rd.wf() && rd.table() == t && rd.handle() == file
                    && rd.crypto_view() is None) || failed_io(r, F::fs_reliable(fs)),
                Err(f) => failed_with(r, f, F::fs_reliable(fs)),
            },
    {
        SstReader::open_inner(fs, file, None)
    }

    /// Open an encrypted `file`. `aead_key` is the table's own key and
    /// `sstable_id` must match the value the writer passed at construction, so
    /// that the data that authenticates each block matches.
    ///
    /// Fails if the file's header does not advertise encryption.
    pub fn open_encrypted(fs: &F::Fs, file: F, aead_key: &AeadKey, sstable_id: u64) -> (r: Result<
        SstReader<F>,
    >)
        requires
            is_open(&file, fs),
        ensures
            match parse_table(bytes_of(&file, fs), true) {
                Ok(t) => (r matches Ok(rd) && rd.wf() && rd.table() == t && rd.handle() == file
                    && rd.crypto_view() == Some(CryptoView { key: aead_key@, sstable_id }))
                    || failed_io(r, F::fs_reliable(fs)),
                Err(f) => failed_with(r, f, F::fs_reliable(fs)),
            },
    {
        let ctx = DecryptionCtx { aead: Aead::new(aead_key), sstable_id };
        SstReader::open_inner(fs, file, Some(ctx))
    }

    fn open_inner(fs: &F::Fs, file: F, crypto: Option<DecryptionCtx>) -> (r: Result<SstReader<F>>)
        requires
            is_open(&file, fs),
        ensures
            match parse_table(bytes_of(&file, fs), crypto is Some) {
                Ok(t) => (r matches Ok(rd) && rd.wf() && rd.table() == t && rd.handle() == file
                    && rd.crypto_view() == ctx_view(crypto)) || failed_io(r, F::fs_reliable(fs)),
                Err(f) => failed_with(r, f, F::fs_reliable(fs)),
            },
    {
        proof {
            reveal(parse_table);
        }
        let size: u64 = match file.size(fs) {
            Ok(n) => n,
            Err(e) => {
                return Err(e);
            },
        };
        if size < FILE_HEADER_SIZE as u64 + FOOTER_SIZE as u64 {
            return Err(
                Error::invalid_format_static("sstable", "file smaller than header + footer"),
            );
        }
        // Footer first: it carries the offsets of the other blocks.
        let footer_bytes: Vec<u8> = match read_vec(
            &file,
            fs,
            FOOTER_SIZE,
            size - FOOTER_SIZE as u64,
        ) {
            Ok(v) => v,
            Err(e) => {
                return Err(e);
            },
        };
        let footer: Footer = match Footer::from_bytes(footer_bytes.as_slice()) {
            Some(f) => f,
            None => {
                return Err(Error::invalid_format_static("sstable footer", "size mismatch"));
            },
        };
        if !footer.is_valid() {
            return Err(Error::corruption_static("sstable footer", "checksum / magic mismatch"));
        }
        let header_bytes: Vec<u8> = match read_vec(&file, fs, FILE_HEADER_SIZE, 0) {
            Ok(v) => v,
            Err(e) => {
                return Err(e);
            },
        };
        let header: FileHeader = match FileHeader::from_bytes(header_bytes.as_slice()) {
            Some(h) => h,
            None => {
                return Err(Error::invalid_format_static("sstable file header", "size mismatch"));
            },
        };
        if !header.is_valid() {
            return Err(
                Error::corruption_static(
                    "sstable file header",
                    "magic / version / reserved / checksum mismatch",
                ),
            );
        }
        // The file must be what the caller takes it for, in both directions.
        let file_is_encrypted: bool = (header.flags / 2) % 2 == 1;
        if file_is_encrypted && crypto.is_none() {
            return Err(
                Error::invalid_format_static(
                    "sstable",
                    "file is encrypted; open via SstReader::open_encrypted",
                ),
            );
        }
        if !file_is_encrypted && crypto.is_some() {
            return Err(
                Error::invalid_format_static(
                    "sstable",
                    "file is not encrypted; open via SstReader::open",
                ),
            );
        }
        // Index and filter are plaintext: only data blocks are encrypted.
        let index_bytes: Vec<u8> = match read_vec(
            &file,
            fs,
            footer.index_handle.length as usize,
            footer.index_handle.offset,
        ) {
            Ok(v) => v,
            Err(e) => {
                return Err(e);
            },
        };
        let bloom: Option<BlockedBloom> = if footer.filter_handle.length == 0 {
            None
        } else {
            let filter_bytes: Vec<u8> = match read_vec(
                &file,
                fs,
                footer.filter_handle.length as usize,
                footer.filter_handle.offset,
            ) {
                Ok(v) => v,
                Err(e) => {
                    return Err(e);
                },
            };
            match BlockedBloom::decode(filter_bytes.as_slice()) {
                Ok(b) => Some(b),
                Err(e) => {
                    return Err(e);
                },
            }
        };
        Ok(
            SstReader {
                file,
                header,
                footer,
                index_bytes,
                bloom,
                bloom_misses_pruned: AtomicU64::new(0),
                crypto,
            },
        )
    }

    /// Read the data block at `handle`, decrypting it where the table is
    /// encrypted.
    fn read_data_block(&self, fs: &F::Fs, handle: BlockHandle) -> (r: Result<Vec<u8>>)
        requires
            is_open(&self.handle(), fs),
        ensures
            match block_plain(bytes_of(&self.handle(), fs), self.crypto_view(), handle) {
                Ok(p) => (r matches Ok(v) && v@ == p) || failed_io(r, F::fs_reliable(fs)),
                Err(f) => failed_with(r, f, F::fs_reliable(fs)),
            },
    {
        proof {
            reveal(block_plain);
        }
        let on_disk: Vec<u8> = match read_vec(
            &self.file,
            fs,
            handle.length as usize,
            handle.offset,
        ) {
            Ok(v) => v,
            Err(e) => {
                return Err(e);
            },
        };
        match &self.crypto {
            None => Ok(on_disk),
            Some(ctx) => {
                let nonce = derive_block_nonce(handle.offset);
                let aad: [u8; 16] = block_aad(ctx.sstable_id, handle.offset);
                match ctx.aead.open(nonce.as_nonce(), aad.as_slice(), on_disk.as_slice()) {
                    Ok(plain) => Ok(plain),
                    Err(_) => Err(
                        Error::corruption_static(
                            "sstable data block",
                            "AEAD authentication failed (corruption or wrong key)",
                        ),
                    ),
                }
            },
        }
    }

    /// Borrow the footer for diagnostics.
    pub fn footer(&self) -> (f: &Footer)
        ensures
            *f == self.table().footer,
    {
        &self.footer
    }

    /// Borrow the file header.
    pub fn file_header(&self) -> (h: &FileHeader)
        ensures
            *h == self.table().header,
    {
        &self.header
    }

    /// Algorithm tag stored on disk for block checksums.
    pub fn checksum_algorithm(&self) -> (a: Algorithm)
        ensures
            self.table().header.checksum_alg == a.tag_of() || (a == Algorithm::Crc32c && forall|
                b: Algorithm,
            |
                self.table().header.checksum_alg != #[trigger] b.tag_of()),
    {
        match Algorithm::from_tag(self.header.checksum_alg) {
            Some(a) => a,
            None => Algorithm::Crc32c,
        }
    }

    /// `true` if this SSTable carries a filter for pruning negative lookups.
    pub fn has_bloom_filter(&self) -> (r: bool)
        ensures
            r == self.table().filter is Some,
    {
        self.bloom.is_some()
    }

    /// `true` if data blocks in this SSTable are encrypted.
    pub fn is_encrypted(&self) -> (r: bool)
        ensures
            r == self.crypto_view() is Some,
    {
        self.crypto.is_some()
    }

    /// Number of point lookups that the filter answered without touching the
    /// data blocks: none where there is no filter. The counter is shared by
    /// everyone who holds the reader, so its value at any moment is not stated
    /// otherwise.
    pub fn bloom_pruned_count(&self) -> (n: u64)
        ensures
            self.table().filter is None ==> n == 0,
    {
        match &self.bloom {
            Some(_) => self.bloom_misses_pruned.load(core::sync::atomic::Ordering::Relaxed),
            None => 0,
        }
    }

    fn note_pruned(&self) {
        let _ = self.bloom_misses_pruned.fetch_add(1, core::sync::atomic::Ordering::Relaxed);
    }

    /// Look up `key`. Gives the newest version whose sequence number is at
    /// most `snapshot`. (Tombstones surface as hits with `op = Tombstone`; the
    /// engine above interprets them.)
    pub fn get(&self, fs: &F::Fs, key: &[u8], snapshot: u64) -> (r: Result<Option<LookupHit>>)
        requires
            self.wf(),
            is_open(&self.handle(), fs),
        ensures
            match table_get(
                bytes_of(&self.handle(), fs),
                self.crypto_view(),
                self.table(),
                key@,
                snapshot,
            ) {
                Ok(answer) => (r matches Ok(hit) && answer_of(key@, hit) == answer) || failed_io(
                    r,
                    F::fs_reliable(fs),
                ),
                Err(f) => failed_with(r, f, F::fs_reliable(fs)),
            },
            forall|blocks: Seq<Seq<Entry>>|
                #[trigger] table_ok(
                    bytes_of(&self.handle(), fs),
                    self.crypto_view(),
                    self.table(),
                    blocks,
                ) ==> ((r matches Ok(hit) && answer_of(key@, hit) == lookup(
                    flat(blocks),
                    key@,
                    snapshot,
                )) || failed_io(r, F::fs_reliable(fs))),
    {
        let r = self.find(fs, key, snapshot);
        proof {
            let bytes = bytes_of(&self.handle(), fs);
            assert forall|blocks: Seq<Seq<Entry>>|
                #[trigger] table_ok(bytes, self.crypto_view(), self.table(), blocks) implies ((
            r matches Ok(hit) && answer_of(key@, hit) == lookup(flat(blocks), key@, snapshot))
                || failed_io(r, F::fs_reliable(fs))) by {
                law_table_get_is_lookup(
                    bytes,
                    self.crypto_view(),
                    self.table(),
                    blocks,
                    key@,
                    snapshot,
                );
            }
        }
        r
    }

    fn find(&self, fs: &F::Fs, key: &[u8], snapshot: u64) -> (r: Result<Option<LookupHit>>)
        requires
            self.wf(),
            is_open(&self.handle(), fs),
        ensures
            match table_get(
                bytes_of(&self.handle(), fs),
                self.crypto_view(),
                self.table(),
                key@,
                snapshot,
            ) {
                Ok(answer) => (r matches Ok(hit) && answer_of(key@, hit) == answer) || failed_io(
                    r,
                    F::fs_reliable(fs),
                ),
                Err(f) => failed_with(r, f, F::fs_reliable(fs)),
            },
    {
        // A `false` from the filter is a definitive miss.
        match &self.bloom {
            Some(b) => {
                if !b.contains(key) {
                    self.note_pruned();
                    return Ok(None);
                }
            },
            None => {},
        }
        let index_reader = match BlockReader::open(self.index_bytes.as_slice()) {
            Ok(reader) => reader,
            Err(e) => {
                return Err(e);
            },
        };
        let ghost bytes = bytes_of(&self.handle(), fs);
        let ghost crypto = self.crypto_view();
        let ghost index = found_run(index_reader.record_bytes(), index_reader.restarts(), key@);
        let (first, rest) = index_reader.seek_from(key);
        let mut cur: Option<RecordView> = first;
        let mut it: BlockIter = rest;
        let ghost mut p: int = 0;
        while cur.is_some()
            invariant
                is_open(&self.handle(), fs),
                bytes == bytes_of(&self.handle(), fs),
                crypto == self.crypto_view(),
                0 <= p <= index.len(),
                table_get(bytes, crypto, self.table(), key@, snapshot) == find_from(
                    bytes,
                    crypto,
                    index,
                    p,
                    key@,
                    snapshot,
                ),
                if p < index.len() {
                    entry_of(cur) == Some(index[p]) && it.remaining() == index.subrange(
                        p + 1,
                        index.len() as int,
                    )
                } else {
                    cur is None
                },
            decreases it.remaining().len() + (if cur is Some { 1int } else { 0int }),
        {
            match cur {
                None => {},
                Some(rec) => {
                    let handle: BlockHandle = match decode_block_handle(rec.value) {
                        Ok(h) => h,
                        Err(e) => {
                            return Err(e);
                        },
                    };
                    let plain: Vec<u8> = match self.read_data_block(fs, handle) {
                        Ok(v) => v,
                        Err(e) => {
                            return Err(e);
                        },
                    };
                    match find_in_block(plain.as_slice(), key, snapshot) {
                        Err(e) => {
                            return Err(e);
                        },
                        Ok((hit, more)) => {
                            if hit.is_some() || !more {
                                return Ok(hit);
                            }
                        },
                    }
                    let next = it.next();
                    proof {
                        if p + 1 < index.len() {
                            assert(index.subrange(p + 1, index.len() as int)[0] == index[p + 1]);
                            assert(it.remaining() =~= index.subrange(p + 2, index.len() as int));
                        }
                        p = p + 1;
                    }
                    cur = next;
                },
            }
        }
        Ok(None)
    }

    /// Every record in the SSTable in ascending order, materialised at once.
    pub fn scan(&self, fs: &F::Fs) -> (r: Result<Vec<(Vec<u8>, LookupHit)>>)
        requires
            is_open(&self.handle(), fs),
        ensures
            match scan_table(bytes_of(&self.handle(), fs), self.crypto_view(), self.table()) {
                Ok(entries) => (r matches Ok(v) && record_entries(v@) == entries) || failed_io(
                    r,
                    F::fs_reliable(fs),
                ),
                Err(f) => failed_with(r, f, F::fs_reliable(fs)),
            },
            forall|blocks: Seq<Seq<Entry>>|
                #[trigger] table_ok(
                    bytes_of(&self.handle(), fs),
                    self.crypto_view(),
                    self.table(),
                    blocks,
                ) ==> ((r matches Ok(v) && record_entries(v@) == flat(blocks)) || failed_io(
                    r,
                    F::fs_reliable(fs),
                )),
    {
        let ghost bytes = bytes_of(&self.handle(), fs);
        let ghost crypto = self.crypto_view();
        proof {
            assert forall|blocks: Seq<Seq<Entry>>|
                #[trigger] table_ok(bytes, crypto, self.table(), blocks) implies scan_table(
                bytes,
                crypto,
                self.table(),
            ) == Ok::<Seq<Entry>, Fault>(flat(blocks)) by {
                lemma_scan_sound(bytes, crypto, self.table(), blocks, 0);
                assert(blocks.subrange(0, blocks.len() as int) =~= blocks);
            }
        }
        self.collect(fs)
    }

    fn collect(&self, fs: &F::Fs) -> (r: Result<Vec<(Vec<u8>, LookupHit)>>)
        requires
            is_open(&self.handle(), fs),
        ensures
            match scan_table(bytes_of(&self.handle(), fs), self.crypto_view(), self.table()) {
                Ok(entries) => (r matches Ok(v) && record_entries(v@) == entries) || failed_io(
                    r,
                    F::fs_reliable(fs),
                ),
                Err(f) => failed_with(r, f, F::fs_reliable(fs)),
            },
    {
        let ghost bytes = bytes_of(&self.handle(), fs);
        let ghost crypto = self.crypto_view();
        let index_reader = match BlockReader::open(self.index_bytes.as_slice()) {
            Ok(reader) => reader,
            Err(e) => {
                return Err(e);
            },
        };
        let mut out: Vec<(Vec<u8>, LookupHit)> = Vec::new();
        let mut it = index_reader.iter();
        let ghost index = it.remaining();
        let ghost mut i: nat = 0;
        let mut done: bool = false;
        proof {
            assert(index.subrange(0, index.len() as int) =~= index);
            if scan_from(bytes, crypto, index, 0) is Ok {
                assert(record_entries(out@) + scan_from(bytes, crypto, index, 0)->Ok_0
                    =~= scan_from(bytes, crypto, index, 0)->Ok_0);
            }
        }
        while !done
            invariant
                is_open(&self.handle(), fs),
                bytes == bytes_of(&self.handle(), fs),
                crypto == self.crypto_view(),
                i <= index.len(),
                it.remaining() == index.subrange(i as int, index.len() as int),
                done ==> i == index.len(),
                match scan_from(bytes, crypto, index, i) {
                    Ok(more) => scan_table(bytes, crypto, self.table()) == Ok::<Seq<Entry>, Fault>(
                        record_entries(out@) + more,
                    ),
                    Err(f) => scan_table(bytes, crypto, self.table()) == Err::<Seq<Entry>, Fault>(
                        f,
                    ),
                },
            decreases it.remaining().len() + (if done { 0int } else { 1int }),
        {
            match it.next() {
                None => {
                    done = true;
                },
                Some(rec) => {
                    assert(rec@ == index[i as int]);
                    let handle: BlockHandle = match decode_block_handle(rec.value) {
                        Ok(h) => h,
                        Err(e) => {
                            return Err(e);
                        },
                    };
                    let plain: Vec<u8> = match self.read_data_block(fs, handle) {
                        Ok(v) => v,
                        Err(e) => {
                            return Err(e);
                        },
                    };
                    let mut records: Vec<(Vec<u8>, LookupHit)> = match decode_block(
                        plain.as_slice(),
                    ) {
                        Ok(v) => v,
                        Err(e) => {
                            return Err(e);
                        },
                    };
                    let ghost before = out@;
                    let ghost entries = record_entries(records@);
                    let ghost added = records@;
                    out.append(&mut records);
                    proof {
                        assert(record_entries(out@) =~= record_entries(before) + entries);
                        match scan_from(bytes, crypto, index, i + 1) {
                            Ok(more) => {
                                assert(record_entries(before) + (entries + more)
                                    =~= record_entries(out@) + more);
                            },
                            Err(_) => {},
                        }
                        assert(it.remaining() =~= index.subrange(i as int + 1, index.len() as int));
                        i = i + 1;
                    }
                },
            }
        }
        proof {
            assert(record_entries(out@) + Seq::<Entry>::empty() =~= record_entries(out@));
        }
        Ok(out)
    }

    /// Streaming, block-by-block scan of every record in ascending order. Only
    /// the current data block is held in memory.
    pub fn scan_stream<'a>(&'a self) -> (r: Result<SstStream<'a, F>>)
        ensures
            match self.index_fault() {
                Some(e) => r matches Err(x) && x@ == e,
                None => r matches Ok(s) && s.source() == *self && (forall|fs: &F::Fs|
                    #[trigger] s.rest(fs) == self.queue(fs)),
            },
    {
        let handles: Vec<BlockHandle> = match decode_index_handles(self.index_bytes.as_slice()) {
            Ok(v) => v,
            Err(e) => {
                return Err(e);
            },
        };
        let s = SstStream { reader: self, handles, next_block: 0, current: Vec::new() };
        proof {
            assert forall|fs: &F::Fs| #[trigger] s.rest(fs) == self.queue(fs) by {
                let more = self.queue(fs);
                assert(reversed(s.current@) + more.0 =~= more.0);
            }
        }
        Ok(s)
    }

    proof fn lemma_handles_readable(&self, fs: &F::Fs, blocks: Seq<Seq<Entry>>)
        requires
            table_holds(bytes_of(&self.handle(), fs), self.crypto_view(), self.table(), blocks),
        ensures
            block_entries(self.table().index) is Ok,
            parse_handles(index_entries(self.table())) is Ok,
    {
        let index = index_entries(self.table());
        crate::sstable::table::lemma_handles_sound(
            bytes_of(&self.handle(), fs),
            self.crypto_view(),
            self.table(),
            blocks,
            blocks.len() as int,
        );
        assert(index.subrange(0, blocks.len() as int) =~= index);
    }
}

/// Streaming iterator over every record in an SSTable.
///
/// Yielded by [`SstReader::scan_stream`]. Records come back in `(key
/// ascending, seqno descending)` order.
pub struct SstStream<'a, F: VfsFile> {
    reader: &'a SstReader<F>,
    handles: Vec<BlockHandle>,
    next_block: usize,
    /// The rest of the current block, last record first.
    current: Vec<(Vec<u8>, LookupHit)>,
}

/// The entries of records that are kept last first.
spec fn reversed(records: Seq<(Vec<u8>, LookupHit)>) -> Seq<Entry> {
    Seq::new(records.len(), |i: int| record_entry(records[records.len() - 1 - i]))
}

/// Turn records around.
fn reverse_records(records: Vec<(Vec<u8>, LookupHit)>) -> (out: Vec<(Vec<u8>, LookupHit)>)
    ensures
        reversed(out@) == record_entries(records@),
{
    let ghost all = records@;
    let mut left = records;
    let mut out: Vec<(Vec<u8>, LookupHit)> = Vec::new();
    while left.len() > 0
        invariant
            left@.len() + out@.len() == all.len(),
            left@ == all.subrange(0, left@.len() as int),
            forall|i: int|
                0 <= i < out@.len() ==> #[trigger] out@[i] == all[all.len() - 1 - i],
        decreases left@.len(),
    {
        match left.pop() {
            Some(r) => {
                out.push(r);
            },
            None => {},
        }
        assert(left@ =~= all.subrange(0, left@.len() as int));
    }
    assert(reversed(out@) =~= record_entries(all));
    out
}

impl<'a, F: VfsFile> SstStream<'a, F> {
    /// The reader that the stream pulls from.
    pub closed spec fn source(&self) -> SstReader<F> {
        *self.reader
    }

    /// The entries still to come, and the fault after them where there is
    /// one.
    pub closed spec fn rest(&self, fs: &F::Fs) -> (Seq<Entry>, Option<Fault>) {
        let (more, end) = stream_from(
            bytes_of(&self.reader.handle(), fs),
            self.reader.crypto_view(),
            self.handles@,
            self.next_block as nat,
        );
        (reversed(self.current@) + more, end)
    }

    /// What a stream gives rests on the bytes of its own file alone.
    pub proof fn lemma_rest_same(&self, a: &F::Fs, b: &F::Fs)
        requires
            is_open(&self.source().handle(), a) == is_open(&self.source().handle(), b),
            is_open(&self.source().handle(), a) ==> bytes_of(&self.source().handle(), a)
                == bytes_of(&self.source().handle(), b),
        ensures
            is_open(&self.source().handle(), a) ==> self.rest(a) == self.rest(b),
    {
    }

    /// Load the next block that holds a record.
    fn refill(&mut self, fs: &F::Fs) -> (r: Result<bool>)
        requires
            is_open(&old(self).source().handle(), fs),
            old(self).current@.len() == 0,
        ensures
            final(self).source() == old(self).source(),
            r matches Ok(found) ==> final(self).rest(fs) == old(self).rest(fs) && found == (final(self).current@.len() > 0) && (!found ==> old(self).rest(fs) == (
                Seq::<Entry>::empty(),
                None::<Fault>,
            )),
            r matches Err(e) ==> (!F::fs_reliable(fs) && e is Io) || (old(self).rest(fs).0.len()
                == 0 && old(self).rest(fs).1 is Some && shows(e, old(self).rest(fs).1->0)),
    {
        let ghost bytes = bytes_of(&self.reader.handle(), fs);
        let ghost crypto = self.reader.crypto_view();
        let ghost before = *self;
        let ghost rest0 = stream_from(bytes, crypto, self.handles@, self.next_block as nat);
        assert(reversed(self.current@) + rest0.0 =~= rest0.0);
        while self.next_block < self.handles.len()
            invariant
                is_open(&self.reader.handle(), fs),
                self.reader == before.reader,
                before == *old(self),
                bytes == bytes_of(&self.reader.handle(), fs),
                crypto == self.reader.crypto_view(),
                self.handles == before.handles,
                self.current == before.current,
                self.current@.len() == 0,
                before.rest(fs) == rest0,
                stream_from(bytes, crypto, self.handles@, self.next_block as nat) == rest0,
            decreases self.handles@.len() - self.next_block,
        {
            let h: BlockHandle = self.handles[self.next_block];
            self.next_block = self.next_block + 1;
            let plain: Vec<u8> = match self.reader.read_data_block(fs, h) {
                Ok(v) => v,
                Err(e) => {
                    return Err(e);
                },
            };
            let records: Vec<(Vec<u8>, LookupHit)> = match decode_block(plain.as_slice()) {
                Ok(v) => v,
                Err(e) => {
                    return Err(e);
                },
            };
            let ghost more = stream_from(bytes, crypto, self.handles@, self.next_block as nat);
            if records.len() > 0 {
                self.current = reverse_records(records);
                return Ok(true);
            }
            assert(record_entries(records@) + more.0 =~= more.0);
        }
        assert(reversed(self.current@) + Seq::<Entry>::empty() =~= Seq::<Entry>::empty());
        Ok(false)
    }

    /// Pull the next record, or `Ok(None)` at the end of the stream.
    pub fn next_record(&mut self, fs: &F::Fs) -> (r: Result<Option<(Vec<u8>, LookupHit)>>)
        requires
            is_open(&old(self).source().handle(), fs),
        ensures
            final(self).source() == old(self).source(),
            stream_step(old(self).rest(fs), r, final(self).rest(fs), F::fs_reliable(fs)),
    {
        if self.current.len() == 0 {
            match self.refill(fs) {
                Err(e) => {
                    return Err(e);
                },
                Ok(found) => {
                    if !found {
                        return Ok(None);
                    }
                },
            }
        }
        let ghost cur = self.current@;
        let ghost more = stream_from(
            bytes_of(&self.reader.handle(), fs),
            self.reader.crypto_view(),
            self.handles@,
            self.next_block as nat,
        );
        match self.current.pop() {
            None => Ok(None),
            Some(rec) => {
                proof {
                    assert(reversed(cur)[0] == record_entry(rec));
                    assert(reversed(self.current@) =~= reversed(cur).subrange(
                        1,
                        cur.len() as int,
                    ));
                    assert((reversed(cur) + more.0).subrange(1, (reversed(cur) + more.0).len() as int)
                        =~= reversed(self.current@) + more.0);
                }
                Ok(Some(rec))
            },
        }
    }
}

} // verus!
