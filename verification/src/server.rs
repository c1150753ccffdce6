//! What the HTTP front-end decides.
//!
//! Each request is a function from plain values to a [`Reply`]: a status and
//! a body. Reading requests and sending replies is up to the caller.
use base64::engine::general_purpose::STANDARD;
use base64::Engine;
use vstd::prelude::*;
use vstd::string::*;

use crate::crypto::kdf::MasterKey;
use crate::encoding::order::{
    lemma_lex_asymmetric, lemma_lex_irreflexive, lemma_lex_total, lex_lt,
};
use crate::engine::db::{memtable_layers, nothing_pending, value_view, Db};
use crate::engine::range::{
    between, in_range, is_range_of, layer_queues, scanned, BoundView, KeyBound, RangeIter,
    RangeRecord,
};
use crate::engine::state::DbConfig;
use crate::error::{Error, ErrorView, Result};
use crate::io::vfs::Vfs;
use crate::model::{live_value, lookup, Entry};
use crate::sstable::table::{shows, Fault};
use crate::wal::batch::OpView;

verus! {

/// Longest key that a request may name, in bytes.
pub const MAX_KEY_LEN: usize = 1024;

/// Longest value that a request may carry, in bytes.
pub const MAX_VALUE_LEN: usize = 1048576;

/// Records that a scan gives when the request sets no limit.
pub const DEFAULT_SCAN_LIMIT: usize = 1000;

/// Most records that a scan gives.
pub const MAX_SCAN_LIMIT: usize = 10000;

// ----- Base64 -----

/// What `STANDARD.decode` gives for a text: the bytes, or nothing where it is
/// not valid base64.
pub uninterp spec fn base64_decoded(text: Seq<char>) -> Option<Seq<u8>>;

/// What `STANDARD.encode` gives for bytes.
pub uninterp spec fn base64_encoded(bytes: Seq<u8>) -> Seq<char>;

/// Calls `STANDARD.decode` of `base64`. Claimed of it: the result is a
/// function of the text.
#[verifier::external_body]
fn decode_base64(text: &str) -> (r: Option<Vec<u8>>)
    ensures
        match base64_decoded(text@) {
            Some(b) => r matches Some(v) && v@ == b,
            None => r is None,
        },
{
    STANDARD.decode(text).ok()
}

/// Calls `STANDARD.encode` of `base64`. Its length computation overflows for
/// inputs near the size of the address space; those are left out. Claimed of
/// it: the result is a function of the bytes, and decodes to them.
#[verifier::external_body]
fn encode_base64(bytes: &[u8]) -> (s: String)
    requires
        bytes@.len() <= usize::MAX / 4,
    ensures
        s@ == base64_encoded(bytes@),
        base64_decoded(s@) == Some(bytes@),
{
    STANDARD.encode(bytes)
}

// ----- Replies -----

/// Body of a reply.
#[derive(Debug, Clone)]
pub enum Body {
    /// No body.
    Empty,
    /// Text.
    Text(String),
    /// Raw bytes.
    Bytes(Vec<u8>),
}

/// A reply: status and body.
#[derive(Debug, Clone)]
pub struct Reply {
    /// HTTP status code.
    pub status: u16,
    /// Body.
    pub body: Body,
}

/// A reply, over mathematical sequences.
#[verifier::ext_equal]
pub enum ReplyView {
    /// A status alone.
    Bare(u16),
    /// Status and text.
    Text(u16, Seq<char>),
    /// Status and bytes.
    Bytes(u16, Seq<u8>),
}

impl View for Reply {
    type V = ReplyView;

    open spec fn view(&self) -> ReplyView {
        match self.body {
            Body::Empty => ReplyView::Bare(self.status),
            Body::Text(s) => ReplyView::Text(self.status, s@),
            Body::Bytes(b) => ReplyView::Bytes(self.status, b@),
        }
    }
}

/// The reply to a request that the engine failed on.
pub open spec fn failure_reply(e: ErrorView) -> ReplyView {
    ReplyView::Text(500, "engine error: "@ + e.text() + "\n"@)
}

fn text_reply(status: u16, text: &str) -> (r: Reply)
    ensures
        r@ == ReplyView::Text(status, text@),
{
    Reply { status, body: Body::Text(text.to_owned()) }
}

/// The reply to a request that the engine failed on.
pub fn engine_err(e: &Error) -> (r: Reply)
    ensures
        r@ == failure_reply(e@),
{
    let mut text: String = "engine error: ".to_owned();
    text.append(e.to_string().as_str());
    text.append("\n");
    assert(text@ =~= "engine error: "@ + e@.text() + "\n"@);
    Reply { status: 500, body: Body::Text(text) }
}

/// The liveness probe's reply.
pub fn health() -> (r: Reply)
    ensures
        r@ == ReplyView::Text(200, "ok\n"@),
{
    text_reply(200, "ok\n")
}

// ----- Single keys -----

/// The reply to a read, from what the engine gave.
pub open spec fn get_reply(r: Result<Option<Vec<u8>>>) -> ReplyView {
    match r {
        Ok(Some(value)) => ReplyView::Bytes(200, value@),
        Ok(None) => ReplyView::Text(404, "not found\n"@),
        Err(e) => failure_reply(e@),
    }
}

/// The reply to a read, from what the engine gave.
pub fn reply_to_get(r: Result<Option<Vec<u8>>>) -> (reply: Reply)
    ensures
        reply@ == get_reply(r),
{
    match r {
        Ok(Some(value)) => Reply { status: 200, body: Body::Bytes(value) },
        Ok(None) => text_reply(404, "not found\n"),
        Err(e) => engine_err(&e),
    }
}

/// The reply to a write, from what the engine gave.
pub open spec fn write_reply(r: Result<()>) -> ReplyView {
    match r {
        Ok(_) => ReplyView::Bare(204),
        Err(e) => failure_reply(e@),
    }
}

/// The reply to a write, from what the engine gave.
pub fn reply_to_write(r: &Result<()>) -> (reply: Reply)
    ensures
        reply@ == write_reply(*r),
{
    match r {
        Ok(()) => Reply { status: 204, body: Body::Empty },
        Err(e) => engine_err(e),
    }
}

/// Read a key: its value, or that there is none.
pub fn get_kv<V: Vfs>(db: &Db<V>, key: &str) -> (reply: Reply)
    requires
        db.valid(),
    ensures
        key.spec_bytes().len() > MAX_KEY_LEN ==> reply@ == ReplyView::Text(400, "key too long"@),
        key.spec_bytes().len() <= MAX_KEY_LEN ==> exists|r: Result<Option<Vec<u8>>>|
            db.read_gives(r, key.spec_bytes(), db.last_seqno()) && reply@ == #[trigger] get_reply(
                r,
            ),
        key.spec_bytes().len() <= MAX_KEY_LEN && db.sound() && db.reliable() ==> reply@ == (
        match live_value(lookup(db@, key.spec_bytes(), db.last_seqno())) {
            Some(v) => ReplyView::Bytes(200, v),
            None => ReplyView::Text(404, "not found\n"@),
        }),
{
    let bytes: &[u8] = key.as_bytes();
    if bytes.len() > MAX_KEY_LEN {
        return text_reply(400, "key too long");
    }
    let r = db.get(bytes);
    let ghost given = r;
    let reply = reply_to_get(r);
    assert(reply@ == get_reply(given));
    reply
}

/// Why a write is refused before it reaches the engine, if so.
pub open spec fn write_refusal(key_len: nat, value_len: nat) -> Option<ReplyView> {
    if key_len > MAX_KEY_LEN {
        Some(ReplyView::Text(400, "key too long"@))
    } else if value_len > MAX_VALUE_LEN {
        Some(ReplyView::Text(413, "value too large"@))
    } else {
        None
    }
}

/// Law: a write is kept from the engine only for its size. A key of up to 1024
/// bytes with a value of up to 1048576 always gets there; a longer key is a bad
/// request, and a longer value too large a one.
pub proof fn law_requests_are_refused_for_size_only(key_len: nat, value_len: nat)
    ensures
        write_refusal(key_len, value_len) is None <==> key_len <= 1_024 && value_len <= 1_048_576,
        write_refusal(key_len, value_len) matches Some(reply) ==> (reply matches ReplyView::Text(
            status,
            text,
        ) && status == (if key_len > 1_024 {
            400u16
        } else {
            413u16
        })),
{
}

/// Law: a reply tells what became of the request. A read is answered 200 with the
/// very value, or 404, or 500 with the error; a write 204 or 500.
pub proof fn law_replies_tell_the_outcome(
    read: Result<Option<Vec<u8>>>,
    other: Result<Option<Vec<u8>>>,
    write: Result<()>,
)
    ensures
        match get_reply(read) {
            ReplyView::Bytes(status, bytes) => status == 200 && (read matches Ok(Some(v)) && v@
                == bytes),
            ReplyView::Text(status, text) => (status == 404 && (read matches Ok(x) && x is None))
                || (status == 500 && read is Err),
            ReplyView::Bare(status) => false,
        },
        match write_reply(write) {
            ReplyView::Bare(status) => status == 204 && write is Ok,
            ReplyView::Text(status, text) => status == 500 && write is Err,
            ReplyView::Bytes(status, bytes) => false,
        },
        get_reply(read) == get_reply(other) ==> match (read, other) {
            (Ok(Some(v)), Ok(Some(w))) => v@ == w@,
            (Ok(None), Ok(None)) => true,
            (Err(e), Err(g)) => "engine error: "@ + e@.text() + "\n"@ == "engine error: "@
                + g@.text() + "\n"@,
            _ => false,
        },
{
    match (read, other) {
        (Ok(Some(v)), Ok(Some(w))) => {
            assert(get_reply(read)->Bytes_1 == v@);
            assert(get_reply(other)->Bytes_1 == w@);
        },
        (Err(e), Err(g)) => {
            assert(get_reply(read)->Text_1 == "engine error: "@ + e@.text() + "\n"@);
            assert(get_reply(other)->Text_1 == "engine error: "@ + g@.text() + "\n"@);
        },
        (Ok(None), Err(e)) => {
            assert(get_reply(read)->Text_0 == 404);
            assert(get_reply(other)->Text_0 == 500);
        },
        (Err(e), Ok(None)) => {
            assert(get_reply(read)->Text_0 == 500);
            assert(get_reply(other)->Text_0 == 404);
        },
        _ => {},
    }
}

/// Write a key.
pub fn put_kv<V: Vfs>(db: &mut Db<V>, key: &str, value: &[u8]) -> (reply: Reply)
    requires
        old(db).valid(),
    ensures
        final(db).valid(),
        match write_refusal(key.spec_bytes().len(), value@.len()) {
            Some(refused) => reply@ == refused && *final(db) == *old(db),
            None => exists|r: Result<()>|
                Db::writes(
                    *old(db),
                    *final(db),
                    r,
                    seq![OpView::Put { key: key.spec_bytes(), value: value@ }],
                ) && reply@ == #[trigger] write_reply(r),
        },
{
    let bytes: &[u8] = key.as_bytes();
    if bytes.len() > MAX_KEY_LEN {
        return text_reply(400, "key too long");
    }
    if value.len() > MAX_VALUE_LEN {
        return text_reply(413, "value too large");
    }
    let r = db.put(bytes, value);
    let reply = reply_to_write(&r);
    assert(reply@ == write_reply(r));
    reply
}

/// Remove a key.
pub fn delete_kv<V: Vfs>(db: &mut Db<V>, key: &str) -> (reply: Reply)
    requires
        old(db).valid(),
    ensures
        final(db).valid(),
        match write_refusal(key.spec_bytes().len(), 0) {
            Some(refused) => reply@ == refused && *final(db) == *old(db),
            None => exists|r: Result<()>|
                Db::writes(
                    *old(db),
                    *final(db),
                    r,
                    seq![OpView::Delete { key: key.spec_bytes() }],
                ) && reply@ == #[trigger] write_reply(r),
        },
{
    let bytes: &[u8] = key.as_bytes();
    if bytes.len() > MAX_KEY_LEN {
        return text_reply(400, "key too long");
    }
    let r = db.delete(bytes);
    let reply = reply_to_write(&r);
    assert(reply@ == write_reply(r));
    reply
}

// ----- Scans -----

/// One record of a scan, its bytes as base64.
#[derive(Debug, Clone)]
pub struct ScanRecord {
    /// Key.
    pub key: String,
    /// Value.
    pub value: String,
    /// Sequence number of the write.
    pub seqno: u64,
}

/// A page of a scan.
#[derive(Debug, Clone)]
pub struct ScanPage {
    /// The records, in ascending order of their keys.
    pub records: Vec<ScanRecord>,
    /// Whether the range goes on behind the page.
    pub truncated: bool,
}

/// The record stands for the entry.
pub open spec fn scan_shows(r: ScanRecord, e: Entry) -> bool {
    &&& r.key@ == base64_encoded(e.key)
    &&& r.value@ == base64_encoded(e.value)
    &&& r.seqno == e.seqno
    &&& base64_decoded(r.key@) == Some(e.key)
    &&& base64_decoded(r.value@) == Some(e.value)
}

/// Law: what a record shows can be read off it: the texts decode to the key and the
/// value, so that one record shows one entry.
pub proof fn law_shown_entry_can_be_read(r: ScanRecord, e: Entry, f: Entry)
    requires
        scan_shows(r, e),
    ensures
        base64_decoded(r.key@) == Some(e.key),
        base64_decoded(r.value@) == Some(e.value),
        r.seqno == e.seqno,
        scan_shows(r, f) ==> f.key == e.key && f.value == e.value && f.seqno == e.seqno,
{
}

/// The page shows the first `limit` of `items`.
pub open spec fn page_shows(page: ScanPage, items: Seq<Entry>, limit: nat) -> bool {
    let n = if items.len() <= limit {
        items.len()
    } else {
        limit
    };
    &&& page.truncated == (items.len() > limit)
    &&& page.records@.len() == n
    &&& forall|i: int|
        #![trigger page.records@[i]]
        0 <= i < n ==> scan_shows(page.records@[i], items[i])
}

/// Key and value are short enough for base64.
pub open spec fn encodable(e: Entry) -> bool {
    e.key.len() <= usize::MAX / 4 && e.value.len() <= usize::MAX / 4
}

/// Law: keys and values of less than a gigabyte are never too large for a page.
pub proof fn law_ordinary_records_are_shown(e: Entry)
    requires
        e.key.len() < 0x4000_0000,
        e.value.len() < 0x4000_0000,
    ensures
        encodable(e),
{
}

/// All keys and values are short enough for base64.
pub open spec fn all_encodable(items: Seq<Entry>) -> bool {
    forall|i: int| #![trigger items[i]] 0 <= i < items.len() ==> encodable(items[i])
}

/// What taking a page off a scan gives. `rest` is what the scan still holds:
/// the records, and the fault that ends it behind them. A page that is full is
/// given whatever comes behind it; a fault before that fails the page.
pub open spec fn page_gives(
    r: Result<ScanPage>,
    rest: (Seq<Entry>, Option<Fault>),
    limit: nat,
    reliable: bool,
) -> bool {
    match r {
        Ok(page) => {
            let n = page.records@.len();
            &&& n <= limit
            &&& n <= rest.0.len()
            &&& forall|i: int|
                #![trigger page.records@[i]]
                0 <= i < n ==> scan_shows(page.records@[i], rest.0[i])
            &&& page.truncated ==> n == limit && (reliable ==> n < rest.0.len() || rest.1 is Some)
            &&& !page.truncated ==> n == rest.0.len() && rest.1 is None
        },
        Err(e) => {
            ||| !reliable && e is Io
            ||| rest.0.len() < limit && (rest.1 matches Some(f) && shows(e, f))
            ||| e@ == ErrorView::InvalidArgument("record too large for base64"@) && exists|i: int|
                0 <= i < rest.0.len() && i < limit && !encodable(#[trigger] rest.0[i])
        },
    }
}

/// How many records a scan gives at most: as many as the request asks for, up
/// to a maximum.
pub open spec fn page_limit(limit: Option<usize>) -> nat {
    match limit {
        Some(l) => if l <= MAX_SCAN_LIMIT {
            l as nat
        } else {
            MAX_SCAN_LIMIT as nat
        },
        None => DEFAULT_SCAN_LIMIT as nat,
    }
}

/// Law: a scan gives as many records as it is asked for, up to ten thousand. So
/// asking for more never gives fewer, and up to there every request counts as it
/// stands; a thousand come only where a thousand or nothing was asked for.
pub proof fn law_limit_is_what_was_asked_for(asked: usize, more: usize)
    requires
        asked <= more,
    ensures
        page_limit(Some(asked)) <= asked,
        page_limit(Some(asked)) <= 10_000,
        page_limit(Some(asked)) == asked || page_limit(Some(asked)) == 10_000,
        asked <= 10_000 ==> page_limit(Some(asked)) == asked,
        page_limit(Some(asked)) <= page_limit(Some(more)),
        page_limit(Some(asked)) == page_limit(None) <==> asked == 1_000,
{
}

/// Law: a page shows the front of the range and says whether there is more. Of a
/// range of `items`, asked for `asked` records, it holds all of them where they
/// are as few as asked for and no more than ten thousand, and is then not
/// truncated; otherwise it is, and holds exactly that many. Record for record it
/// decodes to the keys and values of the range.
pub proof fn law_page_is_the_front(page: ScanPage, items: Seq<Entry>, asked: usize)
    requires
        page_shows(page, items, page_limit(Some(asked))),
    ensures
        items.len() <= asked && items.len() <= 10_000 ==> !page.truncated && page.records@.len()
            == items.len(),
        items.len() > asked || items.len() > 10_000 ==> page.truncated && page.records@.len() == (
        if asked <= 10_000 {
            asked as nat
        } else {
            10_000
        }),
        forall|i: int|
            #![trigger page.records@[i]]
            0 <= i < page.records@.len() ==> base64_decoded(page.records@[i].key@) == Some(
                items[i].key,
            ) && base64_decoded(page.records@[i].value@) == Some(items[i].value)
                && page.records@[i].seqno == items[i].seqno,
{
}

/// Law: a page is never given past a fault. Where the fault comes before the page
/// is full, the scan fails; a page that is not truncated ends with the range.
pub proof fn law_page_meets_fault(
    r: Result<ScanPage>,
    rest: (Seq<Entry>, Option<Fault>),
    limit: nat,
    reliable: bool,
)
    requires
        page_gives(r, rest, limit, reliable),
    ensures
        rest.1 is Some && rest.0.len() < limit ==> r is Err,
        r matches Ok(page) && !page.truncated ==> rest.1 is None && r->Ok_0.records@.len()
            == rest.0.len(),
        r matches Ok(page) && page.truncated && reliable ==> r->Ok_0.records@.len() == limit && (
        rest.0.len() > limit || rest.1 is Some),
{
}

/// How many records a scan gives at most.
pub fn scan_limit(limit: Option<usize>) -> (n: usize)
    ensures
        n == page_limit(limit),
{
    match limit {
        Some(l) => if l <= MAX_SCAN_LIMIT {
            l
        } else {
            MAX_SCAN_LIMIT
        },
        None => DEFAULT_SCAN_LIMIT,
    }
}

/// Take the first `limit` records off an iterator, and look whether there is
/// another one behind them.
pub fn take_page<V: Vfs>(it: &mut RangeIter<'_, V>, limit: usize) -> (r: Result<ScanPage>)
    requires
        old(it).wf(),
    ensures
        page_gives(r, old(it).rest(), limit as nat, old(it).reliable()),
{
    let ghost items = it.rest().0;
    let ghost fault = it.rest().1;
    let mut records: Vec<ScanRecord> = Vec::new();
    let mut truncated: bool = false;
    let mut done: bool = false;
    proof {
        assert(items.subrange(0, items.len() as int) =~= items);
    }
    while !done
        invariant
            !done ==> it.wf(),
            old(it).rest() == (items, fault),
            it.reliable() == old(it).reliable(),
            records@.len() <= limit,
            records@.len() <= items.len(),
            forall|i: int|
                #![trigger records@[i]]
                0 <= i < records@.len() ==> scan_shows(records@[i], items[i]),
            !done ==> !truncated && it.rest() == (
                items.subrange(records@.len() as int, items.len() as int),
                fault,
            ),
            truncated ==> records@.len() == limit && (it.reliable() ==> records@.len()
                < items.len() || fault is Some),
            done && !truncated ==> records@.len() == items.len() && fault is None,
        decreases items.len() - records@.len() + (if done { 0int } else { 1int }),
    {
        let ghost left = it.rest().0;
        let next = it.next();
        match next {
            Ok(None) => {
                done = true;
            },
            other => {
                if records.len() >= limit {
                    truncated = true;
                    done = true;
                } else {
                    let rec: RangeRecord = match other {
                        Ok(Some(rec)) => rec,
                        Ok(None) => {
                            return Ok(ScanPage { records, truncated });
                        },
                        Err(e) => {
                            return Err(e);
                        },
                    };
                    assert(left[0] == items[records@.len() as int]);
                    if rec.key.len() > usize::MAX / 4 || rec.value.len() > usize::MAX / 4 {
                        let e = Error::InvalidArgument("record too large for base64");
                        assert(!encodable(old(it).rest().0[records@.len() as int]));
                        return Err(e);
                    }
                    proof {
                        assert(left.subrange(1, left.len() as int) =~= items.subrange(
                            records@.len() as int + 1,
                            items.len() as int,
                        ));
                    }
                    records.push(
                        ScanRecord {
                            key: encode_base64(rec.key.as_slice()),
                            value: encode_base64(rec.value.as_slice()),
                            seqno: rec.seqno,
                        },
                    );
                }
            },
        }
    }
    Ok(ScanPage { records, truncated })
}

/// The lower end that a request's text stands for.
pub open spec fn start_view(text: Option<Seq<u8>>) -> BoundView {
    match text {
        Some(k) => BoundView::Included(k),
        None => BoundView::Unbounded,
    }
}

/// The upper end that a request's text stands for.
pub open spec fn end_view(text: Option<Seq<u8>>) -> BoundView {
    match text {
        Some(k) => BoundView::Excluded(k),
        None => BoundView::Unbounded,
    }
}

/// Law: a scan of a request gives the keys from the start on, which is one of them,
/// up to the end, which is not; where either is left out, all to that side.
pub proof fn law_request_range(start: Option<Seq<u8>>, end: Option<Seq<u8>>, key: Seq<u8>)
    ensures
        between(start_view(start), end_view(end), key) <==> (start is None || key == start->0
            || lex_lt(start->0, key)) && (end is None || lex_lt(key, end->0)),
        in_range(start_view(start), end_view(end), key) <==> between(
            start_view(start),
            end_view(end),
            key,
        ),
{
    if start is Some {
        lemma_lex_total(start->0, key);
        lemma_lex_irreflexive(key);
        if lex_lt(start->0, key) {
            lemma_lex_asymmetric(start->0, key);
        }
    }
    if end is Some {
        lemma_lex_total(end->0, key);
        lemma_lex_irreflexive(key);
        if lex_lt(key, end->0) {
            lemma_lex_asymmetric(key, end->0);
        }
    }
}

/// What an optional text decodes to: `None` where it is not valid.
pub open spec fn decoded_bound(text: Option<&str>) -> Option<Option<Seq<u8>>> {
    match text {
        Some(t) => match base64_decoded(t@) {
            Some(b) => Some(Some(b)),
            None => None,
        },
        None => Some(None),
    }
}

/// Law: an end that is left out is no end; one that is given is what its text decodes
/// to, and is refused where that is nothing.
pub proof fn law_ends_are_decoded(text: &str)
    ensures
        decoded_bound(None) == Some(None::<Seq<u8>>),
        decoded_bound(Some(text)) is None <==> base64_decoded(text@) is None,
        base64_decoded(text@) matches Some(key) ==> decoded_bound(Some(text)) == Some(Some(key)),
{
}

/// What scanning a range gives: a page of it; or, where the index of a table
/// cannot be read, the reason.
pub open spec fn scan_answers<V: Vfs>(
    db: Db<V>,
    r: Result<ScanPage>,
    start: BoundView,
    end: BoundView,
    limit: nat,
) -> bool {
    let tables = db.layers_state().sstables@;
    if exists|i: int| 0 <= i < tables.len() && (#[trigger] tables[i]).reader.index_fault() is Some {
        r matches Err(e) && exists|i: int|
            0 <= i < tables.len() && (#[trigger] tables[i]).reader.index_fault() == Some(e@)
    } else {
        page_gives(
            r,
            scanned(
                layer_queues(db.layers_state(), &db.fs()),
                start,
                end,
                db.last_seqno(),
                None,
            ),
            limit,
            db.reliable(),
        )
    }
}

/// Scan a range between bounds given as raw bytes, as it is now.
pub fn scan_range<V: Vfs>(
    db: &Db<V>,
    start: Option<&[u8]>,
    end: Option<&[u8]>,
    limit: usize,
) -> (r: Result<ScanPage>)
    requires
        db.valid(),
    ensures
        scan_answers(
            *db,
            r,
            start_view(bytes_view(start)),
            end_view(bytes_view(end)),
            limit as nat,
        ),
        db.sound() && db.reliable() ==> exists|items: Seq<Entry>|
            #[trigger] is_range_of(
                items,
                db@,
                start_view(bytes_view(start)),
                end_view(bytes_view(end)),
                db.last_seqno(),
            ) && (all_encodable(items) ==> (r matches Ok(page) && page_shows(
                page,
                items,
                limit as nat,
            ))),
{
    let start_bound: KeyBound<'_> = match start {
        Some(b) => KeyBound::Included(b),
        None => KeyBound::Unbounded,
    };
    let end_bound: KeyBound<'_> = match end {
        Some(b) => KeyBound::Excluded(b),
        None => KeyBound::Unbounded,
    };
    let mut it = match db.range_bounds(start_bound, end_bound, db.snapshot()) {
        Ok(it) => it,
        Err(e) => {
            return Err(e);
        },
    };
    take_page(&mut it, limit)
}

/// The bytes of an optional slice.
pub open spec fn bytes_view(b: Option<&[u8]>) -> Option<Seq<u8>> {
    match b {
        Some(x) => Some(x@),
        None => None,
    }
}

fn opt_slice<'a>(v: &'a Option<Vec<u8>>) -> (r: Option<&'a [u8]>)
    ensures
        bytes_view(r) == value_view(*v),
{
    match v {
        Some(b) => Some(b.as_slice()),
        None => None,
    }
}

/// Scan a range whose bounds come as base64. Gives a page, or the reply that
/// refuses the request.
pub fn scan<V: Vfs>(
    db: &Db<V>,
    start: Option<&str>,
    end: Option<&str>,
    limit: Option<usize>,
) -> (r: core::result::Result<ScanPage, Reply>)
    requires
        db.valid(),
    ensures
        ({
            let n = page_limit(limit);
            match (decoded_bound(start), decoded_bound(end)) {
                (None, _) => r matches Err(reply) && reply@ == ReplyView::Text(
                    400,
                    "start: invalid base64"@,
                ),
                (_, None) => r matches Err(reply) && reply@ == ReplyView::Text(
                    400,
                    "end: invalid base64"@,
                ),
                (Some(a), Some(b)) => {
                    &&& exists|q: Result<ScanPage>|
                        #[trigger] scan_answers(*db, q, start_view(a), end_view(b), n) && (
                        match r {
                            Ok(page) => q == Ok::<ScanPage, Error>(page),
                            Err(reply) => q matches Err(e) && reply@ == failure_reply(e@),
                        })
                    &&& db.sound() && db.reliable() ==> exists|items: Seq<Entry>|
                        #[trigger] is_range_of(
                            items,
                            db@,
                            start_view(a),
                            end_view(b),
                            db.last_seqno(),
                        ) && (all_encodable(items) ==> (r matches Ok(page) && page_shows(
                            page,
                            items,
                            n,
                        )))
                },
            }
        }),
{
    let start_bytes: Option<Vec<u8>> = match start {
        Some(text) => match decode_base64(text) {
            Some(b) => Some(b),
            None => {
                return Err(text_reply(400, "start: invalid base64"));
            },
        },
        None => None,
    };
    let end_bytes: Option<Vec<u8>> = match end {
        Some(text) => match decode_base64(text) {
            Some(b) => Some(b),
            None => {
                return Err(text_reply(400, "end: invalid base64"));
            },
        },
        None => None,
    };
    let n: usize = scan_limit(limit);
    let found = scan_range(db, opt_slice(&start_bytes), opt_slice(&end_bytes), n);
    assert(scan_answers(
        *db,
        found,
        start_view(value_view(start_bytes)),
        end_view(value_view(end_bytes)),
        page_limit(limit),
    ));
    match found {
        Ok(page) => Ok(page),
        Err(e) => Err(engine_err(&e)),
    }
}

// ----- Maintenance -----

/// What the statistics route reports.
#[derive(Debug, Clone, Copy, PartialEq, Eq, Structural)]
pub struct Stats {
    /// Number of live tables.
    pub sstable_count: usize,
    /// Last sequence number given out.
    pub current_seqno: u64,
    /// Whether tables are encrypted.
    pub encrypted: bool,
}

/// Report statistics.
pub fn stats<V: Vfs>(db: &Db<V>, encrypted: bool) -> (s: Stats)
    ensures
        s.sstable_count == db.layers_state().sstables@.len(),
        s.current_seqno == db.last_seqno(),
        s.encrypted == encrypted,
{
    Stats { sstable_count: db.sstable_count(), current_seqno: db.current_seqno(), encrypted }
}

/// Drain pending memtables to tables. Gives the number of tables, or the
/// reply to a failure.
pub fn flush<V: Vfs>(db: &mut Db<V>) -> (r: core::result::Result<usize, Reply>)
    requires
        old(db).valid(),
        old(db).can_write_tables(),
    ensures
        final(db).valid(),
        final(db).same_place(old(db)),
        final(db).last_seqno() == old(db).last_seqno(),
        final(db)@ == old(db)@,
        old(db).sound() ==> final(db).sound(),
        nothing_pending(old(db).layers_state()) ==> r is Ok && *final(db) == *old(db),
        match r {
            Ok(n) => n == final(db).layers_state().sstables@.len() && Db::flushed(
                *old(db),
                *final(db),
            ),
            Err(reply) => exists|e: ErrorView|
                reply@ == #[trigger] failure_reply(e) && (old(db).reliable() && old(db).durable()
                    ==> (old(db).flush_refused() matches Some(why) && e
                    == ErrorView::InvalidArgument(why))),
        },
        old(db).reliable() && old(db).durable() && old(db).all_flushable() && old(db).last_seqno()
            < u64::MAX && old(db).next_file() + memtable_layers(old(db).layers_state()).len()
            < u64::MAX ==> r is Ok,
        old(db).reliable() && old(db).durable() ==> (r is Ok <==> old(db).flush_refused() is None),
{
    match db.flush() {
        Ok(()) => Ok(db.sstable_count()),
        Err(e) => {
            let reply = engine_err(&e);
            assert(reply@ == failure_reply(e@));
            Err(reply)
        },
    }
}

/// Merge every table into one. Gives the number of tables, or the reply to a
/// failure.
pub fn compact<V: Vfs>(db: &mut Db<V>) -> (r: core::result::Result<usize, Reply>)
    requires
        old(db).valid(),
        old(db).can_write_tables(),
    ensures
        final(db).valid(),
        final(db).same_place(old(db)),
        final(db).last_seqno() == old(db).last_seqno(),
        final(db)@ == old(db)@,
        old(db).sound() ==> final(db).sound(),
        memtable_layers(final(db).layers_state()) == memtable_layers(old(db).layers_state()),
        old(db).layers_state().sstables@.len() < 2 ==> r is Ok && *final(db) == *old(db),
        match r {
            Ok(n) => n == final(db).layers_state().sstables@.len() && n <= 1 && Db::compacted(
                *old(db),
                *final(db),
            ),
            Err(reply) => exists|e: Error|
                reply@ == failure_reply(#[trigger] e@) && (old(db).reliable() ==> (
                old(db).merge_refused() matches Some(f) && shows(e, f))),
        },
        old(db).reliable() && old(db).durable() && old(db).next_file() < u64::MAX
            && old(db).merge_fits() ==> r is Ok,
        old(db).reliable() ==> (r is Ok <==> old(db).layers_state().sstables@.len() < 2 || old(db).merge_refused() is None),
{
    match db.compact_all() {
        Ok(()) => Ok(db.sstable_count()),
        Err(e) => {
            let reply = engine_err(&e);
            assert(reply@ == failure_reply(e@));
            Err(reply)
        },
    }
}

// ----- Configuration -----

/// The value of a hexadecimal digit, if it is one.
pub open spec fn hex_value(b: u8) -> Option<u8> {
    if 48 <= b <= 57 {
        Some((b - 48) as u8)
    } else if 97 <= b <= 102 {
        Some((b - 87) as u8)
    } else if 65 <= b <= 70 {
        Some((b - 55) as u8)
    } else {
        None
    }
}

/// The byte that two digits write.
pub open spec fn hex_pair(a: u8, b: u8) -> Option<u8> {
    match (hex_value(a), hex_value(b)) {
        (Some(h), Some(l)) => Some((h * 16 + l) as u8),
        _ => None,
    }
}

/// What 64 hexadecimal characters decode to.
pub open spec fn hex_decoded(text: Seq<u8>) -> Option<Seq<u8>> {
    if text.len() == 64 && forall|i: int|
        0 <= i < 32 ==> (#[trigger] hex_pair(text[2 * i], text[2 * i + 1])) is Some {
        Some(Seq::new(32, |i: int| hex_pair(text[2 * i], text[2 * i + 1])->Some_0))
    } else {
        None
    }
}

/// The character that writes a number below 16, in lower or upper case.
pub open spec fn hex_char(n: int, upper: bool) -> int {
    if n < 10 {
        n + 48
    } else if upper {
        n + 55
    } else {
        n + 87
    }
}

/// `text` writes `key`, two characters a byte, each in either case.
pub open spec fn writes_key(text: Seq<u8>, key: Seq<u8>) -> bool {
    &&& key.len() == 32
    &&& text.len() == 64
    &&& forall|i: int|
        0 <= i < 32 ==> ({
            let b = #[trigger] key[i] as int;
            let (x, y) = (text[2 * i] as int, text[2 * i + 1] as int);
            &&& x == hex_char(b / 16, false) || x == hex_char(b / 16, true)
            &&& y == hex_char(b % 16, false) || y == hex_char(b % 16, true)
        })
}

/// Law: a text is taken as a key if and only if it writes one, two hexadecimal
/// characters a byte and nothing else, and then as the key that it writes.
pub proof fn law_key_text(text: Seq<u8>, key: Seq<u8>)
    ensures
        hex_decoded(text) == Some(key) <==> writes_key(text, key),
{
    assert forall|a: u8, b: u8, v: u8|
        #![trigger hex_pair(a, b), hex_char(v as int / 16, false)]
        hex_pair(a, b) == Some(v) <==> (a == hex_char(v as int / 16, false) || a == hex_char(
            v as int / 16,
            true,
        )) && (b == hex_char(v as int % 16, false) || b == hex_char(v as int % 16, true)) by {}
    if writes_key(text, key) {
        assert forall|i: int| 0 <= i < 32 implies (#[trigger] hex_pair(
            text[2 * i],
            text[2 * i + 1],
        )) == Some(key[i]) by {
            let v = key[i];
            assert(hex_char(v as int / 16, false) == hex_char(key[i] as int / 16, false));
        }
        assert(Seq::new(32, |i: int| hex_pair(text[2 * i], text[2 * i + 1])->Some_0) =~= key);
    }
    if hex_decoded(text) == Some(key) {
        let all = Seq::new(32, |i: int| hex_pair(text[2 * i], text[2 * i + 1])->Some_0);
        assert(key == all);
        assert forall|i: int| 0 <= i < 32 implies ({
            let b = #[trigger] key[i] as int;
            let (x, y) = (text[2 * i] as int, text[2 * i + 1] as int);
            &&& x == hex_char(b / 16, false) || x == hex_char(b / 16, true)
            &&& y == hex_char(b % 16, false) || y == hex_char(b % 16, true)
        }) by {
            assert(hex_pair(text[2 * i], text[2 * i + 1]) is Some);
            assert(hex_pair(text[2 * i], text[2 * i + 1]) == Some(key[i]));
            assert(hex_char(key[i] as int / 16, false) == hex_char(key[i] as int / 16, false));
        }
    }
}

fn hex_digit(b: u8) -> (r: Option<u8>)
    ensures
        r == hex_value(b),
        r matches Some(v) ==> v < 16,
{
    if 48 <= b && b <= 57 {
        Some(b - 48)
    } else if 97 <= b && b <= 102 {
        Some(b - 87)
    } else if 65 <= b && b <= 70 {
        Some(b - 55)
    } else {
        None
    }
}

fn hex_byte(a: u8, b: u8) -> (r: Option<u8>)
    ensures
        r == hex_pair(a, b),
{
    match (hex_digit(a), hex_digit(b)) {
        (Some(h), Some(l)) => Some(h * 16 + l),
        _ => None,
    }
}

/// Decode a key of 32 bytes from 64 hexadecimal characters.
pub fn decode_hex_32(hex: &str) -> (r: Option<[u8; 32]>)
    ensures
        match hex_decoded(hex.spec_bytes()) {
            Some(b) => r matches Some(k) && k@ == b,
            None => r is None,
        },
{
    let text: &[u8] = hex.as_bytes();
    if text.len() != 64 {
        return None;
    }
    let mut out: [u8; 32] = [0u8;32];
    let mut i: usize = 0;
    while i < 32
        invariant
            i <= 32,
            text@.len() == 64,
            text@ == hex.spec_bytes(),
            forall|k: int|
                0 <= k < i ==> (#[trigger] hex_pair(text@[2 * k], text@[2 * k + 1])) == Some(
                    out@[k],
                ),
        decreases 32 - i,
    {
        match hex_byte(text[2 * i], text[2 * i + 1]) {
            Some(b) => {
                out[i] = b;
            },
            None => {
                assert(hex_pair(text@[2 * i as int], text@[2 * i + 1]) is None);
                return None;
            },
        }
        i += 1;
    }
    assert(out@ =~= Seq::new(32, |k: int| hex_pair(text@[2 * k], text@[2 * k + 1])->Some_0));
    Some(out)
}

/// Everything but the master key is as in the default configuration.
pub open spec fn default_but_key(c: DbConfig) -> bool {
    &&& c.memtable_threshold_bytes == 4 * 1024 * 1024
    &&& c.bloom_bits_per_key == 10
    &&& c.bloom_num_hashes == 8
    &&& c.sstable_capacity_hint == 10_000
}

/// The engine's configuration, from the master key's text where one is set.
pub fn build_config(master_key: Option<&str>) -> (r: core::result::Result<DbConfig, String>)
    ensures
        match master_key {
            None => r matches Ok(c) && c.master_key is None && default_but_key(c),
            Some(hex) => match hex_decoded(hex.spec_bytes()) {
                Some(b) => r matches Ok(c) && (c.master_key matches Some(k) && k@ == b)
                    && default_but_key(c),
                None => r matches Err(why) && why@
                    == "PADDOCK_MASTER_KEY must be 64 hex chars (32 bytes)"@,
            },
        },
{
    let mut config = DbConfig::default();
    match master_key {
        None => {},
        Some(hex) => match decode_hex_32(hex) {
            Some(raw) => {
                config.master_key = Some(MasterKey::from_bytes(raw));
            },
            None => {
                return Err("PADDOCK_MASTER_KEY must be 64 hex chars (32 bytes)".to_owned());
            },
        },
    }
    Ok(config)
}

} // verus!
