//! WAL segment reader and replay.
//!
//! [`SegmentReader`] reads a segment file written by
//! [`super::writer::SegmentWriter`] and yields one logical record at a time:
//! fragments are joined and surfaced as a single payload plus the sequence
//! number. A fragment that is cut short or fails its checksum is reported as a
//! torn tail, at the place where the record in question started.
use vstd::prelude::*;
use vstd::string::*;

use crate::checksum::crc32c::{crc32c, one_byte_off};
use crate::encoding::fixed::{lemma_u64_round_trip, push_bytes, u16_from, u32_from, u64_le};
use crate::encoding::text::{decimal, decimal_string, padded, padded_string};
use crate::error::{corruption, invalid_format, Error, ErrorView, Result};
use crate::io::vfs::{bytes_of, is_open, read_vec, VfsFile};
use crate::wal::format::{
    RecordHeader, RecordType, SegmentHeader, BLOCK_SIZE, FORMAT_VERSION, MAX_FRAGMENT_PAYLOAD,
    RECORD_HEADER_SIZE, SEGMENT_HEADER_SIZE, SEGMENT_MAGIC,
};
use crate::wal::writer::{
    block_room, fragment, fragment_type, fragments, lemma_next_block, padding, record_bytes,
};

verus! {

/// One logical record yielded by [`SegmentReader::next_record`].
#[derive(Debug, Clone, PartialEq, Eq)]
pub struct RecordView {
    /// Sequence number recorded in the (first) fragment header.
    pub seqno: u64,
    /// Reassembled record payload.
    pub payload: Vec<u8>,
}

/// A logical record over mathematical byte strings.
#[verifier::ext_equal]
pub struct LogRecord {
    /// Sequence number.
    pub seqno: u64,
    /// Payload.
    pub payload: Seq<u8>,
}

impl View for RecordView {
    type V = LogRecord;

    open spec fn view(&self) -> LogRecord {
        LogRecord { seqno: self.seqno, payload: self.payload@ }
    }
}

/// Outcome of a single [`SegmentReader::next_record`] call.
#[derive(Debug)]
pub enum ReadOutcome {
    /// A complete logical record was read successfully.
    Record(RecordView),
    /// The reader reached the end of the segment cleanly.
    EndOfSegment,
    /// A torn write was detected at the segment tail. The caller should
    /// truncate the segment at `truncate_to` bytes from the start of the
    /// records area.
    TornTail {
        /// Byte offset (in the records area) where the corruption begins.
        truncate_to: u64,
        /// Diagnostic description.
        reason: &'static str,
    },
}

/// Whole-segment replay outcome.
#[derive(Debug)]
pub enum ReplayOutcome {
    /// Segment ended cleanly.
    Clean,
    /// Segment had a torn tail. The caller may truncate to `truncate_to`
    /// records-area bytes and continue.
    TornTail {
        /// Byte offset (in the records area) where the corruption begins.
        truncate_to: u64,
        /// Diagnostic description.
        reason: &'static str,
    },
}

// ----- What the bytes of a records area mean -----

/// Every byte is zero.
pub open spec fn all_zero(s: Seq<u8>) -> bool {
    forall|i: int| 0 <= i < s.len() ==> s[i] == 0
}

/// What stands at a position of the records area.
pub enum FragmentParse {
    /// Free space: go on at this position.
    SkipTo(nat),
    /// A fragment that is cut short or damaged.
    Torn(Seq<char>),
    /// A fragment that no writer produces.
    Bad(ErrorView),
    /// A sound fragment.
    Got { record_type: RecordType, seqno: u64, payload: Seq<u8> },
}

/// What stands at position `c`, with room for a header there.
#[verifier::opaque]
pub open spec fn parse_fragment(area: Seq<u8>, c: nat) -> FragmentParse {
    let header_bytes = area.subrange(c as int, c + RECORD_HEADER_SIZE);
    let h = RecordHeader::parse(header_bytes);
    if all_zero(header_bytes) {
        FragmentParse::SkipTo(
            if c + block_room(c) <= area.len() {
                c + block_room(c)
            } else {
                area.len()
            },
        )
    } else if h.length > MAX_FRAGMENT_PAYLOAD {
        FragmentParse::Torn("fragment length exceeds block size"@)
    } else if c + RECORD_HEADER_SIZE + h.length > area.len() {
        FragmentParse::Torn("fragment payload truncated by segment EOF"@)
    } else {
        let payload = area.subrange(
            c + RECORD_HEADER_SIZE,
            c + RECORD_HEADER_SIZE + h.length,
        );
        if h.crc_for(payload) != h.payload_crc32c {
            FragmentParse::Torn("fragment crc32c mismatch"@)
        } else {
            match RecordType::of_byte(h.record_type) {
                None => FragmentParse::Bad(
                    invalid_format(
                        "wal record header"@,
                        "invalid record_type byte 0x"@ + padded(h.record_type as nat, 16, 2),
                    ),
                ),
                Some(record_type) => FragmentParse::Got { record_type, seqno: h.seqno, payload },
            }
        }
    }
}

/// What comes of adding a fragment to a record in progress.
pub enum Assembly {
    /// More fragments are needed.
    Continue(LogRecord),
    /// The record is complete.
    Complete(LogRecord),
    /// The fragment does not belong there.
    Bad(ErrorView),
}

/// Add a fragment to the record in progress.
pub open spec fn assembled(
    progress: Option<LogRecord>,
    record_type: RecordType,
    seqno: u64,
    payload: Seq<u8>,
) -> Assembly {
    match (record_type, progress) {
        (RecordType::Full, None) => Assembly::Complete(LogRecord { seqno, payload }),
        (RecordType::Full, Some(_)) => Assembly::Bad(
            corruption("wal segment"@, "FULL fragment encountered mid-record assembly"@),
        ),
        (RecordType::First, None) => Assembly::Continue(LogRecord { seqno, payload }),
        (RecordType::First, Some(_)) => Assembly::Bad(
            corruption("wal segment"@, "FIRST fragment encountered mid-record assembly"@),
        ),
        (RecordType::Middle, None) => Assembly::Bad(
            corruption("wal segment"@, "Middle fragment encountered without a preceding FIRST"@),
        ),
        (RecordType::Last, None) => Assembly::Bad(
            corruption("wal segment"@, "Last fragment encountered without a preceding FIRST"@),
        ),
        (RecordType::Middle, Some(r)) => if r.seqno != seqno {
            Assembly::Bad(
                corruption(
                    "wal segment"@,
                    "MIDDLE fragment seqno "@ + decimal(seqno as nat)
                        + " does not match in-progress "@ + decimal(r.seqno as nat),
                ),
            )
        } else {
            Assembly::Continue(LogRecord { seqno, payload: r.payload + payload })
        },
        (RecordType::Last, Some(r)) => if r.seqno != seqno {
            Assembly::Bad(
                corruption(
                    "wal segment"@,
                    "LAST fragment seqno "@ + decimal(seqno as nat)
                        + " does not match in-progress "@ + decimal(r.seqno as nat),
                ),
            )
        } else {
            Assembly::Complete(LogRecord { seqno, payload: r.payload + payload })
        },
    }
}

/// What reading one logical record comes to, and where the cursor then
/// stands.
pub enum NextRead {
    /// A record.
    Record { record: LogRecord, cursor: nat },
    /// The clean end.
    End { cursor: nat },
    /// A torn write.
    Torn { reason: Seq<char>, cursor: nat },
    /// An error.
    Bad { error: ErrorView, cursor: nat },
}

/// The cursor after skipping the end of a block too short for a header.
pub open spec fn skip_padding(area_len: nat, c: nat) -> nat {
    if block_room(c) < RECORD_HEADER_SIZE && c + block_room(c) <= area_len {
        c + block_room(c)
    } else {
        c
    }
}

/// What the last few bytes, too few for a header, come to.
pub open spec fn read_tail(area: Seq<u8>, c: nat, progress: Option<LogRecord>) -> NextRead {
    if progress is Some {
        NextRead::Torn { reason: "segment ended mid-fragment"@, cursor: c }
    } else if c >= area.len() || all_zero(area.subrange(c as int, area.len() as int)) {
        NextRead::End { cursor: c }
    } else {
        NextRead::Torn {
            reason: "stray bytes shorter than a record header at segment tail"@,
            cursor: c,
        }
    }
}

/// Read from position `c` on until a record is complete.
#[verifier::opaque]
pub open spec fn next_from(area: Seq<u8>, c: nat, progress: Option<LogRecord>) -> NextRead
    decreases area.len() - c,
{
    let c1 = skip_padding(area.len(), c);
    if c1 + RECORD_HEADER_SIZE > area.len() {
        read_tail(area, c1, progress)
    } else {
        proof {
            reveal(parse_fragment);
        }
        match parse_fragment(area, c1) {
            FragmentParse::SkipTo(c2) => if c2 > c1 {
                next_from(area, c2, progress)
            } else {
                NextRead::End { cursor: c2 }
            },
            FragmentParse::Torn(reason) => NextRead::Torn { reason, cursor: c1 },
            FragmentParse::Bad(error) => NextRead::Bad { error, cursor: c1 },
            FragmentParse::Got { record_type, seqno, payload } => {
                let c2 = (c1 + RECORD_HEADER_SIZE + payload.len()) as nat;
                match assembled(progress, record_type, seqno, payload) {
                    Assembly::Continue(r) => next_from(area, c2, Some(r)),
                    Assembly::Complete(record) => NextRead::Record { record, cursor: c2 },
                    Assembly::Bad(error) => NextRead::Bad { error, cursor: c2 },
                }
            },
        }
    }
}

/// How a replay ends.
pub enum ReplayEnd {
    /// See [`ReplayOutcome::Clean`].
    Clean,
    /// See [`ReplayOutcome::TornTail`].
    Torn { truncate_to: nat, reason: Seq<char> },
    /// An error.
    Bad(ErrorView),
}

/// The records read from position `c` on, and how that ends.
pub open spec fn replay_from(area: Seq<u8>, c: nat) -> (Seq<LogRecord>, ReplayEnd)
    decreases area.len() - c,
{
    match next_from(area, c, None) {
        NextRead::Record { record, cursor } => if c < cursor <= area.len() {
            let (more, end) = replay_from(area, cursor);
            (seq![record] + more, end)
        } else {
            (seq![record], ReplayEnd::Clean)
        },
        NextRead::End { cursor } => (Seq::empty(), ReplayEnd::Clean),
        NextRead::Torn { reason, cursor } => (
            Seq::empty(),
            ReplayEnd::Torn { truncate_to: c, reason },
        ),
        NextRead::Bad { error, cursor } => (Seq::empty(), ReplayEnd::Bad(error)),
    }
}

/// The records area that writing `records` in order produces.
pub open spec fn area_of(records: Seq<LogRecord>) -> Seq<u8>
    decreases records.len(),
{
    if records.len() == 0 {
        Seq::empty()
    } else {
        let front = area_of(records.drop_last());
        front + record_bytes(front.len(), records.last().seqno, records.last().payload)
    }
}

/// The header of a segment file, or why it is not accepted.
pub open spec fn parse_segment(bytes: Seq<u8>) -> core::result::Result<SegmentHeader, ErrorView> {
    let h = SegmentHeader::parse(bytes.subrange(0, SEGMENT_HEADER_SIZE as int));
    if bytes.len() < SEGMENT_HEADER_SIZE {
        Err(
            invalid_format(
                "wal segment"@,
                "file too short: "@ + decimal(bytes.len()) + " bytes (need at least 32)"@,
            ),
        )
    } else if h.magic != SEGMENT_MAGIC {
        Err(invalid_format("wal segment header"@, "bad magic"@))
    } else if h.version != FORMAT_VERSION {
        Err(
            invalid_format(
                "wal segment header"@,
                "unsupported version "@ + decimal(h.version as nat)
                    + " (this build understands 1)"@,
            ),
        )
    } else if !h.valid() {
        Err(corruption("wal segment header"@, "checksum mismatch"@))
    } else {
        Ok(h)
    }
}

// ----- Laws -----

/// What a completed or interrupted read leaves the cursor at lies inside the
/// area, and a record moves it forward.
pub proof fn lemma_next_bounds(area: Seq<u8>, c: nat, progress: Option<LogRecord>)
    requires
        c <= area.len(),
    ensures
        match next_from(area, c, progress) {
            NextRead::Record { record, cursor } => c < cursor <= area.len(),
            NextRead::End { cursor } => c <= cursor <= area.len(),
            NextRead::Torn { reason, cursor } => c <= cursor <= area.len(),
            NextRead::Bad { error, cursor } => c <= cursor <= area.len(),
        },
    decreases area.len() - c,
{
    reveal(parse_fragment);
    reveal_with_fuel(next_from, 1);
    lemma_next_block(c);
    let c1 = skip_padding(area.len(), c);
    if c1 + RECORD_HEADER_SIZE <= area.len() {
        lemma_next_block(c1);
        match parse_fragment(area, c1) {
            FragmentParse::SkipTo(c2) => {
                lemma_next_bounds(area, c2, progress);
            },
            FragmentParse::Got { record_type, seqno, payload } => {
                let c2 = (c1 + RECORD_HEADER_SIZE + payload.len()) as nat;
                match assembled(progress, record_type, seqno, payload) {
                    Assembly::Continue(r) => {
                        lemma_next_bounds(area, c2, Some(r));
                    },
                    _ => {},
                }
            },
            _ => {},
        }
    }
}

/// A written fragment is read back as it was written.
proof fn lemma_fragment_reads(
    area: Seq<u8>,
    c: nat,
    record_type: RecordType,
    seqno: u64,
    payload: Seq<u8>,
)
    requires
        payload.len() <= MAX_FRAGMENT_PAYLOAD,
        c + fragment(record_type, seqno, payload).len() <= area.len(),
        area.subrange(c as int, (c + fragment(record_type, seqno, payload).len()) as int)
            == fragment(record_type, seqno, payload),
    ensures
        fragment(record_type, seqno, payload).len() == RECORD_HEADER_SIZE + payload.len(),
        parse_fragment(area, c) == (FragmentParse::Got { record_type, seqno, payload }),
{
    reveal(parse_fragment);
    let h = RecordHeader::signed(record_type, seqno, payload);
    h.law_round_trip();
    let whole = fragment(record_type, seqno, payload);
    let at = area.subrange(c as int, (c + whole.len()) as int);
    assert(area.subrange(c as int, c + RECORD_HEADER_SIZE) =~= h.bytes()) by {
        assert(at.subrange(0, RECORD_HEADER_SIZE as int) =~= h.bytes());
        assert(area.subrange(c as int, c + RECORD_HEADER_SIZE) =~= at.subrange(
            0,
            RECORD_HEADER_SIZE as int,
        ));
    }
    assert(h.bytes()[6] == record_type.byte());
    assert(!all_zero(h.bytes()));
    assert(area.subrange(c + RECORD_HEADER_SIZE, c + RECORD_HEADER_SIZE + payload.len())
        =~= payload) by {
        assert(at.subrange(RECORD_HEADER_SIZE as int, at.len() as int) =~= payload);
        assert(area.subrange(c + RECORD_HEADER_SIZE, c + RECORD_HEADER_SIZE + payload.len())
            =~= at.subrange(RECORD_HEADER_SIZE as int, at.len() as int));
    }
}

/// Length of a written fragment.
proof fn lemma_fragment_len(record_type: RecordType, seqno: u64, payload: Seq<u8>)
    ensures
        fragment(record_type, seqno, payload).len() == RECORD_HEADER_SIZE + payload.len(),
{
    RecordHeader::signed(record_type, seqno, payload).law_round_trip();
}

/// The record in progress once `got` has been read of it.
spec fn progress_of(is_first: bool, seqno: u64, got: Seq<u8>) -> Option<LogRecord> {
    if is_first {
        None
    } else {
        Some(LogRecord { seqno, payload: got })
    }
}

/// The fragments of a record are read back and joined.
proof fn lemma_fragments_read(
    pre: Seq<u8>,
    seqno: u64,
    payload: Seq<u8>,
    is_first: bool,
    got: Seq<u8>,
    rest: Seq<u8>,
)
    requires
        block_room(pre.len()) >= RECORD_HEADER_SIZE,
        is_first ==> got.len() == 0,
    ensures
        fragments(pre.len(), seqno, payload, is_first).len() >= RECORD_HEADER_SIZE,
        next_from(
            pre + fragments(pre.len(), seqno, payload, is_first) + rest,
            pre.len(),
            progress_of(is_first, seqno, got),
        ) == (NextRead::Record {
            record: LogRecord { seqno, payload: got + payload },
            cursor: pre.len() + fragments(pre.len(), seqno, payload, is_first).len(),
        }),
    decreases
            payload.len(),
            (if block_room(pre.len()) == RECORD_HEADER_SIZE { 1int } else { 0int }),
{
    reveal_with_fuel(next_from, 1);
    let pos = pre.len();
    let all = fragments(pos, seqno, payload, is_first);
    let area = pre + all + rest;
    let progress = progress_of(is_first, seqno, got);
    let room = (block_room(pos) - RECORD_HEADER_SIZE) as nat;
    lemma_next_block(pos);
    if is_first {
        assert(got + payload =~= payload);
    }
    if payload.len() <= room {
        let t = fragment_type(is_first, true);
        lemma_fragment_len(t, seqno, payload);
        assert(area.subrange(pos as int, (pos + all.len()) as int) =~= all);
        lemma_fragment_reads(area, pos, t, seqno, payload);
    } else {
        let t = fragment_type(is_first, false);
        let chunk = payload.subrange(0, room as int);
        let tail = payload.subrange(room as int, payload.len() as int);
        let frag = fragment(t, seqno, chunk);
        lemma_fragment_len(t, seqno, chunk);
        let pre2 = pre + frag;
        assert(pre2.len() == pos + block_room(pos));
        let more = fragments(pre2.len(), seqno, tail, false);
        assert(area =~= pre2 + more + rest);
        assert(area.subrange(pos as int, (pos + frag.len()) as int) =~= frag);
        lemma_fragment_reads(area, pos, t, seqno, chunk);
        lemma_fragments_read(pre2, seqno, tail, false, got + chunk, rest);
        assert((got + chunk) + tail =~= got + payload);
        if is_first {
            assert(got + chunk =~= chunk);
        }
    }
}

/// A written record is read back as it was written, whatever follows it.
pub proof fn lemma_record_reads(pre: Seq<u8>, seqno: u64, payload: Seq<u8>, rest: Seq<u8>)
    ensures
        next_from(pre + record_bytes(pre.len(), seqno, payload) + rest, pre.len(), None) == (
        NextRead::Record {
            record: LogRecord { seqno, payload },
            cursor: pre.len() + record_bytes(pre.len(), seqno, payload).len(),
        }),
        record_bytes(pre.len(), seqno, payload).len() >= RECORD_HEADER_SIZE,
{
    reveal_with_fuel(next_from, 1);
    let pad = padding(pre.len());
    let pre2 = pre + pad;
    lemma_next_block(pre.len());
    lemma_fragments_read(pre2, seqno, payload, true, Seq::empty(), rest);
    let area = pre + record_bytes(pre.len(), seqno, payload) + rest;
    assert(area =~= pre2 + fragments(pre2.len(), seqno, payload, true) + rest);
    assert(Seq::<u8>::empty() + payload =~= payload);
    if pad.len() > 0 {
        assert(skip_padding(area.len(), pre.len()) == pre2.len());
        assert(skip_padding(area.len(), pre2.len()) == pre2.len());
    } else {
        assert(pre2 =~= pre);
    }
}

/// Law: replaying what was written gives back the records in order, and ends
/// cleanly.
pub proof fn law_replay_of_written(records: Seq<LogRecord>)
    ensures
        replay_from(area_of(records), 0) == (records, ReplayEnd::Clean),
{
    let area = area_of(records);
    assert(area =~= area_of(records) + Seq::<u8>::empty());
    lemma_next_at_end(area);
    lemma_replay_prefix(records, Seq::empty(), 0);
    assert(records.subrange(0, 0) =~= Seq::empty());
    assert(records.subrange(0, records.len() as int) =~= records);
    assert(records + Seq::<LogRecord>::empty() =~= records);
}

/// At the very end of an area there is nothing more.
proof fn lemma_next_at_end(area: Seq<u8>)
    ensures
        replay_from(area, area.len()) == (Seq::<LogRecord>::empty(), ReplayEnd::Clean),
{
    reveal_with_fuel(next_from, 1);
    lemma_next_block(area.len());
}

/// The area of the first `k` records is where record `k` is read.
proof fn lemma_area_split(records: Seq<LogRecord>, k: int)
    requires
        0 <= k < records.len(),
    ensures
        exists|more: Seq<u8>|
            area_of(records) == #[trigger] (area_of(records.subrange(0, k + 1)) + more),
        area_of(records.subrange(0, k + 1)) == area_of(records.subrange(0, k)) + record_bytes(
            area_of(records.subrange(0, k)).len(),
            records[k].seqno,
            records[k].payload,
        ),
    decreases records.len(),
{
    let now = records.subrange(0, k + 1);
    assert(now.drop_last() =~= records.subrange(0, k));
    if k + 1 == records.len() {
        assert(now =~= records);
        assert(area_of(records) =~= area_of(now) + Seq::<u8>::empty());
    } else {
        let front = records.drop_last();
        lemma_area_split(front, k);
        assert(front.subrange(0, k + 1) =~= now);
        let more = choose|more: Seq<u8>| area_of(front) == #[trigger] (area_of(now) + more);
        let last = record_bytes(area_of(front).len(), records.last().seqno, records.last().payload);
        assert(area_of(records) =~= area_of(now) + (more + last));
    }
}

/// Replaying from the start of record `k` gives the records from there on,
/// followed by whatever the bytes after the last of them give.
proof fn lemma_replay_prefix(records: Seq<LogRecord>, rest: Seq<u8>, k: int)
    requires
        0 <= k <= records.len(),
    ensures
        ({
            let area = area_of(records) + rest;
            let after = replay_from(area, area_of(records).len());
            replay_from(area, area_of(records.subrange(0, k)).len()) == (
                records.subrange(k, records.len() as int) + after.0,
                after.1,
            )
        }),
    decreases records.len() - k,
{
    let area = area_of(records) + rest;
    let after = replay_from(area, area_of(records).len());
    if k == records.len() {
        assert(records.subrange(0, k) =~= records);
        assert(records.subrange(k, records.len() as int) + after.0 =~= after.0);
    } else {
        lemma_area_split(records, k);
        lemma_replay_prefix(records, rest, k + 1);
        let pre = area_of(records.subrange(0, k));
        let r = records[k];
        let more = choose|more: Seq<u8>|
            area_of(records) == #[trigger] (area_of(records.subrange(0, k + 1)) + more);
        assert(area =~= pre + record_bytes(pre.len(), r.seqno, r.payload) + (more + rest));
        lemma_record_reads(pre, r.seqno, r.payload, more + rest);
        assert(seq![r] + (records.subrange(k + 1, records.len() as int) + after.0)
            =~= records.subrange(k, records.len() as int) + after.0);
    }
}

/// Fragments that are cut short give no record.
proof fn lemma_fragments_torn(
    pre: Seq<u8>,
    seqno: u64,
    payload: Seq<u8>,
    is_first: bool,
    got: Seq<u8>,
    k: int,
)
    requires
        block_room(pre.len()) >= RECORD_HEADER_SIZE,
        0 <= k < fragments(pre.len(), seqno, payload, is_first).len(),
    ensures
        ({
            let n = next_from(
                pre + fragments(pre.len(), seqno, payload, is_first).subrange(0, k),
                pre.len(),
                progress_of(is_first, seqno, got),
            );
            n is Torn || (is_first && n is End && k < 7)
        }),
        is_first && k == 0 ==> next_from(pre, pre.len(), None) is End,
    decreases
            payload.len(),
            (if block_room(pre.len()) == RECORD_HEADER_SIZE { 1int } else { 0int }),
{
    reveal_with_fuel(next_from, 1);
    let pos = pre.len();
    let all = fragments(pos, seqno, payload, is_first);
    let area = pre + all.subrange(0, k);
    let room = (block_room(pos) - RECORD_HEADER_SIZE) as nat;
    let last = payload.len() <= room;
    let t = fragment_type(is_first, last);
    let chunk = if last { payload } else { payload.subrange(0, room as int) };
    let frag = fragment(t, seqno, chunk);
    lemma_next_block(pos);
    lemma_fragment_len(t, seqno, chunk);
    let h = RecordHeader::signed(t, seqno, chunk);
    h.law_round_trip();
    if 7 <= k < RECORD_HEADER_SIZE {
        assert(h.bytes()[6] == t.byte());
        assert(area[(pos + 6) as int] == frag[6]);
        assert(!all_zero(area.subrange(pos as int, area.len() as int))) by {
            assert(area.subrange(pos as int, area.len() as int)[6] != 0);
        }
    }
    if k >= RECORD_HEADER_SIZE {
        reveal(parse_fragment);
        assert(area.subrange(pos as int, pos + RECORD_HEADER_SIZE) =~= h.bytes());
        assert(h.bytes()[6] == t.byte());
        assert(!all_zero(h.bytes()));
        if k >= frag.len() {
            let tail = payload.subrange(room as int, payload.len() as int);
            let pre2 = pre + frag;
            let more = fragments(pre2.len(), seqno, tail, false);
            assert(all =~= frag + more);
            assert(area =~= pre2 + more.subrange(0, k - frag.len()));
            assert(area.subrange(pos as int, (pos + frag.len()) as int) =~= frag);
            lemma_fragment_reads(area, pos, t, seqno, chunk);
            lemma_fragments_torn(pre2, seqno, tail, false, got + chunk, k - frag.len());
            if is_first {
                lemma_fragments_torn(pre2, seqno, tail, false, chunk, k - frag.len());
            }
        }
    }
}

/// A record that is cut short gives no record.
proof fn lemma_record_torn(pre: Seq<u8>, seqno: u64, payload: Seq<u8>, cut: int)
    requires
        0 <= cut < record_bytes(pre.len(), seqno, payload).len(),
    ensures
        ({
            let n = next_from(
                pre + record_bytes(pre.len(), seqno, payload).subrange(0, cut),
                pre.len(),
                None,
            );
            &&& n is Torn || n is End
            &&& n is End ==> cut < padding(pre.len()).len() + 7
            &&& cut <= padding(pre.len()).len() ==> n is End
        }),
{
    reveal_with_fuel(next_from, 1);
    let whole = record_bytes(pre.len(), seqno, payload);
    let area = pre + whole.subrange(0, cut);
    let pad = padding(pre.len());
    lemma_next_block(pre.len());
    if cut < pad.len() {
        assert(all_zero(area.subrange(pre.len() as int, area.len() as int)));
    } else {
        let pre2 = pre + pad;
        let frags = fragments(pre2.len(), seqno, payload, true);
        assert(area =~= pre2 + frags.subrange(0, cut - pad.len()));
        lemma_fragments_torn(pre2, seqno, payload, true, Seq::empty(), cut - pad.len());
        if cut == pad.len() {
            assert(area =~= pre2);
        }
        if pad.len() > 0 {
            assert(skip_padding(area.len(), pre.len()) == pre2.len());
            assert(skip_padding(area.len(), pre2.len()) == pre2.len());
        } else {
            assert(pre2 =~= pre);
        }
    }
}

/// Law: if the last append was cut short anywhere, replay gives exactly the
/// records before it. It ends cleanly where nothing of the record but padding is
/// there, and with a torn tail, to be truncated at the end of those records, where
/// seven bytes of its header are; in between, with either. Never with an error.
pub proof fn law_torn_append_loses_only_that_record(
    records: Seq<LogRecord>,
    next: LogRecord,
    cut: int,
)
    requires
        0 <= cut < record_bytes(area_of(records).len(), next.seqno, next.payload).len(),
    ensures
        ({
            let whole = record_bytes(area_of(records).len(), next.seqno, next.payload);
            let r = replay_from(area_of(records) + whole.subrange(0, cut), 0);
            let end = area_of(records).len();
            &&& r.0 == records
            &&& r.1 is Clean || (r.1 matches ReplayEnd::Torn { truncate_to, reason } && truncate_to
                == end)
            &&& r.1 is Clean ==> cut < padding(end).len() + 7
            &&& cut <= padding(end).len() ==> r.1 is Clean
        }),
{
    let pre = area_of(records);
    let whole = record_bytes(pre.len(), next.seqno, next.payload);
    lemma_record_torn(pre, next.seqno, next.payload, cut);
    lemma_replay_prefix(records, whole.subrange(0, cut), 0);
    assert(records.subrange(0, 0) =~= Seq::empty());
    assert(records.subrange(0, records.len() as int) =~= records);
    assert(records + Seq::<LogRecord>::empty() =~= records);
}

/// What is left of the header of a damaged fragment.
proof fn lemma_damaged_header(
    x: Seq<u8>,
    y: Seq<u8>,
    record_type: RecordType,
    seqno: u64,
    payload: Seq<u8>,
    q: int,
)
    requires
        payload.len() <= 32752,
        x == fragment(record_type, seqno, payload),
        one_byte_off(x, y, q),
        q < 4 || q >= 6,
    ensures
        x.len() == 16 + payload.len(),
        !all_zero(x.subrange(0, 16)),
        x.subrange(16, x.len() as int) == payload,
        RecordHeader::parse(x.subrange(0, 16)) == RecordHeader::signed(record_type, seqno, payload),
        ({
            let b = RecordHeader::parse(y.subrange(0, 16));
            &&& b.length == payload.len()
            &&& b.payload_crc32c != b.crc_for(y.subrange(16, y.len() as int))
        }),
        all_zero(y.subrange(0, 16)) ==> payload.len() == 0 && seqno == 0 && q == 6,
{
    let h = RecordHeader::signed(record_type, seqno, payload);
    let n = x.len() as int;
    h.law_round_trip();
    let hb = h.bytes();
    let bh = y.subrange(0, 16);
    assert(x.subrange(0, 16) =~= hb);
    assert(x.subrange(16, n) =~= payload);
    assert(hb[6] == record_type.byte());
    assert(hb[6] != 0);
    RecordHeader::law_damage_is_noticed(x, y, q);
    assert(x[4] == y[4] && x[5] == y[5]);
    assert(bh.subrange(4, 6) =~= hb.subrange(4, 6)) by {
        assert(hb[4] == x[4] && hb[5] == x[5]);
    }
    if all_zero(bh) {
        lemma_zero_header(hb, bh, h, q);
    }
}

/// A header of which one changed byte leaves only zeros.
proof fn lemma_zero_header(hb: Seq<u8>, bh: Seq<u8>, h: RecordHeader, q: int)
    requires
        hb == h.bytes(),
        bh.len() == 16,
        all_zero(bh),
        h.record_type != 0,
        forall|i: int| 0 <= i < 16 && i != q ==> hb[i] == #[trigger] bh[i],
    ensures
        q == 6,
        h.seqno == 0,
        h.length == 0,
{
    h.law_round_trip();
    assert(hb[6] == h.record_type);
    assert(bh[6] == 0);
    assert(bh[4] == 0 && bh[5] == 0);
    assert(hb.subrange(4, 6)[0] == 0 && hb.subrange(4, 6)[1] == 0);
    assert(u16_from(hb.subrange(4, 6)) == 0);
    let s = hb.subrange(8, 16);
    assert forall|i: int| 0 <= i < 8 implies s[i] == 0 by {
        assert(bh[i + 8] == 0);
    }
    lemma_u64_round_trip(0);
    assert(s =~= u64_le(0)) by {
        assert(u64_le(0) =~= Seq::new(8, |i: int| 0u8));
    }
    assert(RecordHeader::parse(hb).seqno == 0);
}

/// Law: a segment with any one byte of its header damaged does not open.
pub proof fn law_damaged_segment_does_not_open(good: Seq<u8>, bad: Seq<u8>, p: int)
    requires
        parse_segment(good) is Ok,
        one_byte_off(good, bad, p),
        p < 32,
    ensures
        parse_segment(bad) is Err,
{
    let (x, y) = (good.subrange(0, 32), bad.subrange(0, 32));
    assert(one_byte_off(x, y, p));
    SegmentHeader::law_damage_is_noticed(x, y, p);
}

/// Law: fragments of different records do not mix. A record is put together from
/// a first fragment, or one that is all of it, and only where none is in progress;
/// and goes on with middle ones, up to a last one, only of its own sequence number.
/// It then holds their payloads in order. Anything else is an error.
pub proof fn law_fragments_do_not_mix(
    progress: Option<LogRecord>,
    record_type: RecordType,
    seqno: u64,
    payload: Seq<u8>,
)
    ensures
        match assembled(progress, record_type, seqno, payload) {
            Assembly::Bad(e) => match progress {
                None => record_type == RecordType::Middle || record_type == RecordType::Last,
                Some(r) => record_type == RecordType::Full || record_type == RecordType::First
                    || r.seqno != seqno,
            },
            Assembly::Continue(r) => r.seqno == seqno && match progress {
                None => record_type == RecordType::First && r.payload == payload,
                Some(q) => record_type == RecordType::Middle && q.seqno == seqno && r.payload
                    == q.payload + payload,
            },
            Assembly::Complete(r) => r.seqno == seqno && match progress {
                None => record_type == RecordType::Full && r.payload == payload,
                Some(q) => record_type == RecordType::Last && q.seqno == seqno && r.payload
                    == q.payload + payload,
            },
        },
{
}

/// Law: a fragment of a type that there is not is an error, where its checksum shows
/// that it was written so.
pub proof fn law_unknown_type_is_an_error(area: Seq<u8>, c: int, progress: Option<LogRecord>)
    requires
        0 <= c,
        c + 16 <= area.len(),
        32768 - c % 32768 >= 16,
        ({
            let len = area[c + 4] + 256 * area[c + 5];
            &&& area[c + 6] > 4
            &&& len <= 32752
            &&& c + 16 + len <= area.len()
            &&& u32_from(area.subrange(c, c + 4)) == crc32c(area.subrange(c + 6, c + 16 + len))
        }),
    ensures
        next_from(area, c as nat, progress) is Bad,
{
    reveal_with_fuel(next_from, 1);
    reveal(parse_fragment);
    let b = area.subrange(c, c + 16);
    let len = area[c + 4] + 256 * area[c + 5];
    let payload = area.subrange(c + 16, c + 16 + len);
    RecordHeader::law_layout(b, payload);
    assert(b.subrange(0, 4) =~= area.subrange(c, c + 4));
    assert(b.subrange(6, 16) + payload =~= area.subrange(c + 6, c + 16 + len));
    assert(!all_zero(b)) by {
        assert(b[6] != 0);
    }
}

/// Law: a fragment that says that it is longer than a block, or than what is left of
/// the segment, is torn.
pub proof fn law_overlong_fragment_is_torn(area: Seq<u8>, c: int, progress: Option<LogRecord>)
    requires
        0 <= c,
        c + 16 <= area.len(),
        32768 - c % 32768 >= 16,
        ({
            let len = area[c + 4] + 256 * area[c + 5];
            len > 32752 || len > 0 && c + 16 + len > area.len()
        }),
    ensures
        next_from(area, c as nat, progress) is Torn,
{
    reveal_with_fuel(next_from, 1);
    reveal(parse_fragment);
    let b = area.subrange(c, c + 16);
    RecordHeader::law_layout(b, Seq::empty());
    assert(!all_zero(b)) by {
        assert(b[4] != 0 || b[5] != 0);
    }
}

/// Law: bytes at the end that are too few for a header are a torn tail, unless they
/// are zeros and no record is in progress: then the segment ends there.
pub proof fn law_stray_bytes_are_torn(area: Seq<u8>, c: int, progress: Option<LogRecord>, i: int)
    requires
        0 <= c <= area.len() < c + 16,
        32768 - c % 32768 >= 16,
        c <= i < area.len() ==> area[i] != 0,
    ensures
        progress is Some || c <= i < area.len() ==> next_from(area, c as nat, progress) is Torn,
        progress is None && (forall|j: int| c <= j < area.len() ==> #[trigger] area[j] == 0)
            ==> next_from(area, c as nat, progress) is End,
{
    reveal_with_fuel(next_from, 1);
    let tail = area.subrange(c, area.len() as int);
    if c <= i < area.len() {
        assert(tail[i - c] != 0);
    }
}

/// Law: a file is a segment where it begins with a header that is valid, and that
/// header is what is read of it.
pub proof fn law_opened_segment(bytes: Seq<u8>)
    ensures
        parse_segment(bytes) is Ok <==> bytes.len() >= 32 && SegmentHeader::parse(
            bytes.subrange(0, 32),
        ).valid(),
        parse_segment(bytes) matches Ok(h) ==> h == SegmentHeader::parse(bytes.subrange(0, 32)),
{
}

/// Law: free space is passed over. Where a header of zeros stands, reading goes on
/// at the next block, with whatever record is in progress.
pub proof fn law_free_space_is_passed_over(area: Seq<u8>, c: nat, progress: Option<LogRecord>)
    requires
        32768 - c % 32768 >= 16,
        c + (32768 - c % 32768) <= area.len(),
        forall|i: int| c <= i < c + 16 ==> area[i] == 0,
    ensures
        next_from(area, c, progress) == next_from(
            area,
            (c + (32768 - c % 32768)) as nat,
            progress,
        ),
{
    reveal_with_fuel(next_from, 1);
    reveal(parse_fragment);
    assert(all_zero(area.subrange(c as int, (c + 16) as int)));
}

/// Law: a damaged fragment is noticed. `good` holds a written fragment at `c`;
/// `bad` is the same but for one byte of the fragment, of its checksum, type,
/// sequence number or payload (the length is not covered). Then no fragment is
/// read there. It is torn, unless nothing but zeros is left of the header, which
/// can only be where there is neither payload nor sequence number.
pub proof fn law_damaged_fragment_is_torn(
    good: Seq<u8>,
    bad: Seq<u8>,
    c: int,
    record_type: RecordType,
    seqno: u64,
    payload: Seq<u8>,
    p: int,
)
    requires
        0 <= c,
        payload.len() <= 32752,
        c + 16 + payload.len() <= good.len(),
        good.subrange(c, c + 16 + payload.len()) == fragment(record_type, seqno, payload),
        one_byte_off(good, bad, p),
        c <= p < c + 16 + payload.len(),
        p < c + 4 || p >= c + 6,
    ensures
        parse_fragment(good, c as nat) == (FragmentParse::Got { record_type, seqno, payload }),
        parse_fragment(bad, c as nat) is Torn || parse_fragment(bad, c as nat) is SkipTo,
        payload.len() > 0 || seqno > 0 || p != c + 6 ==> parse_fragment(bad, c as nat) is Torn,
{
    let n = (16 + payload.len()) as int;
    let x = good.subrange(c, c + n);
    let y = bad.subrange(c, c + n);
    assert(one_byte_off(x, y, p - c)) by {
        assert forall|i: int| 0 <= i < x.len() && i != p - c implies #[trigger] x[i] == y[i] by {
            assert(good[i + c] == bad[i + c]);
        }
    }
    lemma_damaged_header(x, y, record_type, seqno, payload, p - c);
    assert(good.subrange(c, c + 16) =~= x.subrange(0, 16));
    assert(good.subrange(c + 16, c + n) =~= x.subrange(16, n));
    assert(bad.subrange(c, c + 16) =~= y.subrange(0, 16));
    assert(bad.subrange(c + 16, c + n) =~= y.subrange(16, n));
    let h = RecordHeader::signed(record_type, seqno, payload);
    assert(h.crc_for(payload) == h.payload_crc32c);
    reveal(parse_fragment);
}

/// Law: a torn fragment gives no record, and neither does anything behind it.
/// Wherever the reader meets one, with or without a record in progress, the read
/// ends there as a torn tail.
pub proof fn law_torn_fragment_ends_the_read(
    area: Seq<u8>,
    c: nat,
    progress: Option<LogRecord>,
)
    requires
        c + 16 <= area.len(),
        32768 - c % 32768 >= 16,
        parse_fragment(area, c) is Torn,
    ensures
        next_from(area, c, progress) is Torn,
        progress is None ==> replay_from(area, c).0.len() == 0 && (replay_from(
            area,
            c,
        ).1 matches ReplayEnd::Torn { truncate_to, reason } && truncate_to == c),
{
    reveal_with_fuel(next_from, 1);
}

/// Reading a damaged record that fits its block.
proof fn lemma_damaged_record(
    good: Seq<u8>,
    bad: Seq<u8>,
    records: Seq<LogRecord>,
    k: int,
    p: int,
)
    requires
        0 <= k < records.len(),
        good == area_of(records),
        one_byte_off(good, bad, p),
        ({
            let start = area_of(records.subrange(0, k)).len();
            let at = start + padding(start).len();
            let r = records[k];
            &&& r.seqno > 0
            &&& at + 16 + r.payload.len() <= at + (32768 - at % 32768)
            &&& at <= p < at + 16 + r.payload.len()
            &&& p < at + 4 || p >= at + 6
        }),
    ensures
        next_from(bad, area_of(records.subrange(0, k)).len(), None) is Torn,
        area_of(records.subrange(0, k)).len() <= bad.len(),
        bad.subrange(0, area_of(records.subrange(0, k)).len() as int) == area_of(
            records.subrange(0, k),
        ),
{
    let front = records.subrange(0, k);
    let pre = area_of(front);
    let pad = padding(pre.len());
    let at = pre.len() + pad.len();
    let r = records[k];
    lemma_area_split(records, k);
    let more = choose|more: Seq<u8>|
        area_of(records) == #[trigger] (area_of(records.subrange(0, k + 1)) + more);
    lemma_next_block(pre.len());
    assert(BLOCK_SIZE - at % (BLOCK_SIZE as nat) == block_room(at));
    let whole = fragment(RecordType::Full, r.seqno, r.payload);
    assert(fragments(at, r.seqno, r.payload, true) == whole);
    RecordHeader::signed(RecordType::Full, r.seqno, r.payload).law_round_trip();
    assert(good =~= pre + (pad + (whole + more)));
    assert(good.subrange(at as int, (at + 16 + r.payload.len()) as int) =~= whole);
    law_damaged_fragment_is_torn(good, bad, at as int, RecordType::Full, r.seqno, r.payload, p);
    assert(next_from(bad, pre.len(), None) is Torn) by {
        reveal_with_fuel(next_from, 1);
        if pad.len() > 0 {
            assert(skip_padding(bad.len(), pre.len()) == at);
        }
    }
    assert(bad.subrange(0, pre.len() as int) =~= pre) by {
        assert forall|i: int| 0 <= i < pre.len() implies bad[i] == pre[i] by {
            assert(good[i] == bad[i]);
        }
    }
}

/// Law: of records that each fit their block, replay gives exactly those before
/// the damaged one, and ends as a torn tail where they end. `good` is what
/// writing `records` produces. `bad` is the same but for one byte of record `k`:
/// of its checksum, type, sequence number or payload.
pub proof fn law_replay_ends_at_damage(
    good: Seq<u8>,
    bad: Seq<u8>,
    records: Seq<LogRecord>,
    k: int,
    p: int,
)
    requires
        0 <= k < records.len(),
        good == area_of(records),
        one_byte_off(good, bad, p),
        ({
            let start = area_of(records.subrange(0, k)).len();
            let at = start + padding(start).len();
            let r = records[k];
            &&& r.seqno > 0
            &&& at + 16 + r.payload.len() <= at + (32768 - at % 32768)
            &&& at <= p < at + 16 + r.payload.len()
            &&& p < at + 4 || p >= at + 6
        }),
    ensures
        ({
            let r = replay_from(bad, 0);
            &&& r.0 == records.subrange(0, k)
            &&& r.1 matches ReplayEnd::Torn { truncate_to, reason } && truncate_to == area_of(
                records.subrange(0, k),
            ).len()
        }),
{
    let front = records.subrange(0, k);
    let pre = area_of(front);
    lemma_damaged_record(good, bad, records, k, p);
    let rest = bad.subrange(pre.len() as int, bad.len() as int);
    assert(bad =~= pre + rest);
    lemma_replay_prefix(front, rest, 0);
    assert(front.subrange(0, 0) =~= Seq::empty());
    assert(front.subrange(0, front.len() as int) =~= front);
    assert(front + Seq::<LogRecord>::empty() =~= front);
}

/// Record `k` is read from an area that was cut off behind the first `m`
/// records.
proof fn lemma_cut_area(area: Seq<u8>, records: Seq<LogRecord>, m: int, k: int)
    requires
        0 <= k < m <= records.len(),
        area.len() <= area_of(records).len(),
        area == area_of(records).subrange(0, area.len() as int),
        area_of(records.subrange(0, m)).len() <= area.len(),
    ensures
        next_from(area, area_of(records.subrange(0, k)).len(), None) == (NextRead::Record {
            record: records[k],
            cursor: area_of(records.subrange(0, k + 1)).len(),
        }),
{
    let part = records.subrange(0, m);
    lemma_area_split(part, k);
    assert(part.subrange(0, k + 1) =~= records.subrange(0, k + 1));
    assert(part.subrange(0, k) =~= records.subrange(0, k));
    let pre = area_of(records.subrange(0, k));
    let now = area_of(records.subrange(0, k + 1));
    let more = choose|more: Seq<u8>| area_of(part) == #[trigger] (now + more);
    lemma_area_split(records, m - 1);
    let rest = choose|rest: Seq<u8>| area_of(records) == #[trigger] (area_of(part) + rest);
    let behind = area.subrange(now.len() as int, area.len() as int);
    assert(area =~= now + behind) by {
        assert(area_of(records) =~= now + (more + rest));
    }
    lemma_record_reads(pre, records[k].seqno, records[k].payload, behind);
}

/// Law: a segment file that starts with a signed header is accepted, and its
/// header is the one that was written.
pub proof fn law_written_segment_opens(segment_id: u64, first_seqno: u64, area: Seq<u8>)
    ensures
        parse_segment(SegmentHeader::signed(segment_id, first_seqno).bytes() + area) == Ok::<
            SegmentHeader,
            ErrorView,
        >(SegmentHeader::signed(segment_id, first_seqno)),
{
    let h = SegmentHeader::signed(segment_id, first_seqno);
    h.law_round_trip();
    let bytes = h.bytes() + area;
    assert(bytes.subrange(0, SEGMENT_HEADER_SIZE as int) =~= h.bytes());
    let unsigned = SegmentHeader { header_crc32c: 0, ..h };
    assert(unsigned.signed_bytes() == h.signed_bytes());
}

// ----- The reader -----

/// Reader over a WAL segment file.
pub struct SegmentReader<F: VfsFile> {
    file: F,
    file_size: u64,
    cursor: u64,
    header: SegmentHeader,
}

/// A successfully parsed fragment.
struct Fragment {
    record_type: RecordType,
    seqno: u64,
    payload: Vec<u8>,
}

/// Output of a single [`SegmentReader::read_fragment`] call.
enum FragmentStep {
    Got(Fragment),
    SkipBlock,
    TornTail { reason: &'static str },
}

/// Output of folding a [`Fragment`] into the running record assembly.
enum AssemblyStep {
    /// Fragment consumed; keep reading more fragments.
    Continue,
    /// The record is now complete.
    Complete(RecordView),
}

/// The record in progress, over mathematical byte strings.
spec fn progress_view(p: Option<RecordView>) -> Option<LogRecord> {
    match p {
        None => None,
        Some(v) => Some(v@),
    }
}

/// `r` reports `n`, for a read that started at `start`.
pub open spec fn reports(r: Result<ReadOutcome>, n: NextRead, start: nat) -> bool {
    match n {
        NextRead::Record { record, cursor } => r matches Ok(ReadOutcome::Record(v)) && v@ == record,
        NextRead::End { cursor } => r matches Ok(ReadOutcome::EndOfSegment),
        NextRead::Torn { reason, cursor } => r matches Ok(
            ReadOutcome::TornTail { truncate_to, reason: why },
        ) && truncate_to == start && why@ == reason,
        NextRead::Bad { error, cursor } => r matches Err(e) && e@ == error,
    }
}

/// The cursor that `n` leaves behind.
pub open spec fn cursor_after(n: NextRead) -> nat {
    match n {
        NextRead::Record { record, cursor } => cursor,
        NextRead::End { cursor } => cursor,
        NextRead::Torn { reason, cursor } => cursor,
        NextRead::Bad { error, cursor } => cursor,
    }
}

/// `r` reports the end of a replay.
pub open spec fn reports_end(r: Result<ReplayOutcome>, end: ReplayEnd) -> bool {
    match end {
        ReplayEnd::Clean => r matches Ok(ReplayOutcome::Clean),
        ReplayEnd::Torn { truncate_to, reason } => r matches Ok(
            ReplayOutcome::TornTail { truncate_to: at, reason: why },
        ) && at == truncate_to && why@ == reason,
        ReplayEnd::Bad(error) => r matches Err(e) && e@ == error,
    }
}

/// The views of a vector of records.
pub open spec fn record_views(v: Seq<RecordView>) -> Seq<LogRecord> {
    Seq::new(v.len(), |i: int| v[i]@)
}

fn is_all_zero(v: &Vec<u8>) -> (r: bool)
    ensures
        r == all_zero(v@),
{
    let mut i: usize = 0;
    while i < v.len()
        invariant
            i <= v@.len(),
            forall|j: int| 0 <= j < i ==> v@[j] == 0,
        decreases v@.len() - i,
    {
        if v[i] != 0 {
            return false;
        }
        i += 1;
    }
    true
}

/// Add a fragment to the record in progress. A record that is complete leaves
/// none behind; a fragment that does not belong there leaves it as it was.
fn assemble(state: &mut Option<RecordView>, frag: Fragment) -> (r: Result<AssemblyStep>)
    ensures
        match assembled(
            progress_view(*old(state)),
            frag.record_type,
            frag.seqno,
            frag.payload@,
        ) {
            Assembly::Continue(rec) => r matches Ok(AssemblyStep::Continue) && progress_view(
                *final(state),
            ) == Some(rec),
            Assembly::Complete(rec) => (r matches Ok(AssemblyStep::Complete(v)) && v@ == rec)
                && *final(state) is None,
            Assembly::Bad(error) => (r matches Err(e) && e@ == error) && *final(state) == *old(state),
        },
{
    let Fragment { record_type, seqno, payload } = frag;
    let mut slot: Option<RecordView> = None;
    std::mem::swap(&mut slot, state);
    match (record_type, slot) {
        (RecordType::Full, None) => Ok(AssemblyStep::Complete(RecordView { seqno, payload })),
        (RecordType::Full, Some(view)) => {
            *state = Some(view);
            Err(
                Error::corruption_static(
                    "wal segment",
                    "FULL fragment encountered mid-record assembly",
                ),
            )
        },
        (RecordType::First, None) => {
            *state = Some(RecordView { seqno, payload });
            Ok(AssemblyStep::Continue)
        },
        (RecordType::First, Some(view)) => {
            *state = Some(view);
            Err(
                Error::corruption_static(
                    "wal segment",
                    "FIRST fragment encountered mid-record assembly",
                ),
            )
        },
        (RecordType::Middle, None) => Err(
            Error::corruption_static(
                "wal segment",
                "Middle fragment encountered without a preceding FIRST",
            ),
        ),
        (RecordType::Last, None) => Err(
            Error::corruption_static(
                "wal segment",
                "Last fragment encountered without a preceding FIRST",
            ),
        ),
        (RecordType::Middle, Some(view)) => {
            if view.seqno != seqno {
                let mut reason: String = "MIDDLE fragment seqno ".to_owned();
                reason.append(decimal_string(seqno).as_str());
                reason.append(" does not match in-progress ");
                reason.append(decimal_string(view.seqno).as_str());
                *state = Some(view);
                return Err(Error::Corruption { context: "wal segment", reason });
            }
            let mut view = view;
            push_bytes(&mut view.payload, payload.as_slice());
            *state = Some(view);
            Ok(AssemblyStep::Continue)
        },
        (RecordType::Last, Some(view)) => {
            if view.seqno != seqno {
                let mut reason: String = "LAST fragment seqno ".to_owned();
                reason.append(decimal_string(seqno).as_str());
                reason.append(" does not match in-progress ");
                reason.append(decimal_string(view.seqno).as_str());
                *state = Some(view);
                return Err(Error::Corruption { context: "wal segment", reason });
            }
            let mut view = view;
            push_bytes(&mut view.payload, payload.as_slice());
            Ok(AssemblyStep::Complete(view))
        },
    }
}

impl<F: VfsFile> SegmentReader<F> {
    /// The handle read from.
    pub closed spec fn handle(&self) -> F {
        self.file
    }

    /// Size of the file when it was opened.
    pub closed spec fn size(&self) -> u64 {
        self.file_size
    }

    /// Where the next read starts, in the records area.
    pub closed spec fn position(&self) -> u64 {
        self.cursor
    }

    /// The file's header.
    pub closed spec fn segment_header(&self) -> SegmentHeader {
        self.header
    }

    /// The records area: what follows the header.
    pub open spec fn area(&self, fs: &F::Fs) -> Seq<u8> {
        bytes_of(&self.handle(), fs).subrange(SEGMENT_HEADER_SIZE as int, self.size() as int)
    }

    /// The handle is open, the file has not shrunk since it was opened, and
    /// the cursor lies inside it.
    pub open spec fn wf(&self, fs: &F::Fs) -> bool {
        &&& is_open(&self.handle(), fs)
        &&& SEGMENT_HEADER_SIZE <= self.size() <= bytes_of(&self.handle(), fs).len()
        &&& self.position() <= self.size() - SEGMENT_HEADER_SIZE
    }

    /// Only the cursor differs.
    pub open spec fn same_but_position(&self, other: &SegmentReader<F>) -> bool {
        &&& self.handle() == other.handle()
        &&& self.size() == other.size()
        &&& self.segment_header() == other.segment_header()
    }

    /// Open `file` as a WAL segment, validating its header.
    pub fn open(fs: &F::Fs, file: F) -> (r: Result<SegmentReader<F>>)
        requires
            is_open(&file, fs),
        ensures
            r matches Ok(reader) ==> reader.wf(fs) && reader.handle() == file && reader.size()
                == bytes_of(&file, fs).len() && reader.position() == 0 && parse_segment(
                bytes_of(&file, fs),
            ) == Ok::<SegmentHeader, ErrorView>(reader.segment_header()),
            r matches Err(e) ==> e is Io || parse_segment(bytes_of(&file, fs)) == Err::<
                SegmentHeader,
                ErrorView,
            >(e@),
            F::fs_reliable(fs) ==> (r is Ok <==> parse_segment(bytes_of(&file, fs)) is Ok) && (
            r matches Err(e) ==> parse_segment(bytes_of(&file, fs)) == Err::<
                SegmentHeader,
                ErrorView,
            >(e@)),
    {
        let file_size: u64 = match file.size(fs) {
            Ok(n) => n,
            Err(e) => {
                return Err(e);
            },
        };
        if file_size < SEGMENT_HEADER_SIZE as u64 {
            let mut reason: String = "file too short: ".to_owned();
            reason.append(decimal_string(file_size).as_str());
            reason.append(" bytes (need at least 32)");
            return Err(Error::InvalidFormat { context: "wal segment", reason });
        }
        let buf: Vec<u8> = match read_vec(&file, fs, SEGMENT_HEADER_SIZE, 0) {
            Ok(v) => v,
            Err(e) => {
                return Err(e);
            },
        };
        let header: SegmentHeader = match SegmentHeader::from_bytes(buf.as_slice()) {
            Some(h) => h,
            None => {
                return Err(Error::invalid_format_static("wal segment header", "size mismatch"));
            },
        };
        if header.magic != SEGMENT_MAGIC {
            return Err(Error::invalid_format_static("wal segment header", "bad magic"));
        }
        if header.version != FORMAT_VERSION {
            let mut reason: String = "unsupported version ".to_owned();
            reason.append(decimal_string(header.version as u64).as_str());
            reason.append(" (this build understands 1)");
            return Err(Error::InvalidFormat { context: "wal segment header", reason });
        }
        if !header.is_valid() {
            return Err(Error::corruption_static("wal segment header", "checksum mismatch"));
        }
        Ok(SegmentReader { file, file_size, cursor: 0, header })
    }

    /// Segment identifier from the file header.
    pub fn segment_id(&self) -> (id: u64)
        ensures
            id == self.segment_header().segment_id,
    {
        self.header.segment_id
    }

    /// First sequence number recorded by the writer that produced this
    /// segment.
    pub fn first_seqno(&self) -> (n: u64)
        ensures
            n == self.segment_header().first_seqno,
    {
        self.header.first_seqno
    }

    /// What reading a record does: it reports what stands at the position, and
    /// leaves the position behind it. Nothing but I/O comes in between.
    pub open spec fn read_on(
        before: Self,
        r: Result<ReadOutcome>,
        after: Self,
        fs: &F::Fs,
    ) -> bool {
        let n = next_from(before.area(fs), before.position() as nat, None);
        let exact = reports(r, n, before.position() as nat) && after.position() == cursor_after(n);
        &&& after.same_but_position(&before)
        &&& exact || (r matches Err(e) && e is Io)
        &&& F::fs_reliable(fs) ==> exact
        &&& r matches Ok(ReadOutcome::Record(_)) ==> after.position() > before.position()
    }

    /// Where the reader stands after `k` calls on a segment that holds the
    /// first `m` of `records`.
    #[verifier::rlimit(30)]
    proof fn lemma_after_reads(
        readers: Seq<Self>,
        results: Seq<Result<ReadOutcome>>,
        fs: &F::Fs,
        records: Seq<LogRecord>,
        m: int,
        k: int,
    )
        requires
            Self::reads_cut_segment(readers, results, fs, records, m),
            0 <= k <= m,
            k <= results.len(),
        ensures
            readers[k].area(fs) == readers[0].area(fs),
            readers[k].position() == area_of(records.subrange(0, k)).len(),
            k < m ==> next_from(readers[k].area(fs), readers[k].position() as nat, None) == (
            NextRead::Record {
                record: records[k],
                cursor: area_of(records.subrange(0, k + 1)).len(),
            }),
        decreases k,
    {
        if k == 0 {
            assert(records.subrange(0, 0) =~= Seq::empty());
        } else {
            Self::lemma_after_reads(readers, results, fs, records, m, k - 1);
            assert(Self::read_on(readers[k - 1], results[k - 1], readers[k], fs));
        }
        if k < m {
            lemma_cut_area(readers[0].area(fs), records, m, k);
        }
    }

    /// `readers` are the states of a reader: fresh on a segment whose records
    /// area holds what writing `records` produces, cut off so that exactly the
    /// first `m` of them lie wholly inside; and after each of its reads, which
    /// gave `results`. There is at most one read behind the last record.
    pub open spec fn reads_cut_segment(
        readers: Seq<Self>,
        results: Seq<Result<ReadOutcome>>,
        fs: &F::Fs,
        records: Seq<LogRecord>,
        m: int,
    ) -> bool {
        let area = readers[0].area(fs);
        &&& F::fs_reliable(fs)
        &&& readers.len() == results.len() + 1
        &&& results.len() <= m + 1
        &&& readers[0].position() == 0
        &&& forall|i: int|
            0 <= i < results.len() ==> Self::read_on(
                readers[i],
                #[trigger] results[i],
                readers[i + 1],
                fs,
            )
        &&& area.len() <= area_of(records).len()
        &&& area == area_of(records).subrange(0, area.len() as int)
        &&& 0 <= m <= records.len()
        &&& area_of(records.subrange(0, m)).len() <= area.len()
        &&& m < records.len() ==> area.len() < area_of(records.subrange(0, m + 1)).len()
    }

    /// Law: wherever a segment is cut off, reading gives the records that lie
    /// wholly inside, in order, and never part of another. The read behind them
    /// finds the end, or a torn tail to be truncated where the last of them
    /// ends; the end where the cut is exactly there.
    #[verifier::rlimit(30)]
    pub proof fn law_cut_segment_gives_whole_records(
        readers: Seq<Self>,
        results: Seq<Result<ReadOutcome>>,
        fs: &F::Fs,
        records: Seq<LogRecord>,
        m: int,
    )
        requires
            Self::reads_cut_segment(readers, results, fs, records, m),
        ensures
            forall|i: int|
                #![trigger results[i]]
                0 <= i < m && i < results.len() ==> (results[i] matches Ok(ReadOutcome::Record(v))
                    && v@ == records[i]),
            results.len() == m + 1 ==> ({
                let end = area_of(records.subrange(0, m)).len();
                &&& (results[m] matches Ok(ReadOutcome::EndOfSegment)) || (results[m] matches Ok(
                    ReadOutcome::TornTail { truncate_to, reason },
                ) && truncate_to == end)
                &&& readers[0].area(fs).len() == end ==> (results[m] matches Ok(
                    ReadOutcome::EndOfSegment,
                ))
            }),
    {
        let area = readers[0].area(fs);
        assert forall|i: int| #![trigger results[i]] 0 <= i < m && i < results.len() implies (
        results[i] matches Ok(ReadOutcome::Record(v)) && v@ == records[i]) by {
            Self::lemma_after_reads(readers, results, fs, records, m, i);
            assert(Self::read_on(readers[i], results[i], readers[i + 1], fs));
        }
        if results.len() == m + 1 {
            let part = records.subrange(0, m);
            let pre = area_of(part);
            Self::lemma_after_reads(readers, results, fs, records, m, m);
            assert(Self::read_on(readers[m], results[m], readers[m + 1], fs));
            if area.len() == pre.len() {
                lemma_next_at_end(area);
            } else {
                assert(part =~= records || m < records.len());
                lemma_area_split(records, m);
                let next = records[m];
                let whole = record_bytes(pre.len(), next.seqno, next.payload);
                let now = area_of(records.subrange(0, m + 1));
                let more = choose|more: Seq<u8>| area_of(records) == #[trigger] (now + more);
                let cut = area.len() - pre.len();
                assert(area =~= pre + whole.subrange(0, cut)) by {
                    assert(area_of(records) =~= pre + (whole + more));
                }
                lemma_record_torn(pre, next.seqno, next.payload, cut);
            }
        }
    }

    /// Read the next logical record. See [`ReadOutcome`] for the semantics.
    pub fn next_record(&mut self, fs: &F::Fs) -> (r: Result<ReadOutcome>)
        requires
            old(self).wf(fs),
        ensures
            final(self).wf(fs),
            Self::read_on(*old(self), r, *final(self), fs),
    {
        let start: u64 = self.cursor;
        let end: u64 = self.file_size - SEGMENT_HEADER_SIZE as u64;
        let mut progress: Option<RecordView> = None;
        let ghost area = self.area(fs);
        let ghost whole = next_from(area, start as nat, None);
        proof {
            lemma_next_bounds(area, start as nat, None);
        }
        loop
            invariant
                self.wf(fs),
                self.same_but_position(old(self)),
                area == self.area(fs),
                area.len() == end,
                end == self.file_size - SEGMENT_HEADER_SIZE,
                start == old(self).cursor,
                start <= self.cursor,
                whole == next_from(area, start as nat, None),
                whole matches NextRead::Record { record, cursor } ==> start < cursor,
                whole == next_from(area, self.cursor as nat, progress_view(progress)),
            decreases end - self.cursor,
        {
            proof {
                reveal_with_fuel(next_from, 1);
                lemma_next_block(self.cursor as nat);
            }
            self.skip_block_padding_if_needed(end);
            if end - self.cursor < RECORD_HEADER_SIZE as u64 {
                return self.handle_tail(fs, end, &progress, start);
            }
            let ghost c1 = self.cursor as nat;
            let frag: Fragment = match self.read_fragment(fs) {
                Err(e) => {
                    return Err(e);
                },
                Ok(FragmentStep::Got(f)) => f,
                Ok(FragmentStep::SkipBlock) => {
                    proof {
                        reveal(parse_fragment);
                        lemma_next_block(c1);
                    }
                    continue ;
                },
                Ok(FragmentStep::TornTail { reason }) => {
                    return Ok(ReadOutcome::TornTail { truncate_to: start, reason });
                },
            };
            self.cursor = self.cursor + RECORD_HEADER_SIZE as u64 + frag.payload.len() as u64;
            match assemble(&mut progress, frag) {
                Err(e) => {
                    return Err(e);
                },
                Ok(AssemblyStep::Complete(view)) => {
                    return Ok(ReadOutcome::Record(view));
                },
                Ok(AssemblyStep::Continue) => {},
            }
        }
    }

    fn skip_block_padding_if_needed(&mut self, end: u64)
        requires
            old(self).cursor <= end,
        ensures
            final(self).same_but_position(old(self)),
            final(self).cursor == skip_padding(end as nat, old(self).cursor as nat),
            old(self).cursor <= final(self).cursor <= end,
    {
        let block_remaining: u64 = BLOCK_SIZE as u64 - self.cursor % (BLOCK_SIZE as u64);
        if block_remaining < RECORD_HEADER_SIZE as u64 {
            if block_remaining <= end - self.cursor {
                self.cursor = self.cursor + block_remaining;
            }
        }
    }

    fn handle_tail(
        &self,
        fs: &F::Fs,
        end: u64,
        progress: &Option<RecordView>,
        start: u64,
    ) -> (r: Result<ReadOutcome>)
        requires
            self.wf(fs),
            end == self.file_size - SEGMENT_HEADER_SIZE,
            end - self.cursor < RECORD_HEADER_SIZE,
        ensures
            reports(
                r,
                read_tail(self.area(fs), self.cursor as nat, progress_view(*progress)),
                start as nat,
            ) || (r matches Err(e) && e is Io),
            F::fs_reliable(fs) ==> reports(
                r,
                read_tail(self.area(fs), self.cursor as nat, progress_view(*progress)),
                start as nat,
            ),
    {
        if progress.is_some() {
            return Ok(
                ReadOutcome::TornTail { truncate_to: start, reason: "segment ended mid-fragment" },
            );
        }
        let bytes_remaining: u64 = end - self.cursor;
        if bytes_remaining == 0 {
            return Ok(ReadOutcome::EndOfSegment);
        }
        let tail: Vec<u8> = match read_vec(
            &self.file,
            fs,
            bytes_remaining as usize,
            SEGMENT_HEADER_SIZE as u64 + self.cursor,
        ) {
            Ok(v) => v,
            Err(e) => {
                return Err(e);
            },
        };
        assert(tail@ =~= self.area(fs).subrange(self.cursor as int, end as int));
        if is_all_zero(&tail) {
            Ok(ReadOutcome::EndOfSegment)
        } else {
            Ok(
                ReadOutcome::TornTail {
                    truncate_to: start,
                    reason: "stray bytes shorter than a record header at segment tail",
                },
            )
        }
    }

    fn read_fragment(&mut self, fs: &F::Fs) -> (r: Result<FragmentStep>)
        requires
            old(self).wf(fs),
            old(self).cursor + RECORD_HEADER_SIZE <= old(self).file_size - SEGMENT_HEADER_SIZE,
        ensures
            final(self).wf(fs),
            final(self).same_but_position(old(self)),
            ({
                let p = parse_fragment(old(self).area(fs), old(self).cursor as nat);
                let exact = match p {
                    FragmentParse::SkipTo(c) => r matches Ok(FragmentStep::SkipBlock) && final(self).cursor == c,
                    FragmentParse::Torn(why) => (r matches Ok(FragmentStep::TornTail { reason })
                        && reason@ == why) && *final(self) == *old(self),
                    FragmentParse::Bad(error) => (r matches Err(e) && e@ == error) && *final(self)
                        == *old(self),
                    FragmentParse::Got { record_type, seqno, payload } => (r matches Ok(
                        FragmentStep::Got(f),
                    ) && f.record_type == record_type && f.seqno == seqno && f.payload@ == payload
                        && old(self).cursor + RECORD_HEADER_SIZE + payload.len() <= old(self).file_size - SEGMENT_HEADER_SIZE) && *final(self) == *old(self),
                };
                &&& exact || (r matches Err(e) && e is Io)
                &&& F::fs_reliable(fs) ==> exact
            }),
    {
        proof {
            reveal(parse_fragment);
            lemma_next_block(self.cursor as nat);
        }
        let ghost area = self.area(fs);
        let end: u64 = self.file_size - SEGMENT_HEADER_SIZE as u64;
        let offset: u64 = SEGMENT_HEADER_SIZE as u64 + self.cursor;
        let header_bytes: Vec<u8> = match read_vec(&self.file, fs, RECORD_HEADER_SIZE, offset) {
            Ok(v) => v,
            Err(e) => {
                return Err(e);
            },
        };
        assert(header_bytes@ =~= area.subrange(
            self.cursor as int,
            self.cursor + RECORD_HEADER_SIZE,
        ));
        if is_all_zero(&header_bytes) {
            let block_remaining: u64 = BLOCK_SIZE as u64 - self.cursor % (BLOCK_SIZE as u64);
            if block_remaining <= end - self.cursor {
                self.cursor = self.cursor + block_remaining;
            } else {
                self.cursor = end;
            }
            return Ok(FragmentStep::SkipBlock);
        }
        let header: RecordHeader = match RecordHeader::from_bytes(header_bytes.as_slice()) {
            Some(h) => h,
            None => {
                return Err(Error::invalid_format_static("wal record header", "size mismatch"));
            },
        };
        let payload_len: usize = header.length as usize;
        if payload_len > MAX_FRAGMENT_PAYLOAD {
            return Ok(FragmentStep::TornTail { reason: "fragment length exceeds block size" });
        }
        if payload_len as u64 > end - self.cursor - RECORD_HEADER_SIZE as u64 {
            return Ok(
                FragmentStep::TornTail { reason: "fragment payload truncated by segment EOF" },
            );
        }
        let payload: Vec<u8> = match read_vec(
            &self.file,
            fs,
            payload_len,
            offset + RECORD_HEADER_SIZE as u64,
        ) {
            Ok(v) => v,
            Err(e) => {
                return Err(e);
            },
        };
        assert(payload@ =~= area.subrange(
            self.cursor + RECORD_HEADER_SIZE,
            self.cursor + RECORD_HEADER_SIZE + payload_len,
        ));
        if header.expected_crc(payload.as_slice()) != header.payload_crc32c {
            return Ok(FragmentStep::TornTail { reason: "fragment crc32c mismatch" });
        }
        match RecordType::from_byte(header.record_type) {
            Some(record_type) => Ok(
                FragmentStep::Got(Fragment { record_type, seqno: header.seqno, payload }),
            ),
            None => {
                let mut reason: String = "invalid record_type byte 0x".to_owned();
                reason.append(padded_string(header.record_type as u64, 16, 2).as_str());
                Err(Error::InvalidFormat { context: "wal record header", reason })
            },
        }
    }

    /// Drive the reader to completion, adding every successfully reassembled
    /// record to `records`. Returns the overall outcome.
    pub fn replay(&mut self, fs: &F::Fs, records: &mut Vec<RecordView>) -> (r: Result<
        ReplayOutcome,
    >)
        requires
            old(self).wf(fs),
        ensures
            final(self).wf(fs),
            final(self).same_but_position(old(self)),
            ({
                let (found, end) = replay_from(old(self).area(fs), old(self).position() as nat);
                let exact = reports_end(r, end) && record_views(final(records)@) == record_views(
                    old(records)@,
                ) + found;
                &&& exact || (r matches Err(e) && e is Io)
                &&& F::fs_reliable(fs) ==> exact
            }),
    {
        let ghost area = self.area(fs);
        let ghost all = replay_from(area, self.cursor as nat);
        let ghost before = record_views(records@);
        assert(before + Seq::<LogRecord>::empty() =~= before);
        assert(Seq::<LogRecord>::empty() + all.0 =~= all.0);
        let ghost mut found: Seq<LogRecord> = Seq::empty();
        loop
            invariant
                self.wf(fs),
                self.same_but_position(old(self)),
                area == self.area(fs),
                area == old(self).area(fs),
                all == replay_from(area, old(self).cursor as nat),
                before == record_views(old(records)@),
                record_views(records@) == before + found,
                all.0 == found + replay_from(area, self.cursor as nat).0,
                all.1 == replay_from(area, self.cursor as nat).1,
            decreases area.len() - self.cursor,
        {
            let ghost c = self.cursor as nat;
            proof {
                lemma_next_bounds(area, c, None);
            }
            match self.next_record(fs) {
                Err(e) => {
                    assert(found + Seq::<LogRecord>::empty() =~= found);
                    return Err(e);
                },
                Ok(ReadOutcome::Record(view)) => {
                    proof {
                        let more = replay_from(area, self.cursor as nat).0;
                        assert(found + (seq![view@] + more) =~= found.push(view@) + more);
                        assert(record_views(records@.push(view)) =~= record_views(records@).push(
                            view@,
                        ));
                        assert(before + found.push(view@) =~= (before + found).push(view@));
                        found = found.push(view@);
                    }
                    records.push(view);
                },
                Ok(ReadOutcome::EndOfSegment) => {
                    assert(found + Seq::<LogRecord>::empty() =~= found);
                    return Ok(ReplayOutcome::Clean);
                },
                Ok(ReadOutcome::TornTail { truncate_to, reason }) => {
                    assert(found + Seq::<LogRecord>::empty() =~= found);
                    return Ok(ReplayOutcome::TornTail { truncate_to, reason });
                },
            }
        }
    }
}

} // verus!
