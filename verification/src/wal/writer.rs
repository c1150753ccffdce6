//! WAL segment writer.
//!
//! Records live inside 32 KiB physical blocks, counted from the end of the
//! segment header. A record that fits in what remains of the block is written
//! as one `Full` fragment. Otherwise a `First` fragment fills the block,
//! `Middle` fragments fill blocks of their own, and a `Last` fragment carries
//! the rest. Where fewer bytes than a record header remain in a block, they
//! are written as zeros and the record starts in the next block.
use vstd::prelude::*;
use vstd::slice::slice_subrange;

use crate::encoding::fixed::zeros;
use crate::error::Result;
use crate::io::vfs::{bytes_of, is_open, others_synced, VfsFile};
use crate::wal::format::{RecordHeader, RecordType, SegmentHeader, BLOCK_SIZE, RECORD_HEADER_SIZE};

verus! {

/// Default segment rotation threshold: 64 MiB.
pub const DEFAULT_ROTATE_AT: u64 = 67108864;

/// Bytes left in the block that holds position `pos` of the records area.
pub open spec fn block_room(pos: nat) -> nat {
    (BLOCK_SIZE - pos % (BLOCK_SIZE as nat)) as nat
}

/// Zero bytes written at `pos` before a record starts.
pub open spec fn padding(pos: nat) -> Seq<u8> {
    if block_room(pos) < RECORD_HEADER_SIZE {
        Seq::new(block_room(pos), |i: int| 0u8)
    } else {
        Seq::empty()
    }
}

/// One fragment: its signed header and its payload.
pub open spec fn fragment(record_type: RecordType, seqno: u64, payload: Seq<u8>) -> Seq<u8> {
    RecordHeader::signed(record_type, seqno, payload).bytes() + payload
}

/// Type of a fragment by its place in the record.
pub open spec fn fragment_type(is_first: bool, is_last: bool) -> RecordType {
    if is_first {
        if is_last {
            RecordType::Full
        } else {
            RecordType::First
        }
    } else {
        if is_last {
            RecordType::Last
        } else {
            RecordType::Middle
        }
    }
}

/// The fragments that carry `payload`, the first of them at `pos`.
pub open spec fn fragments(pos: nat, seqno: u64, payload: Seq<u8>, is_first: bool) -> Seq<u8>
    decreases payload.len(), (if block_room(pos) == RECORD_HEADER_SIZE { 1int } else { 0int }),
    when block_room(pos) >= RECORD_HEADER_SIZE
{
    let room = (block_room(pos) - RECORD_HEADER_SIZE) as nat;
    if payload.len() <= room {
        fragment(fragment_type(is_first, true), seqno, payload)
    } else {
        fragment(fragment_type(is_first, false), seqno, payload.subrange(0, room as int))
            + fragments(
            pos + block_room(pos),
            seqno,
            payload.subrange(room as int, payload.len() as int),
            false,
        )
    }
}

/// Everything written for one record at `pos`: padding, then its fragments.
pub open spec fn record_bytes(pos: nat, seqno: u64, payload: Seq<u8>) -> Seq<u8> {
    padding(pos) + fragments(pos + padding(pos).len(), seqno, payload, true)
}

/// The next block starts at a multiple of the block size.
pub proof fn lemma_next_block(pos: nat)
    ensures
        1 <= block_room(pos) <= BLOCK_SIZE,
        (pos + block_room(pos)) % (BLOCK_SIZE as nat) == 0,
        block_room(pos + block_room(pos)) == BLOCK_SIZE,
        block_room(pos + padding(pos).len()) >= RECORD_HEADER_SIZE,
{
    assert((pos + (32768 - pos % 32768)) % 32768 == 0);
}

/// Moving inside a block leaves that much less room.
pub proof fn lemma_room_shrinks(pos: nat, n: nat)
    requires
        n < block_room(pos),
    ensures
        block_room(pos + n) == block_room(pos) - n,
{
    assert((pos + n) % 32768 == pos % 32768 + n);
}

/// Law: padding only fills the end of a block in which no header fits, with zeros.
/// A record begins in the block where it is asked for, or at the start of the next.
pub proof fn law_padding_fills_the_block(pos: nat)
    ensures
        padding(pos).len() < 16,
        pos % 32768 <= 32752 <==> padding(pos).len() == 0,
        padding(pos).len() > 0 ==> (pos + padding(pos).len()) % 32768 == 0,
        forall|i: int| 0 <= i < padding(pos).len() ==> #[trigger] padding(pos)[i] == 0,
{
    lemma_next_block(pos);
}

/// Law: a record that fits in the rest of its block is one fragment of the type for
/// a whole record, and takes 16 bytes beside its payload. One that does not fills
/// the block with a first fragment, and goes on at the next.
pub proof fn law_records_are_cut_at_blocks(pos: nat, seqno: u64, payload: Seq<u8>)
    requires
        pos % 32768 <= 32752,
    ensures
        ({
            let room = 32752 - pos % 32768;
            let b = record_bytes(pos, seqno, payload);
            &&& b.len() >= 16
            &&& RecordHeader::parse(b.subrange(0, 16)).seqno == seqno
            &&& payload.len() <= room ==> {
                &&& b.len() == 16 + payload.len()
                &&& b[6] == 1
                &&& b.subrange(16, b.len() as int) == payload
            }
            &&& payload.len() > room ==> {
                &&& b.len() > 16 + room + 16
                &&& b[6] == 2
                &&& b.subrange(16, 16 + room) == payload.subrange(0, room)
                &&& b[16 + room + 6] == 3 || b[16 + room + 6] == 4
            }
        }),
{
    let room = 32752 - pos % 32768;
    let b = record_bytes(pos, seqno, payload);
    let piece = if payload.len() <= room {
        payload
    } else {
        payload.subrange(0, room)
    };
    let h = RecordHeader::signed(fragment_type(true, payload.len() <= room), seqno, piece);
    h.law_round_trip();
    assert(padding(pos) =~= Seq::empty());
    assert(pos + padding(pos).len() == pos);
    assert(b =~= fragments(pos, seqno, payload, true));
    assert(b.subrange(0, 16) =~= h.bytes());
    assert(h.bytes()[6] == h.record_type);
    if payload.len() <= room {
        assert(b.subrange(16, b.len() as int) =~= payload);
    } else {
        assert(b.subrange(16, 16 + room) =~= piece);
        let next = pos + block_room(pos);
        let left = payload.subrange(room, payload.len() as int);
        lemma_next_block(pos);
        let rest = fragments(next, seqno, left, false);
        let whole = left.len() <= 32752;
        let part = if whole {
            left
        } else {
            left.subrange(0, 32752)
        };
        let k = RecordHeader::signed(fragment_type(false, whole), seqno, part);
        k.law_round_trip();
        assert(block_room(next) == 32768);
        assert(rest.subrange(0, 16) =~= k.bytes());
        assert(rest[6] == k.bytes()[6]);
        assert(k.bytes()[6] == k.record_type);
        assert(b[16 + room + 6] == rest[6]);
        assert(rest.len() > 16);
    }
}

/// Writer over a single WAL segment file.
pub struct SegmentWriter<F: VfsFile> {
    file: F,
    block_offset: usize,
    segment_id: u64,
    bytes_written: u64,
    rotate_at: u64,
}

impl<F: VfsFile> SegmentWriter<F> {
    /// The handle written to.
    pub closed spec fn handle(&self) -> F {
        self.file
    }

    /// Position in the records area.
    pub closed spec fn position(&self) -> u64 {
        self.bytes_written
    }

    /// Identifier in the segment header.
    pub closed spec fn id(&self) -> u64 {
        self.segment_id
    }

    /// The rotation threshold.
    pub closed spec fn threshold(&self) -> u64 {
        self.rotate_at
    }

    /// The place inside the block agrees with the position.
    pub closed spec fn wf(&self) -> bool {
        &&& self.block_offset <= BLOCK_SIZE
        &&& self.block_offset == BLOCK_SIZE ==> self.bytes_written % 32768 == 0
        &&& self.block_offset < BLOCK_SIZE ==> self.bytes_written % 32768 == self.block_offset
    }

    /// Nothing but the position differs.
    pub open spec fn same_but_position(&self, other: &SegmentWriter<F>) -> bool {
        &&& self.handle() == other.handle()
        &&& self.id() == other.id()
        &&& self.threshold() == other.threshold()
    }

    /// Start a new segment. Writes the [`SegmentHeader`] immediately and
    /// positions the writer at the start of block 0.
    pub fn create(fs: &mut F::Fs, file: F, segment_id: u64, first_seqno: u64) -> (r: Result<
        SegmentWriter<F>,
    >)
        requires
            is_open(&file, old(fs)),
        ensures
            r matches Ok(w) ==> w.wf() && w.handle() == file && w.position() == 0 && w.id()
                == segment_id && w.threshold() == 67_108_864 && F::fs_state(final(fs))
                == F::fs_state(old(fs)).with_bytes(
                file.id(),
                bytes_of(&file, old(fs)) + SegmentHeader::signed(segment_id, first_seqno).bytes(),
            ),
            r is Err ==> F::fs_state(old(fs)).grows_to(F::fs_state(final(fs)), file.id()),
            others_synced(F::fs_synced(old(fs)), F::fs_synced(final(fs)), file.id()),
            F::fs_reliable(old(fs)) ==> r is Ok && F::fs_reliable(final(fs)),
    {
        let header = SegmentHeader::new_signed(segment_id, first_seqno);
        let bytes = header.as_bytes();
        match file.append(fs, bytes.as_slice()) {
            Err(e) => Err(e),
            Ok(_) => Ok(
                SegmentWriter {
                    file,
                    block_offset: 0,
                    segment_id,
                    bytes_written: 0,
                    rotate_at: DEFAULT_ROTATE_AT,
                },
            ),
        }
    }

    /// Override the rotation threshold.
    pub fn set_rotate_at(&mut self, bytes: u64)
        ensures
            final(self).threshold() == bytes,
            final(self).handle() == old(self).handle(),
            final(self).id() == old(self).id(),
            final(self).position() == old(self).position(),
            old(self).wf() ==> final(self).wf(),
    {
        self.rotate_at = bytes;
    }

    /// Bytes written into the records area of this segment (excluding the
    /// fixed segment header).
    pub fn bytes_written(&self) -> (n: u64)
        ensures
            n == self.position(),
    {
        self.bytes_written
    }

    /// Segment identifier passed to [`create`](Self::create).
    pub fn segment_id(&self) -> (id: u64)
        ensures
            id == self.id(),
    {
        self.segment_id
    }

    /// `true` if the caller should rotate to a new segment.
    pub fn should_rotate(&self) -> (r: bool)
        ensures
            r == (self.position() >= self.threshold()),
    {
        self.bytes_written >= self.rotate_at
    }

    /// Borrow the underlying file.
    pub fn file(&self) -> (f: &F)
        ensures
            *f == self.handle(),
    {
        &self.file
    }

    /// Borrow the underlying file mutably.
    pub fn file_mut(&mut self) -> (f: &mut F)
        ensures
            *f == old(self).handle(),
            final(self).handle() == *final(f),
            final(self).position() == old(self).position(),
            final(self).id() == old(self).id(),
            final(self).threshold() == old(self).threshold(),
            final(self).wf() == old(self).wf(),
    {
        &mut self.file
    }

    /// Append one logical record carrying `payload` at sequence `seqno`.
    ///
    /// The payload is split into one or more on-disk fragments as needed.
    /// Returns the byte offset (relative to the start of the records area)
    /// where the first fragment of this record landed.
    pub fn append_record(&mut self, fs: &mut F::Fs, seqno: u64, payload: &[u8]) -> (r: Result<u64>)
        requires
            old(self).wf(),
            is_open(&old(self).handle(), old(fs)),
            old(self).position() <= bytes_of(&old(self).handle(), old(fs)).len(),
        ensures
            final(self).wf(),
            final(self).same_but_position(old(self)),
            final(self).position() <= bytes_of(&old(self).handle(), final(fs)).len(),
            final(self).position() >= old(self).position(),
            r matches Ok(at) ==> at == old(self).position() + padding(
                old(self).position() as nat,
            ).len() && final(self).position() == old(self).position() + record_bytes(
                old(self).position() as nat,
                seqno,
                payload@,
            ).len() && F::fs_state(final(fs)) == F::fs_state(old(fs)).with_bytes(
                old(self).handle().id(),
                bytes_of(&old(self).handle(), old(fs)) + record_bytes(
                    old(self).position() as nat,
                    seqno,
                    payload@,
                ),
            ),
            r is Err ==> F::fs_state(old(fs)).grows_to(F::fs_state(final(fs)), old(self).handle().id()),
            F::fs_reliable(old(fs)) ==> r is Ok && F::fs_reliable(final(fs)),
    {
        let ghost start = self.bytes_written as nat;
        let ghost all = record_bytes(start, seqno, payload@);
        let ghost state = F::fs_state(fs);
        let ghost id = self.file.id();
        let ghost before = state.files[id];
        let ghost pad = padding(start);
        proof {
            lemma_next_block(start);
        }
        match self.pad_block_if_header_would_not_fit(fs) {
            Err(e) => {
                return Err(e);
            },
            Ok(()) => {},
        }
        let record_start: u64 = self.bytes_written;
        let mut remaining: &[u8] = payload;
        let mut is_first: bool = true;
        let mut done: bool = false;
        let ghost mut sent: Seq<u8> = pad;
        proof {
            assert(all =~= sent + fragments(self.bytes_written as nat, seqno, remaining@, is_first));
        }
        while !done
            invariant
                self.wf(),
                self.same_but_position(old(self)),
                self.file.id() == id,
                state == F::fs_state(old(fs)),
                old(self).file.id() == id,
                before == state.files[id],
                state.files.dom().contains(id),
                start == old(self).bytes_written,
                self.bytes_written == start + sent.len(),
                self.bytes_written <= (before + sent).len(),
                F::fs_state(fs) == state.with_bytes(id, before + sent),
                done ==> sent == all,
                !done ==> self.block_offset < BLOCK_SIZE && block_room(self.bytes_written as nat)
                    >= RECORD_HEADER_SIZE && all == sent + fragments(
                    self.bytes_written as nat,
                    seqno,
                    remaining@,
                    is_first,
                ),
                F::fs_reliable(old(fs)) ==> F::fs_reliable(fs),
            decreases
                    (if done { 0int } else { 1int }),
                    remaining@.len(),
                    (if block_room(self.bytes_written as nat) == RECORD_HEADER_SIZE {
                        1int
                    } else {
                        0int
                    }),
        {
            let ghost pos = self.bytes_written as nat;
            let ghost todo = fragments(pos, seqno, remaining@, is_first);
            let ghost tail = remaining@;
            proof {
                assert(all.len() == sent.len() + todo.len());
            }
            match self.write_next(fs, seqno, remaining, is_first) {
                Err(e) => {
                    proof {
                        state.lemma_append_grows(id, sent);
                        state.lemma_grows_transitive(
                            state.with_bytes(id, before + sent),
                            F::fs_state(fs),
                            id,
                        );
                    }
                    return Err(e);
                },
                Ok(n) => {
                    proof {
                        let last = tail.len() <= block_room(pos) - RECORD_HEADER_SIZE;
                        let frag = fragment(
                            fragment_type(is_first, last),
                            seqno,
                            tail.subrange(0, n as int),
                        );
                        if last {
                            assert(tail.subrange(0, n as int) =~= tail);
                        }
                        lemma_next_block(pos);
                        assert(before + sent + frag =~= before + (sent + frag));
                        state.lemma_rewrite(id, before + sent, before + (sent + frag));
                        sent = sent + frag;
                    }
                    done = n == remaining.len();
                    remaining = slice_subrange(remaining, n, remaining.len());
                    is_first = false;
                    proof {
                        if done {
                            assert(sent =~= all);
                        } else {
                            assert(all =~= sent + fragments(
                                self.bytes_written as nat,
                                seqno,
                                remaining@,
                                false,
                            ));
                        }
                    }
                },
            }
        }
        Ok(record_start)
    }

    /// Write the next fragment of a record, as much of `remaining` as the
    /// block takes. Returns how much that was.
    fn write_next(&mut self, fs: &mut F::Fs, seqno: u64, remaining: &[u8], is_first: bool) -> (r:
        Result<usize>)
        requires
            old(self).wf(),
            old(self).block_offset < BLOCK_SIZE,
            is_open(&old(self).handle(), old(fs)),
            block_room(old(self).bytes_written as nat) >= RECORD_HEADER_SIZE,
            old(self).bytes_written <= bytes_of(&old(self).handle(), old(fs)).len(),
        ensures
            final(self).wf(),
            final(self).same_but_position(old(self)),
            final(self).bytes_written <= bytes_of(&old(self).handle(), final(fs)).len(),
            final(self).bytes_written >= old(self).bytes_written,
            r matches Ok(n) ==> ({
                let pos = old(self).bytes_written as nat;
                let room = block_room(pos) - RECORD_HEADER_SIZE;
                let last = remaining@.len() <= room;
                let frag = fragment(
                    fragment_type(is_first, last),
                    seqno,
                    remaining@.subrange(0, n as int),
                );
                &&& n == (if last { remaining@.len() } else { room as nat })
                &&& final(self).bytes_written == pos + frag.len()
                &&& F::fs_state(final(fs)) == F::fs_state(old(fs)).with_bytes(
                    old(self).handle().id(),
                    bytes_of(&old(self).handle(), old(fs)) + frag,
                )
                &&& !last ==> final(self).block_offset == 0 && final(self).bytes_written == pos
                    + block_room(pos)
            }),
            r is Err ==> F::fs_state(old(fs)).grows_to(
                F::fs_state(final(fs)),
                old(self).handle().id(),
            ),
            F::fs_reliable(old(fs)) ==> r is Ok && F::fs_reliable(final(fs)),
    {
        let ghost pos = self.bytes_written as nat;
        let block_remaining: usize = BLOCK_SIZE - self.block_offset;
        let payload_room: usize = block_remaining - RECORD_HEADER_SIZE;
        let fragment_len: usize = if remaining.len() <= payload_room {
            remaining.len()
        } else {
            payload_room
        };
        let is_last: bool = fragment_len == remaining.len();
        let record_type: RecordType = match (is_first, is_last) {
            (true, true) => RecordType::Full,
            (true, false) => RecordType::First,
            (false, true) => RecordType::Last,
            (false, false) => RecordType::Middle,
        };
        let chunk: &[u8] = slice_subrange(remaining, 0, fragment_len);
        proof {
            lemma_next_block(pos);
            RecordHeader::signed(record_type, seqno, chunk@).law_round_trip();
            if is_last {
                assert(chunk@ =~= remaining@);
            }
        }
        match self.write_fragment(fs, record_type, seqno, chunk) {
            Err(e) => Err(e),
            Ok(()) => {
                if !is_last {
                    self.block_offset = 0;
                }
                Ok(fragment_len)
            },
        }
    }

    fn pad_block_if_header_would_not_fit(&mut self, fs: &mut F::Fs) -> (r: Result<()>)
        requires
            old(self).wf(),
            is_open(&old(self).handle(), old(fs)),
            old(self).bytes_written <= bytes_of(&old(self).handle(), old(fs)).len(),
        ensures
            final(self).wf(),
            final(self).same_but_position(old(self)),
            final(self).bytes_written <= bytes_of(&old(self).handle(), final(fs)).len(),
            final(self).bytes_written >= old(self).bytes_written,
            r is Ok ==> final(self).block_offset < BLOCK_SIZE && final(self).bytes_written == old(self).bytes_written + padding(old(self).bytes_written as nat).len() && F::fs_state(
                final(fs),
            ) == F::fs_state(old(fs)).with_bytes(
                old(self).handle().id(),
                bytes_of(&old(self).handle(), old(fs)) + padding(old(self).bytes_written as nat),
            ),
            r is Err ==> F::fs_state(old(fs)).grows_to(F::fs_state(final(fs)), old(self).handle().id()),
            F::fs_reliable(old(fs)) ==> r is Ok && F::fs_reliable(final(fs)),
    {
        let block_remaining: usize = BLOCK_SIZE - self.block_offset;
        proof {
            lemma_next_block(self.bytes_written as nat);
        }
        if block_remaining < RECORD_HEADER_SIZE {
            let pad = zeros(block_remaining);
            match self.file.append(fs, pad.as_slice()) {
                Err(e) => {
                    return Err(e);
                },
                Ok(_) => {},
            }
            proof {
                if block_remaining > 0 {
                    assert(pad@ =~= padding(self.bytes_written as nat));
                } else {
                    assert(pad@ =~= padding(self.bytes_written as nat));
                }
            }
            self.bytes_written = self.bytes_written + block_remaining as u64;
            self.block_offset = 0;
        } else {
            assert(bytes_of(&self.file, fs) + padding(self.bytes_written as nat) =~= bytes_of(
                &self.file,
                fs,
            ));
            assert(F::fs_state(fs) =~= F::fs_state(fs).with_bytes(
                self.file.id(),
                bytes_of(&self.file, fs),
            ));
        }
        Ok(())
    }

    fn write_fragment(
        &mut self,
        fs: &mut F::Fs,
        record_type: RecordType,
        seqno: u64,
        payload: &[u8],
    ) -> (r: Result<()>)
        requires
            old(self).wf(),
            old(self).block_offset < BLOCK_SIZE,
            is_open(&old(self).handle(), old(fs)),
            RECORD_HEADER_SIZE + payload@.len() <= BLOCK_SIZE - old(self).block_offset,
            old(self).bytes_written <= bytes_of(&old(self).handle(), old(fs)).len(),
        ensures
            final(self).wf(),
            final(self).same_but_position(old(self)),
            final(self).bytes_written <= bytes_of(&old(self).handle(), final(fs)).len(),
            final(self).bytes_written >= old(self).bytes_written,
            r is Ok ==> final(self).block_offset == old(self).block_offset + RECORD_HEADER_SIZE
                + payload@.len() && final(self).bytes_written == old(self).bytes_written + fragment(
                record_type,
                seqno,
                payload@,
            ).len() && F::fs_state(final(fs)) == F::fs_state(old(fs)).with_bytes(
                old(self).handle().id(),
                bytes_of(&old(self).handle(), old(fs)) + fragment(record_type, seqno, payload@),
            ),
            r is Err ==> F::fs_state(old(fs)).grows_to(F::fs_state(final(fs)), old(self).handle().id()),
            F::fs_reliable(old(fs)) ==> r is Ok && F::fs_reliable(final(fs)),
    {
        let ghost state = F::fs_state(fs);
        let ghost id = self.file.id();
        let ghost before = state.files[id];
        let mut header = RecordHeader::new(record_type, seqno, payload.len() as u16);
        header.sign(payload);
        assert(header == RecordHeader::signed(record_type, seqno, payload@));
        let bytes = header.as_bytes();
        match self.file.append(fs, bytes.as_slice()) {
            Err(e) => {
                return Err(e);
            },
            Ok(_) => {},
        }
        match self.file.append(fs, payload) {
            Err(e) => {
                proof {
                    state.lemma_append_grows(id, bytes@);
                    state.lemma_grows_transitive(
                        state.with_bytes(id, before + bytes@),
                        F::fs_state(fs),
                        id,
                    );
                }
                return Err(e);
            },
            Ok(_) => {},
        }
        proof {
            assert(before + bytes@ + payload@ =~= before + fragment(record_type, seqno, payload@));
            state.lemma_rewrite(
                id,
                before + bytes@,
                before + fragment(record_type, seqno, payload@),
            );
            let n = (RECORD_HEADER_SIZE + payload@.len()) as nat;
            if n < block_room(self.bytes_written as nat) {
                lemma_room_shrinks(self.bytes_written as nat, n);
            } else {
                lemma_next_block(self.bytes_written as nat);
            }
        }
        let total: usize = RECORD_HEADER_SIZE + payload.len();
        self.block_offset = self.block_offset + total;
        self.bytes_written = self.bytes_written + total as u64;
        Ok(())
    }

    /// Flush the underlying file: all that it holds becomes durable.
    pub fn sync(&mut self, fs: &mut F::Fs) -> (r: Result<()>)
        requires
            is_open(&old(self).handle(), old(fs)),
        ensures
            *final(self) == *old(self),
            F::fs_state(final(fs)) == F::fs_state(old(fs)),
            r is Ok ==> F::fs_synced(final(fs)) == F::fs_synced(old(fs)).insert(
                old(self).handle().id(),
                bytes_of(&old(self).handle(), old(fs)),
            ),
            F::fs_reliable(old(fs)) ==> r is Ok && F::fs_reliable(final(fs)),
    {
        self.file.sync(fs)
    }
}

} // verus!
