//! On-disk WAL format: headers and constants. Every field is little-endian.
use vstd::prelude::*;

use crate::checksum::crc32c;
use crate::checksum::crc32c::{crc32c as crc, law_one_byte_is_noticed, one_byte_off};
use crate::encoding::fixed::{
    lemma_u16_round_trip, lemma_u32_bytes, lemma_u32_holds, lemma_u32_round_trip, lemma_u64_bytes,
    lemma_u64_round_trip, push_u16, push_u32, push_u64, read_u16, read_u32, read_u64, u16_from,
    u16_le, u32_from, u32_le, u64_from, u64_le,
};

verus! {

/// Physical block size used by the segment layout.
pub const BLOCK_SIZE: usize = 32768;

/// Wire size of [`SegmentHeader`].
pub const SEGMENT_HEADER_SIZE: usize = 32;

/// Wire size of [`RecordHeader`].
pub const RECORD_HEADER_SIZE: usize = 16;

/// Maximum payload bytes carried by a single record fragment: a fragment must
/// fit inside one block.
pub const MAX_FRAGMENT_PAYLOAD: usize = BLOCK_SIZE - RECORD_HEADER_SIZE;

/// Magic number at the start of every segment file. ASCII `"PKWL"` in LE.
pub const SEGMENT_MAGIC: u32 = 0x4C57_4B50;

/// Current WAL format version. Readers refuse other versions.
pub const FORMAT_VERSION: u32 = 1;

/// Segment header, written once at the start of every segment file.
///
/// | Offset | Size | Field           | Description                                     |
/// |-------:|-----:|:----------------|:------------------------------------------------|
/// | 0      | 4    | `magic`         | [`SEGMENT_MAGIC`]                               |
/// | 4      | 4    | `version`       | [`FORMAT_VERSION`]                              |
/// | 8      | 8    | `segment_id`    | Monotonic per-engine segment number             |
/// | 16     | 8    | `first_seqno`   | First sequence number written into this segment |
/// | 24     | 4    | `header_crc32c` | CRC32C over bytes `0..24`                       |
/// | 28     | 4    | `reserved`      | Padding, must be zero                           |
#[derive(Debug, Clone, Copy, PartialEq, Eq, Structural)]
pub struct SegmentHeader {
    /// Magic number, see [`SEGMENT_MAGIC`].
    pub magic: u32,
    /// Format version, see [`FORMAT_VERSION`].
    pub version: u32,
    /// Monotonic segment identifier assigned by the writer.
    pub segment_id: u64,
    /// First sequence number recorded by the writer for this segment.
    pub first_seqno: u64,
    /// CRC32C over the 24 header bytes preceding this field.
    pub header_crc32c: u32,
    /// Padding to fill 32 bytes. Always written as zero.
    pub reserved: u32,
}

/// The magic number is the letters `PKWL`.
proof fn lemma_letters(s: Seq<u8>)
    requires
        s.len() == 4,
    ensures
        u32_from(s) == SEGMENT_MAGIC <==> s == seq![0x50u8, 0x4B, 0x57, 0x4C],
{
    lemma_u32_holds(s, SEGMENT_MAGIC);
    assert(u32_le(SEGMENT_MAGIC) =~= seq![0x50u8, 0x4B, 0x57, 0x4C]);
}

impl SegmentHeader {
    /// The 24 bytes that the checksum covers.
    pub open spec fn signed_bytes(self) -> Seq<u8> {
        u32_le(self.magic) + u32_le(self.version) + u64_le(self.segment_id) + u64_le(
            self.first_seqno,
        )
    }

    /// The 32 bytes on disk.
    pub open spec fn bytes(self) -> Seq<u8> {
        self.signed_bytes() + u32_le(self.header_crc32c) + u32_le(self.reserved)
    }

    /// The header whose 32 bytes are `b`.
    pub open spec fn parse(b: Seq<u8>) -> SegmentHeader {
        SegmentHeader {
            magic: u32_from(b.subrange(0, 4)),
            version: u32_from(b.subrange(4, 8)),
            segment_id: u64_from(b.subrange(8, 16)),
            first_seqno: u64_from(b.subrange(16, 24)),
            header_crc32c: u32_from(b.subrange(24, 28)),
            reserved: u32_from(b.subrange(28, 32)),
        }
    }

    /// Magic, version, padding and checksum all check out.
    pub open spec fn valid(self) -> bool {
        &&& self.magic == SEGMENT_MAGIC
        &&& self.version == FORMAT_VERSION
        &&& self.reserved == 0
        &&& self.header_crc32c == crc(self.signed_bytes())
    }

    /// A header with the given identifiers and the right checksum.
    pub open spec fn signed(segment_id: u64, first_seqno: u64) -> SegmentHeader {
        let h = SegmentHeader {
            magic: SEGMENT_MAGIC,
            version: FORMAT_VERSION,
            segment_id,
            first_seqno,
            header_crc32c: 0,
            reserved: 0,
        };
        SegmentHeader { header_crc32c: crc(h.signed_bytes()), ..h }
    }

    /// Law: where the fields of a segment header lie, and what makes one valid:
    /// the letters `PKWL`, version 1, the checksum of the 24 bytes before it, and
    /// zeros.
    pub proof fn law_layout(b: Seq<u8>)
        requires
            b.len() == 32,
        ensures
            ({
                let h = SegmentHeader::parse(b);
                &&& h.segment_id == u64_from(b.subrange(8, 16))
                &&& h.first_seqno == u64_from(b.subrange(16, 24))
                &&& h.valid() <==> b.subrange(0, 4) == seq![0x50u8, 0x4B, 0x57, 0x4C] && u32_from(
                    b.subrange(4, 8),
                ) == 1 && u32_from(b.subrange(24, 28)) == crc(b.subrange(0, 24)) && u32_from(
                    b.subrange(28, 32),
                ) == 0
            }),
    {
        SegmentHeader::lemma_signed_part(b);
        lemma_letters(b.subrange(0, 4));
    }

    /// Law: a header read back from its own bytes is the same header.
    pub proof fn law_round_trip(self)
        ensures
            self.bytes().len() == SEGMENT_HEADER_SIZE,
            self.signed_bytes().len() == 24,
            SegmentHeader::parse(self.bytes()) == self,
    {
        lemma_u32_round_trip(self.magic);
        lemma_u32_round_trip(self.version);
        lemma_u64_round_trip(self.segment_id);
        lemma_u64_round_trip(self.first_seqno);
        lemma_u32_round_trip(self.header_crc32c);
        lemma_u32_round_trip(self.reserved);
        let b = self.bytes();
        assert(b.subrange(0, 4) =~= u32_le(self.magic));
        assert(b.subrange(4, 8) =~= u32_le(self.version));
        assert(b.subrange(8, 16) =~= u64_le(self.segment_id));
        assert(b.subrange(16, 24) =~= u64_le(self.first_seqno));
        assert(b.subrange(24, 28) =~= u32_le(self.header_crc32c));
        assert(b.subrange(28, 32) =~= u32_le(self.reserved));
    }

    /// Law: damage to any one byte of a valid header is noticed, whatever became
    /// of the byte.
    pub proof fn law_damage_is_noticed(good: Seq<u8>, bad: Seq<u8>, p: int)
        requires
            good.len() == 32,
            SegmentHeader::parse(good).valid(),
            one_byte_off(good, bad, p),
        ensures
            !SegmentHeader::parse(bad).valid(),
    {
        let (g, b) = (SegmentHeader::parse(good), SegmentHeader::parse(bad));
        SegmentHeader::lemma_signed_part(good);
        SegmentHeader::lemma_signed_part(bad);
        lemma_u32_bytes(good.subrange(24, 28));
        lemma_u32_bytes(bad.subrange(24, 28));
        lemma_u32_bytes(good.subrange(28, 32));
        lemma_u32_bytes(bad.subrange(28, 32));
        if p < 24 {
            assert(one_byte_off(good.subrange(0, 24), bad.subrange(0, 24), p));
            law_one_byte_is_noticed(good.subrange(0, 24), bad.subrange(0, 24), p);
            assert(good.subrange(24, 28) =~= bad.subrange(24, 28));
        } else if p < 28 {
            assert(good.subrange(0, 24) =~= bad.subrange(0, 24));
            assert(good.subrange(24, 28)[p - 24] != bad.subrange(24, 28)[p - 24]);
        } else {
            assert(good.subrange(28, 32)[p - 28] != bad.subrange(28, 32)[p - 28]);
        }
    }

    /// The bytes that the checksum covers are the first 24.
    proof fn lemma_signed_part(b: Seq<u8>)
        requires
            b.len() == 32,
        ensures
            SegmentHeader::parse(b).signed_bytes() == b.subrange(0, 24),
    {
        lemma_u32_bytes(b.subrange(0, 4));
        lemma_u32_bytes(b.subrange(4, 8));
        lemma_u64_bytes(b.subrange(8, 16));
        lemma_u64_bytes(b.subrange(16, 24));
        assert(SegmentHeader::parse(b).signed_bytes() =~= b.subrange(0, 24));
    }

    /// Construct a header without computing its checksum. Use
    /// [`SegmentHeader::new_signed`] to also fill `header_crc32c`.
    pub fn new(segment_id: u64, first_seqno: u64) -> (h: SegmentHeader)
        ensures
            h == (SegmentHeader {
                header_crc32c: 0,
                ..SegmentHeader::signed(segment_id, first_seqno)
            }),
    {
        SegmentHeader {
            magic: SEGMENT_MAGIC,
            version: FORMAT_VERSION,
            segment_id,
            first_seqno,
            header_crc32c: 0,
            reserved: 0,
        }
    }

    fn signed_prefix(&self) -> (v: Vec<u8>)
        ensures
            v@ == self.signed_bytes(),
    {
        let mut v: Vec<u8> = Vec::new();
        push_u32(&mut v, self.magic);
        push_u32(&mut v, self.version);
        push_u64(&mut v, self.segment_id);
        push_u64(&mut v, self.first_seqno);
        assert(v@ =~= self.signed_bytes());
        v
    }

    /// Construct a fully-populated header with the correct `header_crc32c`.
    pub fn new_signed(segment_id: u64, first_seqno: u64) -> (h: SegmentHeader)
        ensures
            h == SegmentHeader::signed(segment_id, first_seqno),
            h.valid(),
    {
        let mut h = SegmentHeader::new(segment_id, first_seqno);
        let prefix = h.signed_prefix();
        h.header_crc32c = crc32c::hash(prefix.as_slice());
        h
    }

    /// `true` if the magic, version, reserved padding, and CRC32C all check
    /// out.
    pub fn is_valid(&self) -> (r: bool)
        ensures
            r == self.valid(),
    {
        if self.magic != SEGMENT_MAGIC || self.version != FORMAT_VERSION {
            return false;
        }
        if self.reserved != 0 {
            return false;
        }
        let prefix = self.signed_prefix();
        self.header_crc32c == crc32c::hash(prefix.as_slice())
    }

    /// The 32 bytes on disk.
    pub fn as_bytes(&self) -> (v: Vec<u8>)
        ensures
            v@ == self.bytes(),
            v@.len() == SEGMENT_HEADER_SIZE,
    {
        let mut v = self.signed_prefix();
        push_u32(&mut v, self.header_crc32c);
        push_u32(&mut v, self.reserved);
        proof {
            self.law_round_trip();
        }
        v
    }

    /// Read a header from exactly 32 bytes.
    pub fn from_bytes(b: &[u8]) -> (r: Option<SegmentHeader>)
        ensures
            r is Some <==> b@.len() == SEGMENT_HEADER_SIZE,
            r matches Some(h) ==> h == SegmentHeader::parse(b@),
    {
        if b.len() != SEGMENT_HEADER_SIZE {
            return None;
        }
        Some(
            SegmentHeader {
                magic: read_u32(b, 0),
                version: read_u32(b, 4),
                segment_id: read_u64(b, 8),
                first_seqno: read_u64(b, 16),
                header_crc32c: read_u32(b, 24),
                reserved: read_u32(b, 28),
            },
        )
    }
}

/// Record fragment type, stored on disk as a single byte.
#[derive(Debug, Clone, Copy, PartialEq, Eq, Hash, Structural)]
pub enum RecordType {
    /// The whole payload fits in this record. Byte 1.
    Full,
    /// First fragment of a logical record split across blocks. Byte 2.
    First,
    /// A middle fragment. Byte 3.
    Middle,
    /// Final fragment of a multi-block logical record. Byte 4.
    Last,
}

impl RecordType {
    /// The byte on disk.
    pub open spec fn byte(self) -> u8 {
        match self {
            RecordType::Full => 1,
            RecordType::First => 2,
            RecordType::Middle => 3,
            RecordType::Last => 4,
        }
    }

    /// The type that `tag` stands for.
    pub open spec fn of_byte(tag: u8) -> Option<RecordType> {
        if tag == 1 {
            Some(RecordType::Full)
        } else if tag == 2 {
            Some(RecordType::First)
        } else if tag == 3 {
            Some(RecordType::Middle)
        } else if tag == 4 {
            Some(RecordType::Last)
        } else {
            None
        }
    }

    /// Law: the bytes 1 to 4 stand for the types, and no others do.
    pub proof fn law_bytes_tell_apart(a: RecordType, tag: u8)
        ensures
            1 <= a.byte() <= 4,
            RecordType::of_byte(tag) == Some(a) <==> tag == a.byte(),
            RecordType::of_byte(tag) is Some <==> 1 <= tag <= 4,
            a.byte() == 1 <==> a == RecordType::Full,
            a.byte() == 2 <==> a == RecordType::First,
            a.byte() == 3 <==> a == RecordType::Middle,
    {
    }

    /// Parse from the byte stored on disk.
    pub fn from_byte(tag: u8) -> (r: Option<RecordType>)
        ensures
            r == RecordType::of_byte(tag),
    {
        match tag {
            1 => Some(RecordType::Full),
            2 => Some(RecordType::First),
            3 => Some(RecordType::Middle),
            4 => Some(RecordType::Last),
            _ => None,
        }
    }

    /// Persisted byte value.
    pub fn as_byte(self) -> (r: u8)
        ensures
            r == self.byte(),
            RecordType::of_byte(r) == Some(self),
    {
        match self {
            RecordType::Full => 1,
            RecordType::First => 2,
            RecordType::Middle => 3,
            RecordType::Last => 4,
        }
    }
}

/// Per-record header. Sits immediately before the fragment payload.
///
/// | Offset | Size | Field            | Description                                         |
/// |-------:|-----:|:-----------------|:----------------------------------------------------|
/// | 0      | 4    | `payload_crc32c` | CRC32C over type, reserved byte, `seqno`, `payload` |
/// | 4      | 2    | `length`         | Payload length (`<= MAX_FRAGMENT_PAYLOAD`)          |
/// | 6      | 1    | `record_type`    | [`RecordType`] tag                                  |
/// | 7      | 1    | `reserved`       | Padding, must be zero                               |
/// | 8      | 8    | `seqno`          | Logical-record sequence number                      |
#[derive(Debug, Clone, Copy, PartialEq, Eq, Structural)]
pub struct RecordHeader {
    /// CRC32C over `[record_type, reserved, seqno_bytes, payload]`.
    pub payload_crc32c: u32,
    /// Fragment payload length.
    pub length: u16,
    /// [`RecordType`] tag (validated via [`RecordType::from_byte`]).
    pub record_type: u8,
    /// Reserved byte, must be written as zero.
    pub reserved: u8,
    /// Sequence number assigned by the engine.
    pub seqno: u64,
}

impl RecordHeader {
    /// The 16 bytes on disk.
    pub open spec fn bytes(self) -> Seq<u8> {
        u32_le(self.payload_crc32c) + u16_le(self.length) + seq![self.record_type, self.reserved]
            + u64_le(self.seqno)
    }

    /// The header whose 16 bytes are `b`.
    pub open spec fn parse(b: Seq<u8>) -> RecordHeader {
        RecordHeader {
            payload_crc32c: u32_from(b.subrange(0, 4)),
            length: u16_from(b.subrange(4, 6)),
            record_type: b[6],
            reserved: b[7],
            seqno: u64_from(b.subrange(8, 16)),
        }
    }

    /// The checksum that the header should carry for `payload`.
    pub open spec fn crc_for(self, payload: Seq<u8>) -> u32 {
        crc(seq![self.record_type, self.reserved] + u64_le(self.seqno) + payload)
    }

    /// A header for `payload` with the right checksum.
    pub open spec fn signed(record_type: RecordType, seqno: u64, payload: Seq<u8>) -> RecordHeader {
        let h = RecordHeader {
            payload_crc32c: 0,
            length: payload.len() as u16,
            record_type: record_type.byte(),
            reserved: 0,
            seqno,
        };
        RecordHeader { payload_crc32c: h.crc_for(payload), ..h }
    }

    /// Law: where the fields of a record header lie, and what its checksum covers:
    /// everything behind the length, and the payload.
    pub proof fn law_layout(b: Seq<u8>, payload: Seq<u8>)
        requires
            b.len() == 16,
        ensures
            ({
                let h = RecordHeader::parse(b);
                &&& h.payload_crc32c == u32_from(b.subrange(0, 4))
                &&& h.length == b[4] + 256 * b[5]
                &&& h.record_type == b[6]
                &&& h.seqno == u64_from(b.subrange(8, 16))
                &&& h.crc_for(payload) == crc(b.subrange(6, 16) + payload)
            }),
    {
        let h = RecordHeader::parse(b);
        lemma_u64_bytes(b.subrange(8, 16));
        assert(seq![h.record_type, h.reserved] + u64_le(h.seqno) =~= b.subrange(6, 16));
    }

    /// Law: a header read back from its own bytes is the same header.
    pub proof fn law_round_trip(self)
        ensures
            self.bytes().len() == RECORD_HEADER_SIZE,
            RecordHeader::parse(self.bytes()) == self,
    {
        lemma_u32_round_trip(self.payload_crc32c);
        lemma_u16_round_trip(self.length);
        lemma_u64_round_trip(self.seqno);
        let b = self.bytes();
        assert(b.subrange(0, 4) =~= u32_le(self.payload_crc32c));
        assert(b.subrange(4, 6) =~= u16_le(self.length));
        assert(b.subrange(8, 16) =~= u64_le(self.seqno));
    }

    /// Law: the checksum covers type, reserved byte, sequence number and the
    /// whole payload. Damage to any one byte of these, or of the checksum itself,
    /// leaves a header that does not fit. `good` is a header followed by its
    /// payload; the length, at bytes 4 and 5, is not covered.
    pub proof fn law_damage_is_noticed(good: Seq<u8>, bad: Seq<u8>, p: int)
        requires
            good.len() >= 16,
            ({
                let h = RecordHeader::parse(good.subrange(0, 16));
                h.payload_crc32c == h.crc_for(good.subrange(16, good.len() as int))
            }),
            one_byte_off(good, bad, p),
            p < 4 || p >= 6,
        ensures
            ({
                let h = RecordHeader::parse(bad.subrange(0, 16));
                h.payload_crc32c != h.crc_for(bad.subrange(16, bad.len() as int))
            }),
    {
        let n = good.len() as int;
        RecordHeader::lemma_covered(good);
        RecordHeader::lemma_covered(bad);
        let (x, y) = (good.subrange(6, n), bad.subrange(6, n));
        let (a, b) = (good.subrange(0, 16), bad.subrange(0, 16));
        lemma_u32_bytes(a.subrange(0, 4));
        lemma_u32_bytes(b.subrange(0, 4));
        if p < 4 {
            assert(x =~= y);
            assert(a.subrange(0, 4)[p] != b.subrange(0, 4)[p]);
        } else {
            assert(a.subrange(0, 4) =~= b.subrange(0, 4));
            assert(one_byte_off(x, y, p - 6)) by {
                assert forall|i: int| 0 <= i < x.len() && i != p - 6 implies #[trigger] x[i]
                    == y[i] by {
                    assert(good[i + 6] == bad[i + 6]);
                }
            }
            law_one_byte_is_noticed(x, y, p - 6);
        }
    }

    /// What the checksum covers are the bytes behind the length.
    proof fn lemma_covered(b: Seq<u8>)
        requires
            b.len() >= 16,
        ensures
            ({
                let h = RecordHeader::parse(b.subrange(0, 16));
                h.crc_for(b.subrange(16, b.len() as int)) == crc(
                    b.subrange(6, b.len() as int),
                )
            }),
    {
        let front = b.subrange(0, 16);
        let h = RecordHeader::parse(front);
        lemma_u64_bytes(front.subrange(8, 16));
        assert(seq![h.record_type, h.reserved] + u64_le(h.seqno) + b.subrange(16, b.len() as int)
            =~= b.subrange(6, b.len() as int));
    }

    /// Build a header without filling the checksum. Use
    /// [`RecordHeader::sign`] (taking a payload) to compute it.
    pub fn new(record_type: RecordType, seqno: u64, payload_len: u16) -> (h: RecordHeader)
        ensures
            h == (RecordHeader {
                payload_crc32c: 0,
                length: payload_len,
                record_type: record_type.byte(),
                reserved: 0,
                seqno,
            }),
    {
        RecordHeader {
            payload_crc32c: 0,
            length: payload_len,
            record_type: record_type.as_byte(),
            reserved: 0,
            seqno,
        }
    }

    /// Compute and store the CRC32C over `(record_type, reserved, seqno,
    /// payload)`.
    pub fn sign(&mut self, payload: &[u8])
        ensures
            *final(self) == (RecordHeader {
                payload_crc32c: old(self).crc_for(payload@),
                ..*old(self)
            }),
    {
        let value: u32 = self.expected_crc(payload);
        self.payload_crc32c = value;
    }

    /// Re-compute the CRC32C the on-disk header should carry, given a
    /// payload.
    pub fn expected_crc(&self, payload: &[u8]) -> (r: u32)
        ensures
            r == self.crc_for(payload@),
    {
        let mut front: Vec<u8> = Vec::new();
        front.push(self.record_type);
        front.push(self.reserved);
        push_u64(&mut front, self.seqno);
        let mut hasher = crc32c::Hasher::new();
        hasher.update(front.as_slice());
        hasher.update(payload);
        assert(hasher@ =~= seq![self.record_type, self.reserved] + u64_le(self.seqno) + payload@);
        hasher.finalize()
    }

    /// The 16 bytes on disk.
    pub fn as_bytes(&self) -> (v: Vec<u8>)
        ensures
            v@ == self.bytes(),
            v@.len() == RECORD_HEADER_SIZE,
    {
        let mut v: Vec<u8> = Vec::new();
        push_u32(&mut v, self.payload_crc32c);
        push_u16(&mut v, self.length);
        v.push(self.record_type);
        v.push(self.reserved);
        push_u64(&mut v, self.seqno);
        proof {
            self.law_round_trip();
            assert(v@ =~= self.bytes());
        }
        v
    }

    /// Read a header from exactly 16 bytes.
    pub fn from_bytes(b: &[u8]) -> (r: Option<RecordHeader>)
        ensures
            r is Some <==> b@.len() == RECORD_HEADER_SIZE,
            r matches Some(h) ==> h == RecordHeader::parse(b@),
    {
        if b.len() != RECORD_HEADER_SIZE {
            return None;
        }
        Some(
            RecordHeader {
                payload_crc32c: read_u32(b, 0),
                length: read_u16(b, 4),
                record_type: b[6],
                reserved: b[7],
                seqno: read_u64(b, 8),
            },
        )
    }
}

} // verus!
