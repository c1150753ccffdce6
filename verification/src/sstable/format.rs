//! SSTable on-disk format types and constants. Every field is little-endian.
use vstd::prelude::*;

use crate::checksum::crc32c;
use crate::checksum::crc32c::{crc32c as crc, law_one_byte_is_noticed, one_byte_off};
use crate::checksum::Algorithm;
use crate::encoding::fixed::{
    lemma_concat_parts, lemma_join_parts, lemma_u32_bytes, lemma_u32_holds, lemma_u32_round_trip,
    lemma_u64_bytes, lemma_u64_holds, lemma_u64_round_trip, push_bytes, push_u32, push_u64,
    read_u32, read_u64, u32_from, u32_le, u64_from, u64_le,
};

pub use crate::sstable::flag;

verus! {

/// File header magic, ASCII `"PKVS"` in little-endian.
pub const SSTABLE_MAGIC: u32 = 0x5356_4B50;

/// Footer magic. Confirms that the back of a file is that of a real table.
pub const FOOTER_MAGIC: u64 = 0x4654_5253_5356_4B50;

/// Current on-disk format version. Readers refuse other versions.
pub const FORMAT_VERSION: u32 = 1;

/// Wire size of [`FileHeader`].
pub const FILE_HEADER_SIZE: usize = 64;

/// Padded file-header region size: the data blocks start at this offset.
pub const FILE_HEADER_REGION_SIZE: usize = 4096;

/// Wire size of [`Footer`].
pub const FOOTER_SIZE: usize = 64;

/// Default data-block size: 16 KiB.
pub const DEFAULT_BLOCK_SIZE: usize = 16384;

/// Alignment used for the start of every data block.
pub const BLOCK_ALIGNMENT: usize = 4096;

/// Restart interval: every Nth record stores its full key and records its
/// offset in the restart array.
pub const RESTART_INTERVAL: usize = 16;

/// Wire size of a [`BlockHandle`].
pub const BLOCK_HANDLE_SIZE: usize = 16;

/// Tag for the compression algorithm applied to data blocks.
#[derive(Debug, Clone, Copy, PartialEq, Eq, Structural)]
pub enum CompressionAlg {
    /// Blocks are stored verbatim. Byte 0.
    Uncompressed,
    /// LZ4 frame format. Byte 1.
    Lz4,
    /// Zstandard. Byte 2.
    Zstd,
}

impl CompressionAlg {
    /// The byte on disk.
    pub open spec fn byte(self) -> u8 {
        match self {
            CompressionAlg::Uncompressed => 0,
            CompressionAlg::Lz4 => 1,
            CompressionAlg::Zstd => 2,
        }
    }

    /// Parse from the persisted byte tag.
    pub fn from_byte(b: u8) -> (r: Option<CompressionAlg>)
        ensures
            r == (if b == 0 {
                Some(CompressionAlg::Uncompressed)
            } else if b == 1 {
                Some(CompressionAlg::Lz4)
            } else if b == 2 {
                Some(CompressionAlg::Zstd)
            } else {
                None
            }),
    {
        match b {
            0 => Some(CompressionAlg::Uncompressed),
            1 => Some(CompressionAlg::Lz4),
            2 => Some(CompressionAlg::Zstd),
            _ => None,
        }
    }

    /// Byte tag for persistence.
    pub fn as_byte(self) -> (b: u8)
        ensures
            b == self.byte(),
    {
        match self {
            CompressionAlg::Uncompressed => 0,
            CompressionAlg::Lz4 => 1,
            CompressionAlg::Zstd => 2,
        }
    }
}

/// Op type stored on every record.
#[derive(Debug, Clone, Copy, PartialEq, Eq, Structural)]
pub enum RecordOp {
    /// Insert or overwrite. Byte 0.
    Put,
    /// Tombstone. Byte 1.
    Tombstone,
}

impl RecordOp {
    /// The byte on disk.
    pub open spec fn byte(self) -> u8 {
        match self {
            RecordOp::Put => 0,
            RecordOp::Tombstone => 1,
        }
    }

    /// The operation that `b` stands for.
    pub open spec fn of_byte(b: u8) -> Option<RecordOp> {
        if b == 0 {
            Some(RecordOp::Put)
        } else if b == 1 {
            Some(RecordOp::Tombstone)
        } else {
            None
        }
    }

    /// Law: 0 stands for a put and 1 for a tombstone, and nothing else for either.
    pub proof fn law_bytes_tell_apart(a: RecordOp, b: u8)
        ensures
            RecordOp::of_byte(b) == Some(a) <==> b == a.byte(),
            RecordOp::of_byte(b) is Some <==> b <= 1,
            a == RecordOp::Put <==> a.byte() == 0,
    {
    }

    /// Parse from the persisted byte tag.
    pub fn from_byte(b: u8) -> (r: Option<RecordOp>)
        ensures
            r == RecordOp::of_byte(b),
    {
        match b {
            0 => Some(RecordOp::Put),
            1 => Some(RecordOp::Tombstone),
            _ => None,
        }
    }

    /// Byte tag for persistence.
    pub fn as_byte(self) -> (b: u8)
        ensures
            b == self.byte(),
            RecordOp::of_byte(b) == Some(self),
    {
        match self {
            RecordOp::Put => 0,
            RecordOp::Tombstone => 1,
        }
    }
}

/// File header. Sits at offset 0 of every SSTable, padded with zeros to a
/// page boundary so data blocks start aligned.
///
/// | Offset | Size | Field            |
/// |-------:|-----:|:-----------------|
/// | 0      | 4    | `magic`          |
/// | 4      | 4    | `version`        |
/// | 8      | 4    | `flags`          |
/// | 12     | 1    | `compression_alg`|
/// | 13     | 1    | `checksum_alg`   |
/// | 14     | 2    | `reserved`       |
/// | 16     | 8    | `num_entries`    |
/// | 24     | 8    | `num_blocks`     |
/// | 32     | 8    | `min_seqno`      |
/// | 40     | 8    | `max_seqno`      |
/// | 48     | 8    | `data_blocks_end_offset` |
/// | 56     | 4    | `header_crc32c`  |
/// | 60     | 4    | `reserved2`      |
#[derive(Debug, Clone, Copy, PartialEq, Eq, Structural)]
pub struct FileHeader {
    /// Magic number, see [`SSTABLE_MAGIC`].
    pub magic: u32,
    /// Format version, see [`FORMAT_VERSION`].
    pub version: u32,
    /// Bit flags, see [`flag`].
    pub flags: u32,
    /// Compression algorithm tag, see [`CompressionAlg`].
    pub compression_alg: u8,
    /// Checksum algorithm tag, see [`Algorithm`].
    pub checksum_alg: u8,
    /// First reserved byte; must be zero.
    pub reserved0: u8,
    /// Second reserved byte; must be zero.
    pub reserved1: u8,
    /// Total number of records across all data blocks.
    pub num_entries: u64,
    /// Number of data blocks.
    pub num_blocks: u64,
    /// Minimum sequence number written to this file.
    pub min_seqno: u64,
    /// Maximum sequence number written to this file.
    pub max_seqno: u64,
    /// File offset just past the last byte of the last data block.
    pub data_blocks_end_offset: u64,
    /// CRC32C over bytes 0..56 of this header.
    pub header_crc32c: u32,
    /// Reserved 4 bytes; must be zero.
    pub reserved2: u32,
}

/// The magic number of a header is the letters `PKVS`.
proof fn lemma_header_letters(b: Seq<u8>)
    requires
        b.len() == 64,
    ensures
        u32_from(b.subrange(0, 4)) == SSTABLE_MAGIC <==> b[0] == 0x50 && b[1] == 0x4B && b[2]
            == 0x56 && b[3] == 0x53,
{
    let s = b.subrange(0, 4);
    let letters = seq![0x50u8, 0x4B, 0x56, 0x53];
    lemma_u32_holds(s, SSTABLE_MAGIC);
    assert(u32_le(SSTABLE_MAGIC) =~= letters);
    assert(s =~= seq![b[0], b[1], b[2], b[3]]);
    assert(s == letters <==> b[0] == 0x50 && b[1] == 0x4B && b[2] == 0x56 && b[3] == 0x53) by {
        if s == letters {
            assert(s[0] == letters[0] && s[1] == letters[1] && s[2] == letters[2] && s[3]
                == letters[3]);
        }
        if b[0] == 0x50 && b[1] == 0x4B && b[2] == 0x56 && b[3] == 0x53 {
            assert(s =~= letters);
        }
    }
}

/// The magic number of a footer is the letters `PKVSSRTF`.
proof fn lemma_footer_letters(b: Seq<u8>)
    requires
        b.len() == 64,
    ensures
        u64_from(b.subrange(48, 56)) == FOOTER_MAGIC <==> b[48] == 0x50 && b[49] == 0x4B && b[50]
            == 0x56 && b[51] == 0x53 && b[52] == 0x53 && b[53] == 0x52 && b[54] == 0x54 && b[55]
            == 0x46,
{
    let s = b.subrange(48, 56);
    let letters = seq![0x50u8, 0x4B, 0x56, 0x53, 0x53, 0x52, 0x54, 0x46];
    lemma_u64_holds(s, FOOTER_MAGIC);
    assert(u64_le(FOOTER_MAGIC) =~= letters);
    if s == letters {
        assert(s[0] == letters[0] && s[1] == letters[1] && s[2] == letters[2] && s[3] == letters[3]);
        assert(s[4] == letters[4] && s[5] == letters[5] && s[6] == letters[6] && s[7] == letters[7]);
    } else if b[48] == 0x50 && b[49] == 0x4B && b[50] == 0x56 && b[51] == 0x53 && b[52] == 0x53
        && b[53] == 0x52 && b[54] == 0x54 && b[55] == 0x46 {
        assert(s =~= letters);
    }
}

impl FileHeader {
    /// The 56 bytes that the checksum covers.
    pub open spec fn signed_bytes(self) -> Seq<u8> {
        u32_le(self.magic) + u32_le(self.version) + u32_le(self.flags) + seq![
            self.compression_alg,
            self.checksum_alg,
            self.reserved0,
            self.reserved1,
        ] + u64_le(self.num_entries) + u64_le(self.num_blocks) + u64_le(self.min_seqno) + u64_le(
            self.max_seqno,
        ) + u64_le(self.data_blocks_end_offset)
    }

    /// The 64 bytes on disk.
    pub open spec fn bytes(self) -> Seq<u8> {
        self.signed_bytes() + u32_le(self.header_crc32c) + u32_le(self.reserved2)
    }

    /// The header whose 64 bytes are `b`.
    pub open spec fn parse(b: Seq<u8>) -> FileHeader {
        FileHeader {
            magic: u32_from(b.subrange(0, 4)),
            version: u32_from(b.subrange(4, 8)),
            flags: u32_from(b.subrange(8, 12)),
            compression_alg: b[12],
            checksum_alg: b[13],
            reserved0: b[14],
            reserved1: b[15],
            num_entries: u64_from(b.subrange(16, 24)),
            num_blocks: u64_from(b.subrange(24, 32)),
            min_seqno: u64_from(b.subrange(32, 40)),
            max_seqno: u64_from(b.subrange(40, 48)),
            data_blocks_end_offset: u64_from(b.subrange(48, 56)),
            header_crc32c: u32_from(b.subrange(56, 60)),
            reserved2: u32_from(b.subrange(60, 64)),
        }
    }

    /// Magic, version, reserved bytes and checksum all validate.
    pub open spec fn valid(self) -> bool {
        &&& self.magic == SSTABLE_MAGIC
        &&& self.version == FORMAT_VERSION
        &&& self.reserved0 == 0
        &&& self.reserved1 == 0
        &&& self.reserved2 == 0
        &&& self.header_crc32c == crc(self.signed_bytes())
    }

    /// A header with the given fields and the right checksum.
    pub open spec fn signed(
        flags: u32,
        compression: CompressionAlg,
        checksum: Algorithm,
        num_entries: u64,
        num_blocks: u64,
        min_seqno: u64,
        max_seqno: u64,
        data_blocks_end_offset: u64,
    ) -> FileHeader {
        let h = FileHeader {
            magic: SSTABLE_MAGIC,
            version: FORMAT_VERSION,
            flags,
            compression_alg: compression.byte(),
            checksum_alg: checksum.tag_of(),
            reserved0: 0,
            reserved1: 0,
            num_entries,
            num_blocks,
            min_seqno,
            max_seqno,
            data_blocks_end_offset,
            header_crc32c: 0,
            reserved2: 0,
        };
        FileHeader { header_crc32c: crc(h.signed_bytes()), ..h }
    }

    /// Law: where the fields of a file header lie, and what makes one valid: the
    /// letters `PKVS`, version 1, zeros where nothing is kept yet, and the checksum
    /// of the 56 bytes before it.
    pub proof fn law_layout(b: Seq<u8>)
        requires
            b.len() == 64,
        ensures
            ({
                let h = FileHeader::parse(b);
                &&& h.flags == u32_from(b.subrange(8, 12))
                &&& h.compression_alg == b[12]
                &&& h.checksum_alg == b[13]
                &&& h.num_entries == u64_from(b.subrange(16, 24))
                &&& h.num_blocks == u64_from(b.subrange(24, 32))
                &&& h.min_seqno == u64_from(b.subrange(32, 40))
                &&& h.max_seqno == u64_from(b.subrange(40, 48))
                &&& h.data_blocks_end_offset == u64_from(b.subrange(48, 56))
                &&& h.valid() <==> b[0] == 0x50 && b[1] == 0x4B && b[2] == 0x56 && b[3] == 0x53
                    && u32_from(b.subrange(4, 8)) == 1 && b[14] == 0 && b[15] == 0 && u32_from(
                    b.subrange(56, 60),
                ) == crc(b.subrange(0, 56)) && u32_from(b.subrange(60, 64)) == 0
            }),
    {
        FileHeader::lemma_signed_part(b);
        lemma_header_letters(b);
    }

    /// Law: damage to any one byte of a valid header is noticed, whatever became
    /// of the byte.
    pub proof fn law_damage_is_noticed(good: Seq<u8>, bad: Seq<u8>, p: int)
        requires
            good.len() == 64,
            FileHeader::parse(good).valid(),
            one_byte_off(good, bad, p),
        ensures
            !FileHeader::parse(bad).valid(),
    {
        FileHeader::lemma_signed_part(good);
        FileHeader::lemma_signed_part(bad);
        lemma_u32_bytes(good.subrange(56, 60));
        lemma_u32_bytes(bad.subrange(56, 60));
        lemma_u32_bytes(good.subrange(60, 64));
        lemma_u32_bytes(bad.subrange(60, 64));
        if p < 56 {
            assert(one_byte_off(good.subrange(0, 56), bad.subrange(0, 56), p));
            law_one_byte_is_noticed(good.subrange(0, 56), bad.subrange(0, 56), p);
            assert(good.subrange(56, 60) =~= bad.subrange(56, 60));
        } else if p < 60 {
            assert(good.subrange(0, 56) =~= bad.subrange(0, 56));
            assert(good.subrange(56, 60)[p - 56] != bad.subrange(56, 60)[p - 56]);
        } else {
            assert(good.subrange(60, 64)[p - 60] != bad.subrange(60, 64)[p - 60]);
        }
    }

    /// The bytes that the checksum covers are the first 56.
    #[verifier::rlimit(50)]
    proof fn lemma_signed_part(b: Seq<u8>)
        requires
            b.len() == 64,
        ensures
            FileHeader::parse(b).signed_bytes() == b.subrange(0, 56),
    {
        lemma_u32_bytes(b.subrange(0, 4));
        lemma_u32_bytes(b.subrange(4, 8));
        lemma_u32_bytes(b.subrange(8, 12));
        lemma_u64_bytes(b.subrange(16, 24));
        lemma_u64_bytes(b.subrange(24, 32));
        lemma_u64_bytes(b.subrange(32, 40));
        lemma_u64_bytes(b.subrange(40, 48));
        lemma_u64_bytes(b.subrange(48, 56));
        assert(seq![b[12], b[13], b[14], b[15]] =~= b.subrange(12, 16));
        lemma_join_parts(b, 0, 4, 8);
        lemma_join_parts(b, 0, 8, 12);
        lemma_join_parts(b, 0, 12, 16);
        lemma_join_parts(b, 0, 16, 24);
        lemma_join_parts(b, 0, 24, 32);
        lemma_join_parts(b, 0, 32, 40);
        lemma_join_parts(b, 0, 40, 48);
        lemma_join_parts(b, 0, 48, 56);
    }

    /// Law: a header read back from its own bytes is the same header.
    pub proof fn law_round_trip(self)
        ensures
            self.bytes().len() == FILE_HEADER_SIZE,
            self.signed_bytes().len() == 56,
            FileHeader::parse(self.bytes()) == self,
    {
        lemma_u32_round_trip(self.magic);
        lemma_u32_round_trip(self.version);
        lemma_u32_round_trip(self.flags);
        lemma_u64_round_trip(self.num_entries);
        lemma_u64_round_trip(self.num_blocks);
        lemma_u64_round_trip(self.min_seqno);
        lemma_u64_round_trip(self.max_seqno);
        lemma_u64_round_trip(self.data_blocks_end_offset);
        lemma_u32_round_trip(self.header_crc32c);
        lemma_u32_round_trip(self.reserved2);
        let tags = seq![
            self.compression_alg,
            self.checksum_alg,
            self.reserved0,
            self.reserved1,
        ];
        let s1 = u32_le(self.magic);
        let s2 = s1 + u32_le(self.version);
        let s3 = s2 + u32_le(self.flags);
        let s4 = s3 + tags;
        let s5 = s4 + u64_le(self.num_entries);
        let s6 = s5 + u64_le(self.num_blocks);
        let s7 = s6 + u64_le(self.min_seqno);
        let s8 = s7 + u64_le(self.max_seqno);
        let s9 = s8 + u64_le(self.data_blocks_end_offset);
        let s10 = s9 + u32_le(self.header_crc32c);
        lemma_concat_parts(Seq::empty(), s1);
        lemma_concat_parts(s1, u32_le(self.version));
        lemma_concat_parts(s2, u32_le(self.flags));
        lemma_concat_parts(s3, tags);
        lemma_concat_parts(s4, u64_le(self.num_entries));
        lemma_concat_parts(s5, u64_le(self.num_blocks));
        lemma_concat_parts(s6, u64_le(self.min_seqno));
        lemma_concat_parts(s7, u64_le(self.max_seqno));
        lemma_concat_parts(s8, u64_le(self.data_blocks_end_offset));
        lemma_concat_parts(s9, u32_le(self.header_crc32c));
        lemma_concat_parts(s10, u32_le(self.reserved2));
        let b = self.bytes();
        assert(b == s10 + u32_le(self.reserved2));
        assert(s1.subrange(0, 4) =~= s1);
        assert(b.subrange(0, 4) == s1);
        assert(b.subrange(12, 16) == tags);
        assert(b[12] == b.subrange(12, 16)[0]);
        assert(b[13] == b.subrange(12, 16)[1]);
        assert(b[14] == b.subrange(12, 16)[2]);
        assert(b[15] == b.subrange(12, 16)[3]);
    }

    fn signed_prefix(&self) -> (v: Vec<u8>)
        ensures
            v@ == self.signed_bytes(),
    {
        let mut v: Vec<u8> = Vec::new();
        push_u32(&mut v, self.magic);
        assert(v@ =~= u32_le(self.magic));
        push_u32(&mut v, self.version);
        push_u32(&mut v, self.flags);
        let ghost front = v@;
        v.push(self.compression_alg);
        v.push(self.checksum_alg);
        v.push(self.reserved0);
        v.push(self.reserved1);
        assert(v@ =~= front + seq![
            self.compression_alg,
            self.checksum_alg,
            self.reserved0,
            self.reserved1,
        ]);
        push_u64(&mut v, self.num_entries);
        push_u64(&mut v, self.num_blocks);
        push_u64(&mut v, self.min_seqno);
        push_u64(&mut v, self.max_seqno);
        push_u64(&mut v, self.data_blocks_end_offset);
        v
    }

    /// Construct a header with `header_crc32c` computed from the rest of the
    /// fields.
    pub fn new_signed(
        flags: u32,
        compression: CompressionAlg,
        checksum: Algorithm,
        num_entries: u64,
        num_blocks: u64,
        min_seqno: u64,
        max_seqno: u64,
        data_blocks_end_offset: u64,
    ) -> (h: FileHeader)
        ensures
            h == FileHeader::signed(
                flags,
                compression,
                checksum,
                num_entries,
                num_blocks,
                min_seqno,
                max_seqno,
                data_blocks_end_offset,
            ),
            h.valid(),
    {
        let mut h = FileHeader {
            magic: SSTABLE_MAGIC,
            version: FORMAT_VERSION,
            flags,
            compression_alg: compression.as_byte(),
            checksum_alg: checksum.tag(),
            reserved0: 0,
            reserved1: 0,
            num_entries,
            num_blocks,
            min_seqno,
            max_seqno,
            data_blocks_end_offset,
            header_crc32c: 0,
            reserved2: 0,
        };
        let prefix = h.signed_prefix();
        h.header_crc32c = crc32c::hash(prefix.as_slice());
        h
    }

    /// `true` if magic, version, reserved zeros, and the header checksum all
    /// validate.
    pub fn is_valid(&self) -> (r: bool)
        ensures
            r == self.valid(),
    {
        if self.magic != SSTABLE_MAGIC || self.version != FORMAT_VERSION {
            return false;
        }
        if self.reserved0 != 0 || self.reserved1 != 0 || self.reserved2 != 0 {
            return false;
        }
        let prefix = self.signed_prefix();
        self.header_crc32c == crc32c::hash(prefix.as_slice())
    }

    /// The 64 bytes on disk.
    pub fn as_bytes(&self) -> (v: Vec<u8>)
        ensures
            v@ == self.bytes(),
            v@.len() == FILE_HEADER_SIZE,
    {
        let mut v = self.signed_prefix();
        push_u32(&mut v, self.header_crc32c);
        push_u32(&mut v, self.reserved2);
        proof {
            self.law_round_trip();
        }
        v
    }

    /// Read a header from exactly 64 bytes.
    pub fn from_bytes(b: &[u8]) -> (r: Option<FileHeader>)
        ensures
            r is Some <==> b@.len() == FILE_HEADER_SIZE,
            r matches Some(h) ==> h == FileHeader::parse(b@),
    {
        if b.len() != FILE_HEADER_SIZE {
            return None;
        }
        Some(
            FileHeader {
                magic: read_u32(b, 0),
                version: read_u32(b, 4),
                flags: read_u32(b, 8),
                compression_alg: b[12],
                checksum_alg: b[13],
                reserved0: b[14],
                reserved1: b[15],
                num_entries: read_u64(b, 16),
                num_blocks: read_u64(b, 24),
                min_seqno: read_u64(b, 32),
                max_seqno: read_u64(b, 40),
                data_blocks_end_offset: read_u64(b, 48),
                header_crc32c: read_u32(b, 56),
                reserved2: read_u32(b, 60),
            },
        )
    }
}

/// Pointer to a single block on disk.
#[derive(Debug, Clone, Copy, PartialEq, Eq, Structural)]
pub struct BlockHandle {
    /// File offset where the block begins. Always a multiple of
    /// [`BLOCK_ALIGNMENT`] for data blocks.
    pub offset: u64,
    /// Length of the block in bytes.
    pub length: u32,
    /// Checksum of the block contents. Zero when the block is unchecksummed.
    pub checksum: u32,
}

impl BlockHandle {
    /// The 16 bytes on disk.
    pub open spec fn bytes(self) -> Seq<u8> {
        u64_le(self.offset) + u32_le(self.length) + u32_le(self.checksum)
    }

    /// The handle whose 16 bytes are `b`.
    pub open spec fn parse(b: Seq<u8>) -> BlockHandle {
        BlockHandle {
            offset: u64_from(b.subrange(0, 8)),
            length: u32_from(b.subrange(8, 12)),
            checksum: u32_from(b.subrange(12, 16)),
        }
    }

    /// The bytes of the handle that 16 bytes hold are those bytes.
    proof fn lemma_bytes(b: Seq<u8>)
        requires
            b.len() == 16,
        ensures
            BlockHandle::parse(b).bytes() == b,
    {
        lemma_u64_bytes(b.subrange(0, 8));
        lemma_u32_bytes(b.subrange(8, 12));
        lemma_u32_bytes(b.subrange(12, 16));
        assert(BlockHandle::parse(b).bytes() =~= b);
    }

    /// Law: where the fields of a handle lie.
    pub proof fn law_layout(b: Seq<u8>)
        requires
            b.len() == 16,
        ensures
            BlockHandle::parse(b).offset == u64_from(b.subrange(0, 8)),
            BlockHandle::parse(b).length == u32_from(b.subrange(8, 12)),
            BlockHandle::parse(b).checksum == u32_from(b.subrange(12, 16)),
    {
    }

    /// Law: a handle read back from its own bytes is the same handle.
    pub proof fn law_round_trip(self)
        ensures
            self.bytes().len() == BLOCK_HANDLE_SIZE,
            BlockHandle::parse(self.bytes()) == self,
    {
        lemma_u64_round_trip(self.offset);
        lemma_u32_round_trip(self.length);
        lemma_u32_round_trip(self.checksum);
        let b = self.bytes();
        assert(b.subrange(0, 8) =~= u64_le(self.offset));
        assert(b.subrange(8, 12) =~= u32_le(self.length));
        assert(b.subrange(12, 16) =~= u32_le(self.checksum));
    }

    /// The 16 bytes on disk.
    pub fn as_bytes(&self) -> (v: Vec<u8>)
        ensures
            v@ == self.bytes(),
            v@.len() == BLOCK_HANDLE_SIZE,
    {
        let mut v: Vec<u8> = Vec::new();
        push_u64(&mut v, self.offset);
        push_u32(&mut v, self.length);
        push_u32(&mut v, self.checksum);
        proof {
            self.law_round_trip();
            assert(v@ =~= self.bytes());
        }
        v
    }

    /// Read a handle from the 16 bytes at `at`.
    pub fn read(b: &[u8], at: usize) -> (h: BlockHandle)
        requires
            at + BLOCK_HANDLE_SIZE <= b@.len(),
        ensures
            h == BlockHandle::parse(b@.subrange(at as int, at + BLOCK_HANDLE_SIZE)),
    {
        assert(b.len() == b@.len());
        let ghost w = b@.subrange(at as int, at + BLOCK_HANDLE_SIZE);
        assert(w.subrange(0, 8) =~= b@.subrange(at as int, at + 8));
        assert(w.subrange(8, 12) =~= b@.subrange(at + 8, at + 12));
        assert(w.subrange(12, 16) =~= b@.subrange(at + 12, at + 16));
        BlockHandle {
            offset: read_u64(b, at),
            length: read_u32(b, at + 8),
            checksum: read_u32(b, at + 12),
        }
    }
}

/// File footer. Sits at the last [`FOOTER_SIZE`] bytes of every SSTable.
///
/// | Offset | Size | Field             |
/// |-------:|-----:|:------------------|
/// | 0      | 16   | `index_handle`    |
/// | 16     | 16   | `filter_handle`   |
/// | 32     | 16   | `meta_handle`     |
/// | 48     | 8    | `footer_magic`    |
/// | 56     | 4    | `format_version`  |
/// | 60     | 4    | `footer_crc32c`   |
#[derive(Debug, Clone, Copy, PartialEq, Eq, Structural)]
pub struct Footer {
    /// Pointer to the index block.
    pub index_handle: BlockHandle,
    /// Pointer to the filter block (length zero if no bloom filter is
    /// present).
    pub filter_handle: BlockHandle,
    /// Pointer to the meta block.
    pub meta_handle: BlockHandle,
    /// Magic number, see [`FOOTER_MAGIC`].
    pub footer_magic: u64,
    /// Format version, see [`FORMAT_VERSION`].
    pub format_version: u32,
    /// CRC32C over the preceding 60 bytes.
    pub footer_crc32c: u32,
}

impl Footer {
    /// The 60 bytes that the checksum covers.
    pub open spec fn signed_bytes(self) -> Seq<u8> {
        self.index_handle.bytes() + self.filter_handle.bytes() + self.meta_handle.bytes() + u64_le(
            self.footer_magic,
        ) + u32_le(self.format_version)
    }

    /// The 64 bytes on disk.
    pub open spec fn bytes(self) -> Seq<u8> {
        self.signed_bytes() + u32_le(self.footer_crc32c)
    }

    /// The footer whose 64 bytes are `b`.
    pub open spec fn parse(b: Seq<u8>) -> Footer {
        Footer {
            index_handle: BlockHandle::parse(b.subrange(0, 16)),
            filter_handle: BlockHandle::parse(b.subrange(16, 32)),
            meta_handle: BlockHandle::parse(b.subrange(32, 48)),
            footer_magic: u64_from(b.subrange(48, 56)),
            format_version: u32_from(b.subrange(56, 60)),
            footer_crc32c: u32_from(b.subrange(60, 64)),
        }
    }

    /// Magic, version and checksum all validate.
    pub open spec fn valid(self) -> bool {
        &&& self.footer_magic == FOOTER_MAGIC
        &&& self.format_version == FORMAT_VERSION
        &&& self.footer_crc32c == crc(self.signed_bytes())
    }

    /// A footer with the given handles and the right checksum.
    pub open spec fn signed(
        index_handle: BlockHandle,
        filter_handle: BlockHandle,
        meta_handle: BlockHandle,
    ) -> Footer {
        let f = Footer {
            index_handle,
            filter_handle,
            meta_handle,
            footer_magic: FOOTER_MAGIC,
            format_version: FORMAT_VERSION,
            footer_crc32c: 0,
        };
        Footer { footer_crc32c: crc(f.signed_bytes()), ..f }
    }

    /// Law: where the fields of a footer lie, and what makes one valid: the letters
    /// `PKVSSRTF`, version 1, and the checksum of the 60 bytes before it.
    pub proof fn law_layout(b: Seq<u8>)
        requires
            b.len() == 64,
        ensures
            ({
                let f = Footer::parse(b);
                &&& f.index_handle == BlockHandle::parse(b.subrange(0, 16))
                &&& f.filter_handle == BlockHandle::parse(b.subrange(16, 32))
                &&& f.meta_handle == BlockHandle::parse(b.subrange(32, 48))
                &&& f.valid() <==> b[48] == 0x50 && b[49] == 0x4B && b[50] == 0x56 && b[51] == 0x53
                    && b[52] == 0x53 && b[53] == 0x52 && b[54] == 0x54 && b[55] == 0x46
                    && u32_from(b.subrange(56, 60)) == 1 && u32_from(b.subrange(60, 64)) == crc(
                    b.subrange(0, 60),
                )
            }),
    {
        Footer::lemma_signed_part(b);
        lemma_footer_letters(b);
    }

    /// Law: damage to any one byte of a valid footer is noticed, whatever became
    /// of the byte.
    pub proof fn law_damage_is_noticed(good: Seq<u8>, bad: Seq<u8>, p: int)
        requires
            good.len() == 64,
            Footer::parse(good).valid(),
            one_byte_off(good, bad, p),
        ensures
            !Footer::parse(bad).valid(),
    {
        Footer::lemma_signed_part(good);
        Footer::lemma_signed_part(bad);
        lemma_u32_bytes(good.subrange(60, 64));
        lemma_u32_bytes(bad.subrange(60, 64));
        if p < 60 {
            assert(one_byte_off(good.subrange(0, 60), bad.subrange(0, 60), p));
            law_one_byte_is_noticed(good.subrange(0, 60), bad.subrange(0, 60), p);
            assert(good.subrange(60, 64) =~= bad.subrange(60, 64));
        } else {
            assert(good.subrange(0, 60) =~= bad.subrange(0, 60));
            assert(good.subrange(60, 64)[p - 60] != bad.subrange(60, 64)[p - 60]);
        }
    }

    /// The bytes that the checksum covers are the first 60.
    proof fn lemma_signed_part(b: Seq<u8>)
        requires
            b.len() == 64,
        ensures
            Footer::parse(b).signed_bytes() == b.subrange(0, 60),
    {
        BlockHandle::lemma_bytes(b.subrange(0, 16));
        BlockHandle::lemma_bytes(b.subrange(16, 32));
        BlockHandle::lemma_bytes(b.subrange(32, 48));
        lemma_u64_bytes(b.subrange(48, 56));
        lemma_u32_bytes(b.subrange(56, 60));
        lemma_join_parts(b, 0, 16, 32);
        lemma_join_parts(b, 0, 32, 48);
        lemma_join_parts(b, 0, 48, 56);
        lemma_join_parts(b, 0, 56, 60);
    }

    /// Law: a footer read back from its own bytes is the same footer.
    pub proof fn law_round_trip(self)
        ensures
            self.bytes().len() == FOOTER_SIZE,
            self.signed_bytes().len() == 60,
            Footer::parse(self.bytes()) == self,
    {
        self.index_handle.law_round_trip();
        self.filter_handle.law_round_trip();
        self.meta_handle.law_round_trip();
        lemma_u64_round_trip(self.footer_magic);
        lemma_u32_round_trip(self.format_version);
        lemma_u32_round_trip(self.footer_crc32c);
        let s1 = self.index_handle.bytes();
        let s2 = s1 + self.filter_handle.bytes();
        let s3 = s2 + self.meta_handle.bytes();
        let s4 = s3 + u64_le(self.footer_magic);
        let s5 = s4 + u32_le(self.format_version);
        lemma_concat_parts(s1, self.filter_handle.bytes());
        lemma_concat_parts(s2, self.meta_handle.bytes());
        lemma_concat_parts(s3, u64_le(self.footer_magic));
        lemma_concat_parts(s4, u32_le(self.format_version));
        lemma_concat_parts(s5, u32_le(self.footer_crc32c));
        let b = self.bytes();
        assert(b == s5 + u32_le(self.footer_crc32c));
        assert(s1.subrange(0, 16) =~= s1);
        assert(b.subrange(0, 16) == s1);
    }

    fn signed_prefix(&self) -> (v: Vec<u8>)
        ensures
            v@ == self.signed_bytes(),
    {
        let mut v: Vec<u8> = self.index_handle.as_bytes();
        push_bytes(&mut v, self.filter_handle.as_bytes().as_slice());
        push_bytes(&mut v, self.meta_handle.as_bytes().as_slice());
        push_u64(&mut v, self.footer_magic);
        push_u32(&mut v, self.format_version);
        v
    }

    /// Construct a footer with `footer_crc32c` computed from the rest of the
    /// fields.
    pub fn new_signed(
        index_handle: BlockHandle,
        filter_handle: BlockHandle,
        meta_handle: BlockHandle,
    ) -> (f: Footer)
        ensures
            f == Footer::signed(index_handle, filter_handle, meta_handle),
            f.valid(),
    {
        let mut f = Footer {
            index_handle,
            filter_handle,
            meta_handle,
            footer_magic: FOOTER_MAGIC,
            format_version: FORMAT_VERSION,
            footer_crc32c: 0,
        };
        let prefix = f.signed_prefix();
        f.footer_crc32c = crc32c::hash(prefix.as_slice());
        f
    }

    /// `true` if footer magic, format version, and checksum all validate.
    pub fn is_valid(&self) -> (r: bool)
        ensures
            r == self.valid(),
    {
        if self.footer_magic != FOOTER_MAGIC || self.format_version != FORMAT_VERSION {
            return false;
        }
        let prefix = self.signed_prefix();
        self.footer_crc32c == crc32c::hash(prefix.as_slice())
    }

    /// The 64 bytes on disk.
    pub fn as_bytes(&self) -> (v: Vec<u8>)
        ensures
            v@ == self.bytes(),
            v@.len() == FOOTER_SIZE,
    {
        let mut v = self.signed_prefix();
        push_u32(&mut v, self.footer_crc32c);
        proof {
            self.law_round_trip();
        }
        v
    }

    /// Read a footer from exactly 64 bytes.
    pub fn from_bytes(b: &[u8]) -> (r: Option<Footer>)
        ensures
            r is Some <==> b@.len() == FOOTER_SIZE,
            r matches Some(f) ==> f == Footer::parse(b@),
    {
        if b.len() != FOOTER_SIZE {
            return None;
        }
        Some(
            Footer {
                index_handle: BlockHandle::read(b, 0),
                filter_handle: BlockHandle::read(b, 16),
                meta_handle: BlockHandle::read(b, 32),
                footer_magic: read_u64(b, 48),
                format_version: read_u32(b, 56),
                footer_crc32c: read_u32(b, 60),
            },
        )
    }
}

} // verus!
