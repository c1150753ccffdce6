//! Block- and record-level checksums.
//!
//! Two algorithms are supported and the choice is recorded per file: CRC32C
//! (see [`crc32c`]) and XXH3-64 (see [`xxh3`]).
use vstd::prelude::*;

pub mod crc32c;
pub mod xxh3;

verus! {

/// Algorithm tag persisted in file headers.
#[derive(Debug, Clone, Copy, PartialEq, Eq, Hash, Structural)]
pub enum Algorithm {
    /// CRC32C / Castagnoli, tag 0.
    Crc32c,
    /// XXH3-64, tag 1.
    Xxh3,
}

impl Algorithm {
    /// The byte that stands for the algorithm on disk.
    pub open spec fn tag_of(self) -> u8 {
        match self {
            Algorithm::Crc32c => 0,
            Algorithm::Xxh3 => 1,
        }
    }

    /// The checksum of `data`.
    pub open spec fn digest_of(self, data: Seq<u8>) -> u64 {
        match self {
            Algorithm::Crc32c => crc32c::crc32c(data) as u64,
            Algorithm::Xxh3 => xxh3::xxh3_64(data),
        }
    }

    /// Compute the checksum of `data` using this algorithm.
    ///
    /// CRC32C results are zero-extended into the upper bits.
    pub fn hash(self, data: &[u8]) -> (r: u64)
        ensures
            r == self.digest_of(data@),
    {
        match self {
            Algorithm::Crc32c => crc32c::hash(data) as u64,
            Algorithm::Xxh3 => xxh3::hash(data),
        }
    }

    /// Parse from the persisted byte tag.
    pub fn from_tag(tag: u8) -> (r: Option<Algorithm>)
        ensures
            r == (if tag == 0 {
                Some(Algorithm::Crc32c)
            } else if tag == 1 {
                Some(Algorithm::Xxh3)
            } else {
                None
            }),
            forall|a: Algorithm| tag == #[trigger] a.tag_of() ==> r == Some(a),
    {
        match tag {
            0 => Some(Algorithm::Crc32c),
            1 => Some(Algorithm::Xxh3),
            _ => None,
        }
    }

    /// Byte tag for persistence.
    pub fn tag(self) -> (r: u8)
        ensures
            r == self.tag_of(),
    {
        match self {
            Algorithm::Crc32c => 0,
            Algorithm::Xxh3 => 1,
        }
    }
}

/// Law: the tags 0 and 1 tell the algorithms apart.
pub proof fn law_tags_tell_apart(a: Algorithm, b: Algorithm)
    ensures
        a.tag_of() == b.tag_of() ==> a == b,
        a.tag_of() == 0 || a.tag_of() == 1,
        a == Algorithm::Crc32c <==> a.tag_of() == 0,
{
}

/// Law: a CRC32C checksum fits in 32 bits and notices a damaged byte, wherever it
/// lies. The other algorithm's checksum is all of XXH3's 64 bits.
pub proof fn law_digests(good: Seq<u8>, bad: Seq<u8>, p: int)
    requires
        crc32c::one_byte_off(good, bad, p),
    ensures
        Algorithm::Crc32c.digest_of(good) != Algorithm::Crc32c.digest_of(bad),
        Algorithm::Crc32c.digest_of(good) < 0x1_0000_0000,
        Algorithm::Xxh3.digest_of(good) == xxh3::xxh3_64(good),
{
    crc32c::law_one_byte_is_noticed(good, bad, p);
}

} // verus!
