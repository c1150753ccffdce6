//! Cache-line-blocked Bloom filter.
//!
//! Each block is 64 bytes, and all bits of a key live in one block. A single
//! XXH3-64 over the key picks the block (low half, multiply-shift) and the bit
//! positions inside it (high half, double hashing).
//!
//! When persisted in the SSTable filter block, the bytes are:
//!
//! ```text
//!   Header (16 bytes, little-endian):
//!     u32 magic           = 0xB100_0F11
//!     u8  version         = 1
//!     u8  num_hashes      (K, default 8)
//!     u8  bits_per_key    (default 10)
//!     u8  reserved
//!     u32 num_blocks
//!     u32 num_keys
//!   Bytes (num_blocks * 64): the block array.
//! ```
use vstd::prelude::*;
use vstd::slice::{slice_subrange, slice_to_vec};
use vstd::string::*;

use crate::checksum::xxh3;
use crate::checksum::xxh3::xxh3_64;
use crate::encoding::fixed::{
    lemma_concat_parts, lemma_u32_round_trip, push_bytes, push_u32, read_u32, u32_from, u32_le,
    zeros,
};
use crate::encoding::text::{decimal, decimal_string};
use crate::error::{invalid_format, Error, ErrorView, Result};

verus! {

/// Magic at the start of a serialised filter.
pub const FILTER_MAGIC: u32 = 0xB100_0F11;

/// Persisted format version. Readers refuse other values.
pub const FILTER_VERSION: u8 = 1;

/// Fixed header in front of the block bytes.
pub const HEADER_SIZE: usize = 16;

/// Block size in bytes: one cache line.
pub const BLOCK_BYTES: usize = 64;

/// Block size in bits.
pub const BLOCK_BITS: u32 = 512;

/// Default number of hash bits set per key.
pub const DEFAULT_NUM_HASHES: u8 = 8;

/// Default bits-per-key budget.
pub const DEFAULT_BITS_PER_KEY: u8 = 10;

/// Tunable parameters for filter construction.
#[derive(Debug, Clone, Copy, PartialEq, Eq, Structural)]
pub struct BloomParams {
    /// Number of bit positions to set per key. Must be in `1..=16`.
    pub num_hashes: u8,
    /// Bit budget per key.
    pub bits_per_key: u8,
}

impl BloomParams {
    /// The number of hashes is in range.
    pub open spec fn valid(self) -> bool {
        1 <= self.num_hashes <= 16
    }
}

impl Default for BloomParams {
    fn default() -> (p: BloomParams)
        ensures
            p.num_hashes == 8,
            p.bits_per_key == 10,
    {
        BloomParams { num_hashes: DEFAULT_NUM_HASHES, bits_per_key: DEFAULT_BITS_PER_KEY }
    }
}

/// What a filter holds.
#[verifier::ext_equal]
pub struct FilterView {
    /// The block bytes.
    pub blocks: Seq<u8>,
    /// Number of blocks.
    pub num_blocks: u32,
    /// Number of insertions.
    pub num_keys: u32,
    /// Parameters.
    pub params: BloomParams,
}

/// The block that a hash picks: multiply-shift on its low half.
pub open spec fn block_of(hash: u64, num_blocks: u32) -> nat {
    (((hash % 0x1_0000_0000) * num_blocks) / 0x1_0000_0000) as nat
}

/// The step between the bit positions of a hash.
pub open spec fn stride(high: u32) -> u32 {
    let m = ((high * 0x9E37_79B9) % 0x1_0000_0000) as u32;
    let x = m ^ (m >> 16);
    ((x * 0x85EB_CA6B) % 0x1_0000_0000) as u32
}

/// The `i`-th bit position of a hash inside its block.
pub open spec fn bit_of(hash: u64, i: int) -> int {
    let high = (hash / 0x1_0000_0000) as u32;
    (high + i * stride(high)) % 512
}

/// Bit `pos` of the block array is set.
pub open spec fn bit_set(blocks: Seq<u8>, pos: int) -> bool {
    blocks[pos / 8] & (1u8 << ((pos % 8) as u8)) != 0
}

impl FilterView {
    /// The block array has the size that the header says.
    pub open spec fn wf(self) -> bool {
        &&& self.params.valid()
        &&& self.num_blocks >= 1
        &&& self.blocks.len() == self.num_blocks * BLOCK_BYTES
    }

    /// The `i`-th bit of `key` in the block array.
    pub open spec fn key_bit(self, key: Seq<u8>, i: int) -> int {
        block_of(xxh3_64(key), self.num_blocks) * 512 + bit_of(xxh3_64(key), i)
    }

    /// Every bit of `key` is set: the filter's answer.
    pub open spec fn holds(self, key: Seq<u8>) -> bool {
        forall|i: int|
            0 <= i < self.params.num_hashes ==> bit_set(
                self.blocks,
                #[trigger] self.key_bit(key, i),
            )
    }

    /// Bit `pos` is one of the bits of `key`.
    pub open spec fn is_key_bit(self, key: Seq<u8>, pos: int) -> bool {
        exists|i: int|
            0 <= i < self.params.num_hashes && pos == #[trigger] self.key_bit(key, i)
    }

    /// The filter of exactly these keys: a bit is set if and only if it is a bit
    /// of one of them.
    pub open spec fn built_from(self, keys: Seq<Seq<u8>>) -> bool {
        &&& self.wf()
        &&& self.num_keys == (if keys.len() <= u32::MAX {
            keys.len()
        } else {
            u32::MAX as nat
        })
        &&& forall|p: int|
            0 <= p < self.blocks.len() * 8 ==> #[trigger] bit_set(self.blocks, p)
                == self.is_bit_of(keys, p)
    }

    /// Bit `pos` is one of the bits of a key.
    pub open spec fn is_bit_of(self, keys: Seq<Seq<u8>>, pos: int) -> bool {
        exists|i: int| 0 <= i < keys.len() && self.is_key_bit(#[trigger] keys[i], pos)
    }

    /// The persisted bytes.
    pub open spec fn encoded(self) -> Seq<u8> {
        u32_le(FILTER_MAGIC) + seq![
            FILTER_VERSION,
            self.params.num_hashes,
            self.params.bits_per_key,
            0u8,
        ] + u32_le(self.num_blocks) + u32_le(self.num_keys) + self.blocks
    }
}

/// The filter that persisted bytes hold, or why they are not accepted.
pub open spec fn parse_filter(b: Seq<u8>) -> core::result::Result<FilterView, ErrorView> {
    let num_hashes = b[5];
    let num_blocks = u32_from(b.subrange(8, 12));
    if b.len() < HEADER_SIZE {
        Err(invalid_format("bloom filter"@, "shorter than header"@))
    } else if u32_from(b.subrange(0, 4)) != FILTER_MAGIC {
        Err(invalid_format("bloom filter"@, "wrong magic"@))
    } else if b[4] != FILTER_VERSION {
        Err(invalid_format("bloom filter"@, "unsupported version "@ + decimal(b[4] as nat)))
    } else if num_hashes == 0 || num_hashes > 16 {
        Err(
            invalid_format(
                "bloom filter"@,
                "num_hashes out of range: "@ + decimal(num_hashes as nat),
            ),
        )
    } else if num_blocks == 0 {
        Err(invalid_format("bloom filter"@, "num_blocks must be >= 1"@))
    } else if b.len() != HEADER_SIZE + num_blocks * BLOCK_BYTES {
        Err(
            invalid_format(
                "bloom filter"@,
                "payload length "@ + decimal((b.len() - HEADER_SIZE) as nat)
                    + " does not match num_blocks="@ + decimal(num_blocks as nat) + " (expected "@
                    + decimal((num_blocks * BLOCK_BYTES) as nat) + ")"@,
            ),
        )
    } else {
        Ok(
            FilterView {
                blocks: b.subrange(HEADER_SIZE as int, b.len() as int),
                num_blocks,
                num_keys: u32_from(b.subrange(12, 16)),
                params: BloomParams { num_hashes, bits_per_key: b[6] },
            },
        )
    }
}

/// Law: which bytes hold a filter, and where its parts lie: the magic number and
/// version 1, between one hash and sixteen, and behind the header as many blocks of
/// 64 bytes as it says, one at least.
pub proof fn law_filter_layout(b: Seq<u8>)
    requires
        b.len() >= 16,
    ensures
        ({
            let blocks = u32_from(b.subrange(8, 12));
            &&& parse_filter(b) is Ok <==> u32_from(b.subrange(0, 4)) == 0xB100_0F11 && b[4] == 1
                && 1 <= b[5] <= 16 && blocks >= 1 && b.len() == 16 + 64 * blocks
            &&& parse_filter(b) matches Ok(f) ==> {
                &&& f.params.num_hashes == b[5]
                &&& f.params.bits_per_key == b[6]
                &&& f.num_blocks == blocks
                &&& f.num_keys == u32_from(b.subrange(12, 16))
                &&& f.blocks == b.subrange(16, b.len() as int)
            }
        }),
{
}

/// Number of blocks for an expected number of keys: the bit budget, rounded up
/// to whole blocks, at least one and at most what can be counted and held.
pub open spec fn blocks_for(expected_keys: usize, bits_per_key: u8) -> nat {
    let keys = if expected_keys == 0 { 1nat } else { expected_keys as nat };
    let wanted = (keys * bits_per_key + 511) / 512;
    let limit = if usize::MAX / 64 < u32::MAX { (usize::MAX / 64) as nat } else { u32::MAX as nat };
    if wanted < 1 {
        1
    } else if wanted > limit {
        limit
    } else {
        wanted as nat
    }
}

proof fn lemma_block_of(hash: u64, num_blocks: u32)
    requires
        num_blocks >= 1,
    ensures
        block_of(hash, num_blocks) < num_blocks,
{
    let low = (hash % 0x1_0000_0000) as int;
    let n = num_blocks as int;
    assert(low * n < 0x1_0000_0000 * n) by (nonlinear_arith)
        requires
            0 <= low < 0x1_0000_0000,
            n >= 1,
    ;
}

/// One bit position follows from the one before.
proof fn lemma_next_bit(hash: u64, i: int)
    requires
        i >= 0,
    ensures
        0 <= bit_of(hash, i) < 512,
        bit_of(hash, i + 1) == (bit_of(hash, i) + stride((hash / 0x1_0000_0000) as u32) % 512)
            % 512,
{
    let high = (hash / 0x1_0000_0000) as u32;
    let s = stride(high) as int;
    lemma_add_step(high as int, i, s);
}

proof fn lemma_add_step(high: int, i: int, s: int)
    requires
        high >= 0,
        i >= 0,
        s >= 0,
    ensures
        (high + (i + 1) * s) % 512 == ((high + i * s) % 512 + s % 512) % 512,
{
    assert((i + 1) * s == i * s + s) by (nonlinear_arith);
    let whole = high + i * s;
    assert((whole + s) % 512 == (whole % 512 + s % 512) % 512);
}

proof fn lemma_or_mask(x: u8, bit: u8, other: u8)
    requires
        bit < 8,
        other < 8,
    ensures
        ((x | (1u8 << bit)) & (1u8 << other) != 0) == (x & (1u8 << other) != 0 || bit == other),
{
    assert(((x | (1u8 << bit)) & (1u8 << other) != 0) == (x & (1u8 << other) != 0 || bit == other))
        by (bit_vector)
        requires
            bit < 8,
            other < 8,
    ;
}

/// Setting one bit sets that bit and no other.
proof fn lemma_set_bit(blocks: Seq<u8>, pos: int)
    requires
        0 <= pos < blocks.len() * 8,
    ensures
        ({
            let byte = pos / 8;
            let after = blocks.update(byte, blocks[byte] | (1u8 << ((pos % 8) as u8)));
            forall|p: int|
                0 <= p < blocks.len() * 8 ==> #[trigger] bit_set(after, p) == (bit_set(blocks, p)
                    || p == pos)
        }),
{
    let byte = pos / 8;
    let after = blocks.update(byte, blocks[byte] | (1u8 << ((pos % 8) as u8)));
    assert forall|p: int| 0 <= p < blocks.len() * 8 implies #[trigger] bit_set(after, p) == (
    bit_set(blocks, p) || p == pos) by {
        if p / 8 == byte {
            lemma_or_mask(blocks[byte], (pos % 8) as u8, (p % 8) as u8);
        }
    }
}

/// Law: a filter read back from its own bytes is the same filter, so it gives
/// the same answers.
pub proof fn law_filter_round_trip(f: FilterView)
    requires
        f.wf(),
    ensures
        parse_filter(f.encoded()) == Ok::<FilterView, ErrorView>(f),
{
    let tags = seq![FILTER_VERSION, f.params.num_hashes, f.params.bits_per_key, 0u8];
    let s1 = u32_le(FILTER_MAGIC);
    let s2 = s1 + tags;
    let s3 = s2 + u32_le(f.num_blocks);
    let s4 = s3 + u32_le(f.num_keys);
    lemma_u32_round_trip(FILTER_MAGIC);
    lemma_u32_round_trip(f.num_blocks);
    lemma_u32_round_trip(f.num_keys);
    lemma_concat_parts(s1, tags);
    lemma_concat_parts(s2, u32_le(f.num_blocks));
    lemma_concat_parts(s3, u32_le(f.num_keys));
    lemma_concat_parts(s4, f.blocks);
    let b = f.encoded();
    assert(b == s4 + f.blocks);
    assert(s1.subrange(0, 4) =~= s1);
    assert(b.subrange(0, 4) == s1);
    assert(b.subrange(4, 8) == tags);
    assert(b[4] == b.subrange(4, 8)[0]);
    assert(b[5] == b.subrange(4, 8)[1]);
    assert(b[6] == b.subrange(4, 8)[2]);
}

/// Law: adding a key never makes the filter forget another.
pub proof fn law_more_bits_keep_answers(f: FilterView, g: FilterView, key: Seq<u8>)
    requires
        f.wf(),
        g.wf(),
        f.num_blocks == g.num_blocks,
        f.params == g.params,
        f.holds(key),
        forall|p: int|
            0 <= p < f.blocks.len() * 8 && bit_set(f.blocks, p) ==> #[trigger] bit_set(g.blocks, p),
    ensures
        g.holds(key),
{
    assert forall|i: int| 0 <= i < g.params.num_hashes implies bit_set(
        g.blocks,
        #[trigger] g.key_bit(key, i),
    ) by {
        lemma_block_of(xxh3_64(key), f.num_blocks);
        assert(f.key_bit(key, i) == g.key_bit(key, i));
        assert(bit_set(f.blocks, f.key_bit(key, i)));
    }
}

/// Law: blocks are picked evenly, however many there are. Which block it is rests
/// on the low half of the hash alone. The low halves that pick block `b` are those
/// from `from` up to `to`, so that the pick never goes down as they go up; and
/// there are as many for every block, give or take one.
pub proof fn law_blocks_are_picked_evenly(num_blocks: u32, b: int) -> (ends: (int, int))
    requires
        0 <= b < num_blocks,
    ensures
        ({
            let (from, to) = ends;
            let share = 0x1_0000_0000int / num_blocks as int;
            &&& 0 <= from < to <= 0x1_0000_0000
            &&& share <= to - from <= share + 1
            &&& b == 0 ==> from == 0
            &&& b == num_blocks - 1 ==> to == 0x1_0000_0000
            &&& forall|hash: u64| #[trigger]
                block_of(hash, num_blocks) == b <==> from <= hash % 0x1_0000_0000 < to
        }),
{
    let w = 0x1_0000_0000int;
    let n = num_blocks as int;
    let from = lemma_first_low(n, b);
    let to = lemma_first_low(n, b + 1);
    lemma_shares(n, b, from, to);
    assert forall|hash: u64| #[trigger] block_of(hash, num_blocks) == b <==> from <= hash
        % 0x1_0000_0000 < to by {
        let low = (hash % 0x1_0000_0000) as int;
        lemma_picked(n, b, from, low);
        lemma_picked(n, b + 1, to, low);
    }
    (from, to)
}

/// The least low half whose product reaches block `b`.
proof fn lemma_first_low(n: int, b: int) -> (from: int)
    requires
        0 <= b <= n,
        0 < n <= 0xFFFF_FFFF,
    ensures
        0 <= from <= 0x1_0000_0000,
        from * n >= b * 0x1_0000_0000,
        (from - 1) * n < b * 0x1_0000_0000,
        b == 0 ==> from == 0,
        b == n ==> from == 0x1_0000_0000,
{
    let x = b * 0x1_0000_0000;
    let from = (x + n - 1) / n;
    vstd::arithmetic::div_mod::lemma_fundamental_div_mod(x + n - 1, n);
    vstd::arithmetic::div_mod::lemma_mod_bound(x + n - 1, n);
    let r = (x + n - 1) % n;
    assert(from * n == x + n - 1 - r) by (nonlinear_arith)
        requires
            x + n - 1 == n * from + r,
    ;
    assert((from - 1) * n == from * n - n) by (nonlinear_arith);
    assert(from >= 0) by (nonlinear_arith)
        requires
            from * n >= 0,
            n > 0,
    ;
    assert(from <= 0x1_0000_0000) by (nonlinear_arith)
        requires
            (from - 1) * n < b * 0x1_0000_0000,
            b <= n,
            n > 0,
    ;
    if b == 0 {
        assert(from == 0) by (nonlinear_arith)
            requires
                (from - 1) * n < 0,
                from >= 0,
                n > 0,
        ;
    }
    if b == n {
        assert(from == 0x1_0000_0000) by (nonlinear_arith)
            requires
                from * n >= n * 0x1_0000_0000,
                from <= 0x1_0000_0000,
                n > 0,
        ;
    }
    from
}

/// A low half reaches block `b` from the least one on.
proof fn lemma_picked(n: int, b: int, from: int, low: int)
    requires
        0 < n,
        0 <= low,
        from * n >= b * 0x1_0000_0000,
        (from - 1) * n < b * 0x1_0000_0000,
    ensures
        (low * n) / 0x1_0000_0000 >= b <==> low >= from,
{
    let x = low * n;
    if low >= from {
        assert(x >= from * n) by (nonlinear_arith)
            requires
                low >= from,
                n > 0,
                x == low * n,
        ;
    } else {
        assert(x <= (from - 1) * n) by (nonlinear_arith)
            requires
                low <= from - 1,
                n > 0,
                x == low * n,
        ;
    }
}

/// How many low halves lie between two steps.
proof fn lemma_shares(n: int, b: int, from: int, to: int)
    requires
        0 < n <= 0xFFFF_FFFF,
        from * n >= b * 0x1_0000_0000,
        (from - 1) * n < b * 0x1_0000_0000,
        to * n >= (b + 1) * 0x1_0000_0000,
        (to - 1) * n < (b + 1) * 0x1_0000_0000,
    ensures
        0x1_0000_0000int / n <= to - from <= 0x1_0000_0000int / n + 1,
        from < to,
{
    let w = 0x1_0000_0000int;
    let q = w / n;
    vstd::arithmetic::div_mod::lemma_fundamental_div_mod(w, n);
    vstd::arithmetic::div_mod::lemma_mod_bound(w, n);
    let d = to - from;
    assert(d * n == to * n - from * n) by (nonlinear_arith)
        requires
            d == to - from,
    ;
    assert((from - 1) * n == from * n - n) by (nonlinear_arith);
    assert((to - 1) * n == to * n - n) by (nonlinear_arith);
    assert(n * q == q * n) by (nonlinear_arith);
    assert(d > q - 1) by (nonlinear_arith)
        requires
            d * n > w - n,
            w >= q * n,
            n > 0,
    ;
    assert(d < q + 2) by (nonlinear_arith)
        requires
            d * n < w + n,
            w < q * n + n,
            n > 0,
    ;
    assert(q >= 1) by (nonlinear_arith)
        requires
            w == q * n + w % n,
            w % n < n,
            n <= 0xFFFF_FFFF,
            w == 0x1_0000_0000,
    ;
}

/// Law: the bits of a key lie in its block. The first is the high half of the
/// hash, and each one is as far behind the one before, round the block. How far is
/// mixed from the high half so that no two of them have the same step.
pub proof fn law_bits_are_spread(hash: u64, other: u64, i: int)
    requires
        0 <= i,
    ensures
        0 <= bit_of(hash, i) < 512,
        bit_of(hash, 0) == (hash / 0x1_0000_0000) % 512,
        (bit_of(hash, i + 1) - bit_of(hash, i) - (bit_of(hash, 1) - bit_of(hash, 0))) % 512 == 0,
        (bit_of(hash, 1) - bit_of(hash, 0) - stride((hash / 0x1_0000_0000) as u32)) % 512 == 0,
        stride((hash / 0x1_0000_0000) as u32) == stride((other / 0x1_0000_0000) as u32) ==> hash
            / 0x1_0000_0000 == other / 0x1_0000_0000,
{
    let (a, b) = ((hash / 0x1_0000_0000) as u32, (other / 0x1_0000_0000) as u32);
    let t = stride(a) as int;
    assert(bit_of(hash, 0) == (a as int) % 512) by {
        assert(0 * t == 0);
    }
    lemma_next_bit(hash, i);
    lemma_next_bit(hash, 0);
    lemma_same_step(
        bit_of(hash, i),
        bit_of(hash, i + 1),
        bit_of(hash, 0),
        bit_of(hash, 1),
        t,
    );
    lemma_stride_injective(a, b);
}

/// Two steps of the same width, round a block.
proof fn lemma_same_step(x: int, x1: int, y: int, y1: int, t: int)
    requires
        0 <= x < 512,
        0 <= y < 512,
        0 <= t,
        x1 == (x + t % 512) % 512,
        y1 == (y + t % 512) % 512,
    ensures
        (x1 - x - (y1 - y)) % 512 == 0,
        (y1 - y - t) % 512 == 0,
{
}

/// Multiplying by the inverse of a factor undoes multiplying by it.
proof fn lemma_undone(a: int, c: int, d: int, k: int)
    requires
        0 <= a < 0x1_0000_0000,
        c * d == k * 0x1_0000_0000 + 1,
    ensures
        (((a * c) % 0x1_0000_0000) * d) % 0x1_0000_0000 == a,
{
    let w = 0x1_0000_0000int;
    let x = a * c;
    let (q, y) = (x / w, x % w);
    let u = a * k - q * d;
    assert(y * d == w * u + a) by (nonlinear_arith)
        requires
            x == a * c,
            x == w * q + y,
            c * d == k * w + 1,
            u == a * k - q * d,
    ;
    vstd::arithmetic::div_mod::lemma_mod_multiples_vanish(u, a, w);
}

/// Steps differ where high halves do.
proof fn lemma_stride_injective(a: u32, b: u32)
    ensures
        stride(a) == stride(b) ==> a == b,
{
    let m = ((a * 0x9E37_79B9) % 0x1_0000_0000) as u32;
    let n = ((b * 0x9E37_79B9) % 0x1_0000_0000) as u32;
    let x = m ^ (m >> 16);
    let y = n ^ (n >> 16);
    lemma_undone(a as int, 0x9E37_79B9, 0x144C_BC89, 210485888);
    lemma_undone(b as int, 0x9E37_79B9, 0x144C_BC89, 210485888);
    lemma_undone(x as int, 0x85EB_CA6B, 0xA5CB_9243, 1455126516);
    lemma_undone(y as int, 0x85EB_CA6B, 0xA5CB_9243, 1455126516);
    assert((m ^ (m >> 16)) == (n ^ (n >> 16)) ==> m == n) by (bit_vector);
}

/// Law: a filter has the least number of blocks whose bits make up the budget of
/// the expected keys, and at least one. More keys never get fewer blocks. Where
/// that would be more than can be counted or held, it has as many as can.
pub proof fn law_blocks_make_up_the_budget(keys: usize, more: usize, bits_per_key: u8)
    requires
        keys <= more,
    ensures
        ({
            let n = blocks_for(keys, bits_per_key);
            let budget = (if keys == 0 {
                1int
            } else {
                keys as int
            }) * bits_per_key;
            &&& 1 <= n <= 0xFFFF_FFFF
            &&& n * 64 <= usize::MAX
            &&& n > 1 ==> (n - 1) * 512 < budget
            &&& n * 512 >= budget || n == 0xFFFF_FFFF || (n + 1) * 64 > usize::MAX
            &&& n <= blocks_for(more, bits_per_key)
        }),
{
    let a = if keys == 0 { 1int } else { keys as int };
    let b = if more == 0 { 1int } else { more as int };
    let bits = bits_per_key as int;
    assert(a * bits <= b * bits) by (nonlinear_arith)
        requires
            a <= b,
            bits >= 0,
    ;
    assert(a * bits >= 0) by (nonlinear_arith)
        requires
            a >= 0,
            bits >= 0,
    ;
}

/// Law: a filter never denies a key that was inserted, and never lets one pass
/// of which any bit was set by none of them.
pub proof fn law_filter_answers(f: FilterView, keys: Seq<Seq<u8>>, key: Seq<u8>, i: int)
    requires
        f.built_from(keys),
        0 <= i < f.params.num_hashes,
    ensures
        keys.contains(key) ==> f.holds(key),
        ({
            let hash = xxh3_64(key);
            let pos = block_of(hash, f.num_blocks) * 512 + bit_of(hash, i);
            (forall|k: int, j: int|
                0 <= k < keys.len() && 0 <= j < f.params.num_hashes ==> pos != #[trigger] f.key_bit(
                    keys[k],
                    j,
                )) ==> !f.holds(key)
        }),
{
    let hash = xxh3_64(key);
    let n = f.num_blocks;
    let pos = block_of(hash, n) * 512 + bit_of(hash, i);
    lemma_block_of(hash, n);
    assert forall|j: int| 0 <= j < f.params.num_hashes implies 0 <= #[trigger] f.key_bit(key, j)
        < f.blocks.len() * 8 by {
        lemma_next_bit(hash, j);
    }
    assert(f.key_bit(key, i) == pos);
    if keys.contains(key) {
        let k = choose|k: int| 0 <= k < keys.len() && keys[k] == key;
        assert forall|j: int| 0 <= j < f.params.num_hashes implies bit_set(
            f.blocks,
            #[trigger] f.key_bit(key, j),
        ) by {
            assert(f.is_key_bit(keys[k], f.key_bit(key, j)));
            assert(f.is_bit_of(keys, f.key_bit(key, j)));
        }
    }
    if forall|k: int, j: int|
        0 <= k < keys.len() && 0 <= j < f.params.num_hashes ==> pos != #[trigger] f.key_bit(
            keys[k],
            j,
        ) {
        assert(!f.is_bit_of(keys, pos));
        assert(!bit_set(f.blocks, f.key_bit(key, i)));
    }
}

/// Pick a block index in `0..num_blocks` from a 64-bit hash by multiply-shift
/// (no integer division).
pub fn pick_block(hash: u64, num_blocks: u32) -> (r: u32)
    ensures
        r == block_of(hash, num_blocks),
        num_blocks >= 1 ==> r < num_blocks,
{
    let low: u64 = hash % 0x1_0000_0000;
    proof {
        if num_blocks >= 1 {
            lemma_block_of(hash, num_blocks);
        }
        assert(low * num_blocks <= 0xFFFF_FFFF * 0xFFFF_FFFF) by (nonlinear_arith)
            requires
                low <= 0xFFFF_FFFF,
                num_blocks <= 0xFFFF_FFFF,
        ;
    }
    let product: u64 = low * num_blocks as u64;
    (product / 0x1_0000_0000) as u32
}

/// Compute the `k` in-block bit positions for `hash`.
fn bit_positions(hash: u64, k: u8) -> (v: Vec<u16>)
    ensures
        v@.len() == k,
        forall|i: int| 0 <= i < k ==> #[trigger] v@[i] == bit_of(hash, i),
{
    let high: u32 = (hash / 0x1_0000_0000) as u32;
    let m: u32 = ((high as u64 * 0x9E37_79B9) % 0x1_0000_0000) as u32;
    let x: u32 = m ^ (m >> 16);
    let step: u32 = ((x as u64 * 0x85EB_CA6B) % 0x1_0000_0000) as u32;
    assert(step == stride(high));
    let mut v: Vec<u16> = Vec::new();
    let mut at: u32 = high % BLOCK_BITS;
    let mut i: u8 = 0;
    assert(at == bit_of(hash, 0)) by {
        assert(0 * stride(high) == 0);
    }
    while i < k
        invariant
            i <= k,
            v@.len() == i,
            at == bit_of(hash, i as int),
            at < 512,
            step == stride((hash / 0x1_0000_0000) as u32),
            forall|j: int| 0 <= j < i ==> #[trigger] v@[j] == bit_of(hash, j),
        decreases k - i,
    {
        v.push(at as u16);
        proof {
            lemma_next_bit(hash, i as int);
        }
        at = (at + step % BLOCK_BITS) % BLOCK_BITS;
        i += 1;
    }
    v
}

/// Cache-line-blocked Bloom filter.
///
/// Construct via [`BlockedBloom::new`], populate with
/// [`insert`](Self::insert), then either query in memory with
/// [`contains`](Self::contains) or serialise with [`encode`](Self::encode).
pub struct BlockedBloom {
    blocks: Vec<u8>,
    num_blocks: u32,
    num_keys: u32,
    params: BloomParams,
}

impl View for BlockedBloom {
    type V = FilterView;

    closed spec fn view(&self) -> FilterView {
        FilterView {
            blocks: self.blocks@,
            num_blocks: self.num_blocks,
            num_keys: self.num_keys,
            params: self.params,
        }
    }
}

/// Setting the bits of a key makes the filter of one key more.
proof fn lemma_built_push(before: FilterView, after: FilterView, keys: Seq<Seq<u8>>, key: Seq<u8>)
    requires
        before.built_from(keys),
        after.params == before.params,
        after.num_blocks == before.num_blocks,
        after.blocks.len() == before.blocks.len(),
        after.num_keys == (if before.num_keys == u32::MAX {
            u32::MAX as int
        } else {
            before.num_keys + 1
        }),
        forall|p: int|
            0 <= p < before.blocks.len() * 8 ==> #[trigger] bit_set(after.blocks, p) == (bit_set(
                before.blocks,
                p,
            ) || before.is_key_bit(key, p)),
    ensures
        after.built_from(keys.push(key)),
{
    let more = keys.push(key);
    assert forall|k: Seq<u8>, p: int| #[trigger]
        after.is_key_bit(k, p) == before.is_key_bit(k, p) by {
        assert forall|i: int| #[trigger] after.key_bit(k, i) == before.key_bit(k, i) by {}
        if after.is_key_bit(k, p) {
            let i = choose|i: int|
                0 <= i < after.params.num_hashes && p == #[trigger] after.key_bit(k, i);
            assert(p == before.key_bit(k, i));
        }
        if before.is_key_bit(k, p) {
            let i = choose|i: int|
                0 <= i < before.params.num_hashes && p == #[trigger] before.key_bit(k, i);
            assert(p == after.key_bit(k, i));
        }
    }
    assert forall|p: int| 0 <= p < after.blocks.len() * 8 implies #[trigger] bit_set(
        after.blocks,
        p,
    ) == after.is_bit_of(more, p) by {
        if before.is_key_bit(key, p) {
            assert(after.is_key_bit(more[keys.len() as int], p));
        }
        if before.is_bit_of(keys, p) {
            let i = choose|i: int| 0 <= i < keys.len() && before.is_key_bit(#[trigger] keys[i], p);
            assert(after.is_key_bit(more[i], p));
        }
        if after.is_bit_of(more, p) {
            let i = choose|i: int| 0 <= i < more.len() && after.is_key_bit(#[trigger] more[i], p);
            if i < keys.len() {
                assert(before.is_key_bit(keys[i], p));
            }
        }
    }
}

impl BlockedBloom {
    /// Build an empty filter sized for `expected_keys` insertions.
    pub fn new(expected_keys: usize, params: BloomParams) -> (f: BlockedBloom)
        requires
            params.valid(),
        ensures
            f@.wf(),
            f@.params == params,
            f@.num_keys == 0,
            f@.num_blocks == blocks_for(expected_keys, params.bits_per_key),
            f@.blocks == Seq::new(f@.blocks.len(), |i: int| 0u8),
            f@.built_from(Seq::empty()),
            forall|key: Seq<u8>| !#[trigger] f@.holds(key),
    {
        let keys: u128 = if expected_keys == 0 { 1 } else { expected_keys as u128 };
        assert(keys * params.bits_per_key <= 0xFFFF_FFFF_FFFF_FFFF * 255) by (nonlinear_arith)
            requires
                keys <= 0xFFFF_FFFF_FFFF_FFFF,
                params.bits_per_key <= 255,
        ;
        let total_bits: u128 = keys * params.bits_per_key as u128;
        let wanted: u128 = (total_bits + 511) / 512;
        let limit: u32 = if usize::MAX / 64 < u32::MAX as usize {
            (usize::MAX / 64) as u32
        } else {
            u32::MAX
        };
        let num_blocks: u32 = if wanted < 1 {
            1
        } else if wanted > limit as u128 {
            limit
        } else {
            wanted as u32
        };
        let f = BlockedBloom {
            blocks: zeros(num_blocks as usize * BLOCK_BYTES),
            num_blocks,
            num_keys: 0,
            params,
        };
        proof {
            assert forall|key: Seq<u8>| !#[trigger] f@.holds(key) by {
                lemma_block_of(xxh3_64(key), num_blocks);
                let p = f@.key_bit(key, 0);
                assert(0u8 & (1u8 << ((p % 8) as u8)) == 0) by (bit_vector);
                assert(f@.blocks[p / 8] == 0);
                assert(!bit_set(f@.blocks, p));
            }
            assert forall|p: int| 0 <= p < f@.blocks.len() * 8 implies #[trigger] bit_set(
                f@.blocks,
                p,
            ) == f@.is_bit_of(Seq::empty(), p) by {
                assert(0u8 & (1u8 << ((p % 8) as u8)) == 0) by (bit_vector);
                assert(f@.blocks[p / 8] == 0);
            }
        }
        f
    }

    /// Number of insertions.
    pub fn num_keys(&self) -> (n: u32)
        ensures
            n == self@.num_keys,
    {
        self.num_keys
    }

    /// Number of 64-byte blocks in the filter.
    pub fn num_blocks(&self) -> (n: u32)
        ensures
            n == self@.num_blocks,
    {
        self.num_blocks
    }

    /// Tunable parameters this filter was built with.
    pub fn params(&self) -> (p: BloomParams)
        ensures
            p == self@.params,
    {
        self.params
    }

    /// Total bytes the in-memory filter occupies (excluding the persisted
    /// header).
    pub fn byte_size(&self) -> (n: usize)
        requires
            self@.wf(),
        ensures
            n == self@.num_blocks * BLOCK_BYTES,
    {
        assert(self.blocks.len() == self@.blocks.len());
        self.num_blocks as usize * BLOCK_BYTES
    }

    /// Insert `key` into the filter.
    pub fn insert(&mut self, key: &[u8])
        requires
            old(self)@.wf(),
        ensures
            final(self)@.wf(),
            final(self)@.params == old(self)@.params,
            final(self)@.num_blocks == old(self)@.num_blocks,
            final(self)@.num_keys == (if old(self)@.num_keys == u32::MAX {
                u32::MAX as int
            } else {
                old(self)@.num_keys + 1
            }),
            forall|p: int|
                0 <= p < old(self)@.blocks.len() * 8 ==> #[trigger] bit_set(
                    final(self)@.blocks,
                    p,
                ) == (bit_set(old(self)@.blocks, p) || old(self)@.is_key_bit(key@, p)),
            final(self)@.holds(key@),
            forall|keys: Seq<Seq<u8>>| #[trigger]
                old(self)@.built_from(keys) ==> final(self)@.built_from(keys.push(key@)),
            forall|other: Seq<u8>|
                old(self)@.holds(other) ==> #[trigger] final(self)@.holds(other),
    {
        let hash: u64 = xxh3::hash(key);
        let block: u32 = pick_block(hash, self.num_blocks);
        let k: u8 = self.params.num_hashes;
        let positions = bit_positions(hash, k);
        let ghost before = self@;
        let total: usize = self.blocks.len();
        let mut i: u8 = 0;
        while i < k
            invariant
                i <= k,
                k == before.params.num_hashes,
                positions@.len() == k,
                before.wf(),
                total == before.blocks.len(),
                hash == xxh3_64(key@),
                block == block_of(hash, before.num_blocks),
                block < before.num_blocks,
                self@.num_blocks == before.num_blocks,
                self@.params == before.params,
                self@.num_keys == before.num_keys,
                self.blocks@.len() == before.blocks.len(),
                forall|j: int| 0 <= j < k ==> #[trigger] positions@[j] == bit_of(hash, j),
                forall|p: int|
                    0 <= p < before.blocks.len() * 8 ==> #[trigger] bit_set(self.blocks@, p) == (
                    bit_set(before.blocks, p) || exists|j: int|
                        0 <= j < i && p == #[trigger] before.key_bit(key@, j)),
            decreases k - i,
        {
            let pos: u16 = positions[i as usize];
            let ghost whole = before.key_bit(key@, i as int);
            let ghost blocks = self.blocks@;
            let at: usize = block as usize * BLOCK_BYTES + (pos / 8) as usize;
            let bit: u8 = (pos % 8) as u8;
            proof {
                assert(whole == block * 512 + pos);
                assert(whole / 8 == at);
                assert(whole % 8 == bit);
                lemma_set_bit(blocks, whole);
            }
            let value: u8 = self.blocks[at] | (1u8 << bit);
            self.blocks.set(at, value);
            proof {
                assert forall|p: int| 0 <= p < before.blocks.len() * 8 implies #[trigger] bit_set(
                    self.blocks@,
                    p,
                ) == (bit_set(before.blocks, p) || exists|j: int|
                    0 <= j < i + 1 && p == #[trigger] before.key_bit(key@, j)) by {
                    if p == whole {
                        assert(p == before.key_bit(key@, i as int));
                    }
                }
            }
            i += 1;
        }
        self.num_keys = self.num_keys.saturating_add(1);
        proof {
            assert forall|keys: Seq<Seq<u8>>| #[trigger]
                before.built_from(keys) implies self@.built_from(keys.push(key@)) by {
                lemma_built_push(before, self@, keys, key@);
            }
        }
        proof {
            assert forall|j: int| 0 <= j < self@.params.num_hashes implies bit_set(
                self@.blocks,
                #[trigger] self@.key_bit(key@, j),
            ) by {
                lemma_block_of(hash, before.num_blocks);
                assert(self@.key_bit(key@, j) == before.key_bit(key@, j));
            }
            assert forall|other: Seq<u8>| before.holds(other) implies #[trigger] self@.holds(
                other,
            ) by {
                law_more_bits_keep_answers(before, self@, other);
            }
        }
    }

    /// `true` if `key` was ever inserted (or occasionally even if it wasn't).
    /// `false` is a definitive miss.
    pub fn contains(&self, key: &[u8]) -> (r: bool)
        requires
            self@.wf(),
        ensures
            r == self@.holds(key@),
    {
        let hash: u64 = xxh3::hash(key);
        let block: u32 = pick_block(hash, self.num_blocks);
        let total: usize = self.blocks.len();
        self.probe(block, hash, Ghost(key@))
    }

    /// Test every bit of a hash in its block.
    fn probe(&self, block: u32, hash: u64, key: Ghost<Seq<u8>>) -> (r: bool)
        requires
            self@.wf(),
            hash == xxh3_64(key@),
            block == block_of(hash, self@.num_blocks),
            block < self@.num_blocks,
        ensures
            r == self@.holds(key@),
    {
        let k: u8 = self.params.num_hashes;
        let positions = bit_positions(hash, k);
        let total: usize = self.blocks.len();
        let mut i: u8 = 0;
        while i < k
            invariant
                i <= k,
                k == self@.params.num_hashes,
                positions@.len() == k,
                self@.wf(),
                total == self@.blocks.len(),
                hash == xxh3_64(key@),
                block == block_of(hash, self@.num_blocks),
                block < self@.num_blocks,
                forall|j: int| 0 <= j < k ==> #[trigger] positions@[j] == bit_of(hash, j),
                forall|j: int|
                    0 <= j < i ==> bit_set(self@.blocks, #[trigger] self@.key_bit(key@, j)),
            decreases k - i,
        {
            let pos: u16 = positions[i as usize];
            let ghost whole = self@.key_bit(key@, i as int);
            let at: usize = block as usize * BLOCK_BYTES + (pos / 8) as usize;
            let bit: u8 = (pos % 8) as u8;
            proof {
                assert(whole == block * 512 + pos);
                assert(whole / 8 == at);
                assert(whole % 8 == bit);
            }
            if self.blocks[at] & (1u8 << bit) == 0 {
                assert(!bit_set(self@.blocks, whole));
                return false;
            }
            i += 1;
        }
        true
    }

    /// Serialise the filter to a 16-byte header followed by the raw block
    /// bytes.
    pub fn encode(&self) -> (out: Vec<u8>)
        ensures
            out@ == self@.encoded(),
    {
        let mut out: Vec<u8> = Vec::new();
        push_u32(&mut out, FILTER_MAGIC);
        assert(out@ =~= u32_le(FILTER_MAGIC));
        let ghost part = out@;
        out.push(FILTER_VERSION);
        out.push(self.params.num_hashes);
        out.push(self.params.bits_per_key);
        out.push(0);
        assert(out@ =~= part + seq![
            FILTER_VERSION,
            self.params.num_hashes,
            self.params.bits_per_key,
            0u8,
        ]);
        push_u32(&mut out, self.num_blocks);
        push_u32(&mut out, self.num_keys);
        push_bytes(&mut out, self.blocks.as_slice());
        out
    }

    /// Reconstruct a filter from the bytes produced by
    /// [`encode`](Self::encode).
    pub fn decode(bytes: &[u8]) -> (r: Result<BlockedBloom>)
        ensures
            match parse_filter(bytes@) {
                Ok(f) => r matches Ok(b) && b@ == f && b@.wf(),
                Err(e) => r matches Err(x) && x@ == e,
            },
    {
        if bytes.len() < HEADER_SIZE {
            return Err(Error::invalid_format_static("bloom filter", "shorter than header"));
        }
        if read_u32(bytes, 0) != FILTER_MAGIC {
            return Err(Error::invalid_format_static("bloom filter", "wrong magic"));
        }
        let version: u8 = bytes[4];
        if version != FILTER_VERSION {
            let mut reason: String = "unsupported version ".to_owned();
            reason.append(decimal_string(version as u64).as_str());
            return Err(Error::InvalidFormat { context: "bloom filter", reason });
        }
        let num_hashes: u8 = bytes[5];
        let bits_per_key: u8 = bytes[6];
        let num_blocks: u32 = read_u32(bytes, 8);
        let num_keys: u32 = read_u32(bytes, 12);
        if num_hashes == 0 || num_hashes > 16 {
            let mut reason: String = "num_hashes out of range: ".to_owned();
            reason.append(decimal_string(num_hashes as u64).as_str());
            return Err(Error::InvalidFormat { context: "bloom filter", reason });
        }
        if num_blocks == 0 {
            return Err(Error::invalid_format_static("bloom filter", "num_blocks must be >= 1"));
        }
        let expected: u64 = num_blocks as u64 * BLOCK_BYTES as u64;
        if bytes.len() as u64 != HEADER_SIZE as u64 + expected {
            let mut reason: String = "payload length ".to_owned();
            reason.append(decimal_string((bytes.len() - HEADER_SIZE) as u64).as_str());
            reason.append(" does not match num_blocks=");
            reason.append(decimal_string(num_blocks as u64).as_str());
            reason.append(" (expected ");
            reason.append(decimal_string(expected).as_str());
            reason.append(")");
            return Err(Error::InvalidFormat { context: "bloom filter", reason });
        }
        let blocks: Vec<u8> = slice_to_vec(slice_subrange(bytes, HEADER_SIZE, bytes.len()));
        Ok(
            BlockedBloom {
                blocks,
                num_blocks,
                num_keys,
                params: BloomParams { num_hashes, bits_per_key },
            },
        )
    }
}

} // verus!
