//! Fixed-width little-endian integers, and small helpers on byte vectors.
use vstd::prelude::*;

verus! {

/// The two little-endian bytes of `x`.
pub open spec fn u16_le(x: u16) -> Seq<u8> {
    seq![(x % 256) as u8, (x / 256) as u8]
}

/// The four little-endian bytes of `x`.
pub open spec fn u32_le(x: u32) -> Seq<u8> {
    seq![
        (x % 256) as u8,
        ((x / 256) % 256) as u8,
        ((x / 65536) % 256) as u8,
        (x / 16777216) as u8,
    ]
}

/// The eight little-endian bytes of `x`.
pub open spec fn u64_le(x: u64) -> Seq<u8> {
    u32_le((x % 4294967296) as u32) + u32_le((x / 4294967296) as u32)
}

/// The number whose little-endian bytes are the first two of `s`.
pub open spec fn u16_from(s: Seq<u8>) -> u16 {
    (s[0] + 256 * s[1]) as u16
}

/// The number whose little-endian bytes are the first four of `s`.
pub open spec fn u32_from(s: Seq<u8>) -> u32 {
    (s[0] + 256 * s[1] + 65536 * s[2] + 16777216 * s[3]) as u32
}

/// The number whose little-endian bytes are the first eight of `s`.
pub open spec fn u64_from(s: Seq<u8>) -> u64 {
    (u32_from(s.subrange(0, 4)) + 4294967296 * u32_from(s.subrange(4, 8))) as u64
}

/// Reading back the bytes of a `u16` gives the number.
pub proof fn lemma_u16_round_trip(x: u16)
    ensures
        u16_le(x).len() == 2,
        u16_from(u16_le(x)) == x,
{
}

/// Reading back the bytes of a `u32` gives the number.
pub proof fn lemma_u32_round_trip(x: u32)
    ensures
        u32_le(x).len() == 4,
        u32_from(u32_le(x)) == x,
{
}

/// Reading back the bytes of a `u64` gives the number.
pub proof fn lemma_u64_round_trip(x: u64)
    ensures
        u64_le(x).len() == 8,
        u64_from(u64_le(x)) == x,
{
    let lo = (x % 4294967296) as u32;
    let hi = (x / 4294967296) as u32;
    lemma_u32_round_trip(lo);
    lemma_u32_round_trip(hi);
    assert(u64_le(x).subrange(0, 4) =~= u32_le(lo));
    assert(u64_le(x).subrange(4, 8) =~= u32_le(hi));
}

/// Law: the low byte comes first, and each byte is worth 256 times the one before
/// it.
pub proof fn law_low_byte_first(a: u16, b: u32, c: u64)
    ensures
        a == u16_le(a)[0] + 256 * u16_le(a)[1],
        b == u32_le(b)[0] + 256 * u32_le(b)[1] + 65536 * u32_le(b)[2] + 16777216 * u32_le(b)[3],
        c == u64_le(c)[0] + 256 * u64_le(c)[1] + 65536 * u64_le(c)[2] + 16777216 * u64_le(c)[3]
            + 0x1_0000_0000 * u64_le(c)[4] + 0x100_0000_0000 * u64_le(c)[5] + 0x1_0000_0000_0000
            * u64_le(c)[6] + 0x100_0000_0000_0000 * u64_le(c)[7],
{
    let lo = (c % 4294967296) as u32;
    let hi = (c / 4294967296) as u32;
    lemma_u32_round_trip(b);
    lemma_u32_round_trip(lo);
    lemma_u32_round_trip(hi);
    assert(c == lo + 4294967296 * hi);
    assert(lo == u64_le(c)[0] + 256 * u64_le(c)[1] + 65536 * u64_le(c)[2] + 16777216
        * u64_le(c)[3]);
    assert(hi == u64_le(c)[4] + 256 * u64_le(c)[5] + 65536 * u64_le(c)[6] + 16777216
        * u64_le(c)[7]);
}

/// The bytes of the number that four bytes hold are those bytes.
pub proof fn lemma_u32_bytes(s: Seq<u8>)
    requires
        s.len() == 4,
    ensures
        u32_le(u32_from(s)) == s,
{
    let (a, b, c, d) = (s[0] as int, s[1] as int, s[2] as int, s[3] as int);
    let x = a + 256 * b + 65536 * c + 16777216 * d;
    assert(u32_from(s) == x);
    assert(x % 256 == a);
    assert(x / 256 == b + 256 * c + 65536 * d);
    assert((x / 256) % 256 == b);
    assert(x / 65536 == c + 256 * d);
    assert((x / 65536) % 256 == c);
    assert(x / 16777216 == d);
    assert(u32_le(u32_from(s)) =~= s);
}

/// The bytes of the number that eight bytes hold are those bytes.
pub proof fn lemma_u64_bytes(s: Seq<u8>)
    requires
        s.len() == 8,
    ensures
        u64_le(u64_from(s)) == s,
{
    let lo = s.subrange(0, 4);
    let hi = s.subrange(4, 8);
    lemma_u32_bytes(lo);
    lemma_u32_bytes(hi);
    let x = u64_from(s);
    assert(x % 4294967296 == u32_from(lo));
    assert(x / 4294967296 == u32_from(hi));
    assert(u64_le(x) =~= s);
}

/// Two neighbouring parts make up the part from the start of one to the end of the
/// other.
pub proof fn lemma_join_parts(s: Seq<u8>, i: int, j: int, k: int)
    requires
        0 <= i <= j <= k <= s.len(),
    ensures
        s.subrange(i, j) + s.subrange(j, k) == s.subrange(i, k),
{
    assert(s.subrange(i, j) + s.subrange(j, k) =~= s.subrange(i, k));
}

/// Four bytes hold a number where they are its bytes.
pub proof fn lemma_u32_holds(s: Seq<u8>, x: u32)
    requires
        s.len() == 4,
    ensures
        u32_from(s) == x <==> s == u32_le(x),
{
    lemma_u32_bytes(s);
    lemma_u32_round_trip(x);
}

/// Eight bytes hold a number where they are its bytes.
pub proof fn lemma_u64_holds(s: Seq<u8>, x: u64)
    requires
        s.len() == 8,
    ensures
        u64_from(s) == x <==> s == u64_le(x),
{
    lemma_u64_bytes(s);
    lemma_u64_round_trip(x);
}

/// In `x + y`, the front is `x` and the back is `y`.
pub proof fn lemma_concat_parts(x: Seq<u8>, y: Seq<u8>)
    ensures
        (x + y).len() == x.len() + y.len(),
        forall|i: int, j: int|
            0 <= i <= j <= x.len() ==> #[trigger] (x + y).subrange(i, j) == x.subrange(i, j),
        (x + y).subrange(x.len() as int, (x.len() + y.len()) as int) == y,
{
    assert forall|i: int, j: int| 0 <= i <= j <= x.len() implies #[trigger] (x + y).subrange(i, j)
        == x.subrange(i, j) by {
        assert((x + y).subrange(i, j) =~= x.subrange(i, j));
    }
    assert((x + y).subrange(x.len() as int, (x.len() + y.len()) as int) =~= y);
}

/// Two numbers with the same eight bytes are equal.
pub proof fn lemma_u64_le_injective(x: u64, y: u64)
    requires
        u64_le(x) == u64_le(y),
    ensures
        x == y,
{
    lemma_u64_round_trip(x);
    lemma_u64_round_trip(y);
}

/// Append `s` to `v`.
pub fn push_bytes(v: &mut Vec<u8>, s: &[u8])
    ensures
        final(v)@ == old(v)@ + s@,
{
    v.extend_from_slice(s);
    assert(v@ =~= old(v)@ + s@);
}

/// Append the little-endian bytes of `x`.
pub fn push_u16(v: &mut Vec<u8>, x: u16)
    ensures
        final(v)@ == old(v)@ + u16_le(x),
{
    v.push((x % 256) as u8);
    v.push((x / 256) as u8);
    assert(v@ =~= old(v)@ + u16_le(x));
}

/// Append the little-endian bytes of `x`.
pub fn push_u32(v: &mut Vec<u8>, x: u32)
    ensures
        final(v)@ == old(v)@ + u32_le(x),
{
    v.push((x % 256) as u8);
    v.push(((x / 256) % 256) as u8);
    v.push(((x / 65536) % 256) as u8);
    v.push((x / 16777216) as u8);
    assert(v@ =~= old(v)@ + u32_le(x));
}

/// Append the little-endian bytes of `x`.
pub fn push_u64(v: &mut Vec<u8>, x: u64)
    ensures
        final(v)@ == old(v)@ + u64_le(x),
{
    push_u32(v, (x % 4294967296) as u32);
    push_u32(v, (x / 4294967296) as u32);
    assert(v@ =~= old(v)@ + u64_le(x));
}

/// Read a little-endian `u16` at `at`.
pub fn read_u16(s: &[u8], at: usize) -> (x: u16)
    requires
        at + 2 <= s@.len(),
    ensures
        x == u16_from(s@.subrange(at as int, at + 2)),
{
    s[at] as u16 + 256 * (s[at + 1] as u16)
}

/// Read a little-endian `u32` at `at`.
pub fn read_u32(s: &[u8], at: usize) -> (x: u32)
    requires
        at + 4 <= s@.len(),
    ensures
        x == u32_from(s@.subrange(at as int, at + 4)),
{
    s[at] as u32 + 256 * (s[at + 1] as u32) + 65536 * (s[at + 2] as u32) + 16777216 * (s[at
        + 3] as u32)
}

/// Read a little-endian `u64` at `at`.
pub fn read_u64(s: &[u8], at: usize) -> (x: u64)
    requires
        at + 8 <= s@.len(),
    ensures
        x == u64_from(s@.subrange(at as int, at + 8)),
{
    assert(s.len() == s@.len());
    let lo: u32 = read_u32(s, at);
    let hi: u32 = read_u32(s, at + 4);
    proof {
        let w = s@.subrange(at as int, at + 8);
        assert(w.subrange(0, 4) =~= s@.subrange(at as int, at + 4));
        assert(w.subrange(4, 8) =~= s@.subrange(at + 4, at + 8));
    }
    lo as u64 + 4294967296 * (hi as u64)
}

/// A vector of `n` zero bytes.
pub fn zeros(n: usize) -> (v: Vec<u8>)
    ensures
        v@ == Seq::new(n as nat, |i: int| 0u8),
{
    let v: Vec<u8> = vec![0u8; n];
    assert(v@ =~= Seq::new(n as nat, |i: int| 0u8));
    v
}

} // verus!
