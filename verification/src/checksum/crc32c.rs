//! CRC32C (Castagnoli), from the `crc32c` crate.
//!
//! Results stored on disk are unsigned 32-bit little-endian. The initial
//! value is `0`.
use vstd::prelude::*;

verus! {

/// The Castagnoli polynomial, its bits in reversed order.
pub const POLYNOMIAL: u32 = 0x82F6_3B78;

/// The remainder after `bits` more bits of the message.
pub open spec fn divided(remainder: u32, bits: nat) -> u32
    decreases bits,
{
    if bits == 0 {
        remainder
    } else if remainder % 2 == 0 {
        divided(remainder / 2, (bits - 1) as nat)
    } else {
        divided((remainder / 2) ^ POLYNOMIAL, (bits - 1) as nat)
    }
}

/// The remainder after the bytes of `data`, eight bits each.
pub open spec fn divided_over(remainder: u32, data: Seq<u8>) -> u32
    decreases data.len(),
{
    if data.len() == 0 {
        remainder
    } else {
        divided(divided_over(remainder, data.drop_last()) ^ (data.last() as u32), 8)
    }
}

/// The checksum that follows `previous` over `data`. A checksum is a remainder
/// with every bit flipped.
pub open spec fn crc32c_appended(previous: u32, data: Seq<u8>) -> u32 {
    !divided_over(!previous, data)
}

/// The CRC32C of `data`.
pub open spec fn crc32c(data: Seq<u8>) -> u32 {
    crc32c_appended(0, data)
}

/// The remainder over two runs of bytes.
proof fn lemma_divided_over(remainder: u32, front: Seq<u8>, back: Seq<u8>)
    ensures
        divided_over(remainder, front + back) == divided_over(
            divided_over(remainder, front),
            back,
        ),
    decreases back.len(),
{
    if back.len() == 0 {
        assert(front + back =~= front);
    } else {
        lemma_divided_over(remainder, front, back.drop_last());
        assert((front + back).drop_last() =~= front + back.drop_last());
        assert((front + back).last() == back.last());
    }
}

/// Law: no data leaves a checksum as it is, and continuing from the checksum of
/// some bytes gives the checksum of those bytes followed by the data.
pub proof fn law_appended(previous: u32, front: Seq<u8>, back: Seq<u8>)
    ensures
        crc32c_appended(previous, Seq::empty()) == previous,
        crc32c_appended(crc32c_appended(previous, front), back) == crc32c_appended(
            previous,
            front + back,
        ),
{
    let remainder = divided_over(!previous, front);
    lemma_divided_over(!previous, front, back);
    assert(!(!previous) == previous) by (bit_vector);
    assert(!(!remainder) == remainder) by (bit_vector);
}

/// `a` and `b` are the same bytes but for the one at `p`.
pub open spec fn one_byte_off(a: Seq<u8>, b: Seq<u8>, p: int) -> bool {
    &&& a.len() == b.len()
    &&& 0 <= p < a.len()
    &&& a[p] != b[p]
    &&& forall|i: int| 0 <= i < a.len() && i != p ==> #[trigger] a[i] == b[i]
}

/// Different remainders stay different.
proof fn lemma_divided_injective(a: u32, b: u32, bits: nat)
    requires
        a != b,
    ensures
        divided(a, bits) != divided(b, bits),
    decreases bits,
{
    if bits > 0 {
        let x = if a % 2 == 0 { a / 2 } else { (a / 2) ^ POLYNOMIAL };
        let y = if b % 2 == 0 { b / 2 } else { (b / 2) ^ POLYNOMIAL };
        assert(x != y) by {
            assert((if a % 2 == 0 { a / 2 } else { (a / 2) ^ 0x82F6_3B78 }) != (if b % 2 == 0 {
                b / 2
            } else {
                (b / 2) ^ 0x82F6_3B78
            })) by (bit_vector)
                requires
                    a != b,
            ;
        }
        lemma_divided_injective(x, y, (bits - 1) as nat);
    }
}

/// Different remainders stay different over the same bytes.
proof fn lemma_divided_over_injective(a: u32, b: u32, data: Seq<u8>)
    requires
        a != b,
    ensures
        divided_over(a, data) != divided_over(b, data),
    decreases data.len(),
{
    if data.len() > 0 {
        lemma_divided_over_injective(a, b, data.drop_last());
        let x = divided_over(a, data.drop_last());
        let y = divided_over(b, data.drop_last());
        let d = data.last() as u32;
        assert((x ^ d) != (y ^ d)) by (bit_vector)
            requires
                x != y,
        ;
        lemma_divided_injective(x ^ d, y ^ d, 8);
    }
}

/// Law: damage to one byte, wherever it lies and whatever became of it, changes
/// the checksum.
pub proof fn law_one_byte_is_noticed(a: Seq<u8>, b: Seq<u8>, p: int)
    requires
        one_byte_off(a, b, p),
    ensures
        crc32c(a) != crc32c(b),
{
    let n = a.len() as int;
    let front = a.subrange(0, p);
    let back = a.subrange(p + 1, n);
    let start = !0u32;
    let x = divided_over(start, front);
    let (s, t) = (a[p] as u32, b[p] as u32);
    assert(a =~= front + (seq![a[p]] + back));
    assert(b =~= front + (seq![b[p]] + back));
    lemma_divided_over(start, front, seq![a[p]] + back);
    lemma_divided_over(start, front, seq![b[p]] + back);
    lemma_divided_over(x, seq![a[p]], back);
    lemma_divided_over(x, seq![b[p]], back);
    reveal_with_fuel(divided_over, 2);
    assert(seq![a[p]].drop_last() =~= Seq::<u8>::empty());
    assert(seq![b[p]].drop_last() =~= Seq::<u8>::empty());
    assert(divided_over(x, seq![a[p]]) == divided(x ^ s, 8));
    assert(divided_over(x, seq![b[p]]) == divided(x ^ t, 8));
    assert((x ^ s) != (x ^ t)) by (bit_vector)
        requires
            s != t,
    ;
    lemma_divided_injective(x ^ s, x ^ t, 8);
    let (u, v) = (divided(x ^ s, 8), divided(x ^ t, 8));
    lemma_divided_over_injective(u, v, back);
    let (f, g) = (divided_over(u, back), divided_over(v, back));
    assert(!f != !g) by (bit_vector)
        requires
            f != g,
    ;
}

/// Calls `crc32c::crc32c_append`. Claimed of it: it computes the checksum of
/// the Castagnoli polynomial over the data, from a previous one.
#[verifier::external_body]
fn append_crc(previous: u32, data: &[u8]) -> (r: u32)
    ensures
        r == crc32c_appended(previous, data@),
{
    ::crc32c::crc32c_append(previous, data)
}

/// Calls `crc32c::crc32c`. Claimed of it: it is `crc32c_append` from a previous
/// checksum of zero.
#[verifier::external_body]
fn oneshot_crc(data: &[u8]) -> (r: u32)
    ensures
        r == crc32c_appended(0, data@),
{
    ::crc32c::crc32c(data)
}

/// One-shot CRC32C of `data`.
pub fn hash(data: &[u8]) -> (r: u32)
    ensures
        r == crc32c(data@),
{
    oneshot_crc(data)
}

/// Streaming CRC32C hasher. Its view is the data it has been fed.
pub struct Hasher {
    state: u32,
    fed: Ghost<Seq<u8>>,
}

impl View for Hasher {
    type V = Seq<u8>;

    closed spec fn view(&self) -> Seq<u8> {
        self.fed@
    }
}

impl Hasher {
    #[verifier::type_invariant]
    spec fn in_step(&self) -> bool {
        self.state == crc32c(self.fed@)
    }

    /// Create a new hasher initialised to zero.
    pub fn new() -> (h: Hasher)
        ensures
            h@ == Seq::<u8>::empty(),
    {
        proof {
            law_appended(0, Seq::empty(), Seq::empty());
        }
        Hasher { state: 0, fed: Ghost(Seq::empty()) }
    }

    /// Continue the running checksum over `data`.
    pub fn update(&mut self, data: &[u8])
        ensures
            final(self)@ == old(self)@ + data@,
    {
        proof {
            use_type_invariant(&*self);
            law_appended(0, self.fed@, data@);
        }
        let next: u32 = append_crc(self.state, data);
        let ghost fed = self.fed@ + data@;
        *self = Hasher { state: next, fed: Ghost(fed) };
    }

    /// Consume the hasher and return the final digest.
    pub fn finalize(self) -> (r: u32)
        ensures
            r == crc32c(self@),
    {
        proof {
            use_type_invariant(&self);
        }
        self.state
    }

    /// Borrow-only finalize for callers that want to keep the hasher alive.
    pub fn state(&self) -> (r: u32)
        ensures
            r == crc32c(self@),
    {
        proof {
            use_type_invariant(self);
        }
        self.state
    }
}

impl Default for Hasher {
    fn default() -> (h: Hasher)
        ensures
            h@ == Seq::<u8>::empty(),
    {
        Hasher::new()
    }
}

impl Clone for Hasher {
    fn clone(&self) -> (h: Hasher)
        ensures
            h@ == self@,
    {
        proof {
            use_type_invariant(self);
        }
        Hasher { state: self.state, fed: self.fed }
    }
}

} // verus!
