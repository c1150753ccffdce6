//! XXH3-64, from the `xxhash-rust` crate.
use vstd::prelude::*;

use xxhash_rust::xxh3::Xxh3;

verus! {

/// The streaming state of the `xxhash-rust` crate.
#[verifier::external_type_specification]
#[verifier::external_body]
pub struct ExXxh3(Xxh3);

/// What `xxhash_rust::xxh3::xxh3_64` returns for `data`.
pub uninterp spec fn xxh3_64(data: Seq<u8>) -> u64;

/// The bytes that a streaming state holds: all it has been fed, in order.
pub uninterp spec fn xxh3_fed(state: Xxh3) -> Seq<u8>;

/// Calls `xxhash_rust::xxh3::xxh3_64`. Claimed of it: it is a function of the
/// data.
#[verifier::external_body]
fn oneshot_xxh3(data: &[u8]) -> (r: u64)
    ensures
        r == xxh3_64(data@),
{
    xxhash_rust::xxh3::xxh3_64(data)
}

/// Calls `Xxh3::new`. Claimed of it: the state has been fed nothing.
#[verifier::external_body]
fn fresh_xxh3() -> (state: Xxh3)
    ensures
        xxh3_fed(state) == Seq::<u8>::empty(),
{
    Xxh3::new()
}

/// Calls `Xxh3::update`. Claimed of it: the data follows what the state has
/// been fed before.
#[verifier::external_body]
fn feed_xxh3(state: &mut Xxh3, data: &[u8])
    ensures
        xxh3_fed(*final(state)) == xxh3_fed(*old(state)) + data@,
{
    state.update(data)
}

/// Calls `Xxh3::digest`. Claimed of it: the digest is the one-shot hash of
/// all the bytes fed.
#[verifier::external_body]
fn digest_xxh3(state: &Xxh3) -> (r: u64)
    ensures
        r == xxh3_64(xxh3_fed(*state)),
{
    state.digest()
}

/// One-shot XXH3-64 of `data`.
pub fn hash(data: &[u8]) -> (r: u64)
    ensures
        r == xxh3_64(data@),
{
    oneshot_xxh3(data)
}

/// Streaming XXH3-64 hasher. Its view is the data it has been fed.
pub struct Hasher {
    state: Xxh3,
}

impl View for Hasher {
    type V = Seq<u8>;

    closed spec fn view(&self) -> Seq<u8> {
        xxh3_fed(self.state)
    }
}

impl Hasher {
    /// Create a new hasher with the default seed.
    pub fn new() -> (h: Hasher)
        ensures
            h@ == Seq::<u8>::empty(),
    {
        Hasher { state: fresh_xxh3() }
    }

    /// Continue the running checksum over `data`.
    pub fn update(&mut self, data: &[u8])
        ensures
            final(self)@ == old(self)@ + data@,
    {
        feed_xxh3(&mut self.state, data);
    }

    /// Return the digest without consuming the hasher.
    pub fn digest(&self) -> (r: u64)
        ensures
            r == xxh3_64(self@),
    {
        digest_xxh3(&self.state)
    }

    /// Consume the hasher and return the final digest.
    pub fn finalize(self) -> (r: u64)
        ensures
            r == xxh3_64(self@),
    {
        digest_xxh3(&self.state)
    }
}

impl Default for Hasher {
    fn default() -> (h: Hasher)
        ensures
            h@ == Seq::<u8>::empty(),
    {
        Hasher::new()
    }
}

} // verus!
