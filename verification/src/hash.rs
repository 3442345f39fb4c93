//! The streaming hash engine.
//!
//! A file's digest is the 128-bit XXH3 hash of its full byte stream, a
//! function of those bytes alone: no path, size or timestamp enters it.
//! The engine is incremental: bytes are fed in chunks of at most 32 KiB,
//! and the digest of everything fed so far can be taken at any point, so
//! memory stays constant whatever the file size.
//!
//! The hash itself comes from the `xxhash_rust` crate; the library names
//! the bytes a hasher has absorbed [`hasher_bytes`] and the digest of a
//! byte sequence [`xxh3_128_of`], and proves the chunking around them.

use vstd::prelude::*;
use vstd::slice::slice_subrange;
use xxhash_rust::xxh3::Xxh3;

verus! {

/// The number of bytes fed to the hasher at a time.
pub const CHUNK_SIZE: usize = 32768;

/// The 128-bit XXH3 digest of a byte sequence (default seed and secret).
pub uninterp spec fn xxh3_128_of(bytes: Seq<u8>) -> u128;

#[verifier::external_type_specification]
#[verifier::external_body]
pub struct ExXxh3(Xxh3);

/// The bytes an incremental hasher has absorbed so far.
pub uninterp spec fn hasher_bytes(h: Xxh3) -> Seq<u8>;

/// Relies on xxhash_rust::xxh3::Xxh3::new: a fresh hasher with the default
/// seed and secret, over no bytes yet.
#[verifier::external_body]
fn xxh3_new() -> (h: Xxh3)
    ensures
        hasher_bytes(h) == Seq::<u8>::empty(),
{
    Xxh3::new()
}

/// Relies on xxhash_rust::xxh3::Xxh3::update: feeds the next chunk of the
/// stream into the accumulator.
#[verifier::external_body]
fn xxh3_update(h: &mut Xxh3, chunk: &[u8])
    ensures
        hasher_bytes(*final(h)) == hasher_bytes(*old(h)) + chunk@,
{
    h.update(chunk);
}

/// Relies on xxhash_rust::xxh3::Xxh3::digest128: the 128-bit XXH3 digest
/// of exactly the bytes absorbed so far, a function of those bytes alone
/// for a hasher built with the default seed and secret.
#[verifier::external_body]
fn xxh3_digest128(h: &Xxh3) -> (d: u128)
    ensures
        d == xxh3_128_of(hasher_bytes(*h)),
{
    h.digest128()
}

/// An incremental 128-bit hasher over a growing byte stream.
pub struct HashEngine {
    inner: Xxh3,
}

impl HashEngine {
    /// The bytes fed to the engine so far.
    pub closed spec fn bytes(&self) -> Seq<u8> {
        hasher_bytes(self.inner)
    }

    /// A fresh engine over no bytes yet.
    pub fn new() -> (e: HashEngine)
        ensures
            e.bytes() == Seq::<u8>::empty(),
    {
        HashEngine { inner: xxh3_new() }
    }

    /// Feeds the next chunk of the stream.
    pub fn update(&mut self, chunk: &[u8])
        ensures
            final(self).bytes() == old(self).bytes() + chunk@,
    {
        xxh3_update(&mut self.inner, chunk);
    }

    /// The digest of everything fed so far.
    pub fn digest128(&self) -> (d: u128)
        ensures
            d == xxh3_128_of(self.bytes()),
    {
        xxh3_digest128(&self.inner)
    }
}

/// Computes the digest of a byte stream already in memory, feeding it to
/// the engine in chunks of at most [`CHUNK_SIZE`] bytes.
pub fn compute_hash(data: &[u8]) -> (d: u128)
    ensures
        d == xxh3_128_of(data@),
{
    let mut engine = HashEngine::new();
    let mut off: usize = 0;
    proof {
        assert(engine.bytes() =~= data@.take(0));
    }
    while off < data.len()
        invariant
            off <= data@.len(),
            engine.bytes() == data@.take(off as int),
        decreases data@.len() - off,
    {
        let end = if data.len() - off >= CHUNK_SIZE {
            off + CHUNK_SIZE
        } else {
            data.len()
        };
        let chunk = slice_subrange(data, off, end);
        engine.update(chunk);
        proof {
            assert(data@.take(off as int) + data@.subrange(off as int, end as int) =~= data@.take(
                end as int,
            ));
        }
        off = end;
    }
    proof {
        assert(data@.take(data@.len() as int) =~= data@);
    }
    engine.digest128()
}

/// Determinism: the digest is a function of the byte stream alone, so
/// hashing the same bytes twice — in one run or another, from one file or
/// another — yields the same digest.
pub proof fn lemma_hash_deterministic(b1: Seq<u8>, b2: Seq<u8>)
    requires
        b1 == b2,
    ensures
        xxh3_128_of(b1) == xxh3_128_of(b2),
{
}

} // verus!
