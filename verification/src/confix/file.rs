//! Fingerprints of configuration files.

use vstd::prelude::*;

verus! {

/// The 128-bit x64 variant of murmur3 of `data` with `seed`, as the crate
/// `murmur3` computes it.
pub uninterp spec fn murmur3_x64_128_of(data: Seq<u8>, seed: u32) -> u128;

/// Hashes `data` with `murmur3::murmur3_x64_128`, reading it from memory.
/// The function only fails where reading its source fails, which reading
/// from a slice never does; the result is the hash of the bytes and the
/// seed alone.
#[verifier::external_body]
fn murmur3_x64_128_slice(data: &[u8], seed: u32) -> (h: u128)
    ensures
        h == murmur3_x64_128_of(data@, seed),
{
    murmur3::murmur3_x64_128(&mut std::io::Cursor::new(data), seed).unwrap()
}

/// A fingerprint of the contents of a file, to tell whether they changed.
#[derive(Clone, Copy, Debug, PartialEq, Eq, PartialOrd, Ord, Hash)]
pub struct FileHash(pub u128);

impl FileHash {
    /// The fingerprint of `data`: its murmur3 hash, with seed 0.
    pub fn hash(data: &[u8]) -> (r: Self)
        ensures
            r.0 == murmur3_x64_128_of(data@, 0),
    {
        FileHash(murmur3_x64_128_slice(data, 0))
    }
}

} // verus!
