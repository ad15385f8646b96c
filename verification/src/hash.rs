//! Hash functions taken from outside crates.

use vstd::prelude::*;

verus! {

/// The 64-bit XXH3 hash of the UTF-8 encoding of a text.
pub uninterp spec fn xxh3_64_of(text: Seq<char>) -> u64;

/// The SHA-256 digest of a byte string.
pub uninterp spec fn sha256_of(data: Seq<u8>) -> Seq<u8>;

/// Calls `xxhash_rust::xxh3::xxh3_64` on the bytes of `text`. The result is
/// taken to depend on the text alone; nothing more is claimed of it.
#[verifier::external_body]
pub(crate) fn xxh3_64(text: &str) -> (h: u64)
    ensures
        h == xxh3_64_of(text@),
{
    xxhash_rust::xxh3::xxh3_64(text.as_bytes())
}

/// Calls `workflow_encryption::hash::sha256` on `data` and copies the digest
/// out of the container it comes in. The result is taken to depend on the data
/// alone; nothing more is claimed of it.
#[verifier::external_body]
pub(crate) fn sha256(data: &[u8]) -> (digest: Vec<u8>)
    ensures
        digest@ == sha256_of(data@),
{
    workflow_encryption::hash::sha256(data).as_slice().to_vec()
}

} // verus!
