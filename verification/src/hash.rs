//! Content hashing: SHA-256 of a file's bytes, rendered as lowercase hex.
//! The digest itself comes from the sha2 crate; everything after the call is
//! verified against the digest's name.

use vstd::prelude::*;
use sha2::Digest;
use crate::bytes::{to_hex, spec_hex_of, lemma_hex_of_len};

verus! {

/// The SHA-256 digest of `data`: a function of the input bytes alone.
pub uninterp spec fn sha256_of(data: Seq<u8>) -> Seq<u8>;

/// Relies on sha2's `Sha256` through `Digest::digest`: the digest depends on
/// the input bytes alone and is exactly 32 bytes long.
#[verifier::external_body]
fn sha256(data: &[u8]) -> (r: Vec<u8>)
    ensures
        r@ == sha256_of(data@),
        r@.len() == 32,
{
    let digest = sha2::Sha256::digest(data);
    let mut out: Vec<u8> = Vec::with_capacity(32);
    out.extend_from_slice(&digest);
    out
}

/// The content hash the manifest and the vector records carry: SHA-256 in
/// lowercase hex.
pub open spec fn spec_content_hash(data: Seq<u8>) -> Seq<u8> {
    spec_hex_of(sha256_of(data))
}

/// Hashes a file's bytes for the manifest: 64 lowercase hex digits of the
/// SHA-256 digest.
pub fn compute_hash(content: &[u8]) -> (r: Vec<u8>)
    ensures
        r@ == spec_content_hash(content@),
        r@.len() == 64,
{
    let digest = sha256(content);
    let r = to_hex(digest.as_slice());
    proof {
        lemma_hex_of_len(sha256_of(content@));
    }
    r
}

} // verus!
