//! SHA-256 digests and their lowercase hex rendering.
use sha2::Digest;
use crate::text::{hex, lemma_hex_len, push_hex};
use vstd::prelude::*;

verus! {

/// The SHA-256 digest of `data`, as computed by the `sha2` crate.
pub uninterp spec fn sha256_digest(data: Seq<u8>) -> Seq<u8>;

/// Calls `sha2::Sha256::digest`. Trusted: the result is the digest of `data`
/// (named by `sha256_digest`, a function of `data` alone) and is 32 bytes long,
/// the output size of SHA-256.
#[verifier::external_body]
pub(crate) fn sha256(data: &[u8]) -> (digest: Vec<u8>)
    ensures
        digest@ == sha256_digest(data@),
        digest@.len() == 32,
{
    sha2::Sha256::digest(data).to_vec()
}

/// Lowercase hex encoding of the SHA-256 digest of `bytes`.
///
/// Used for content-addressed object versions and manifest checksums.
pub fn sha256_hex(bytes: &[u8]) -> (r: String)
    ensures
        r@ == hex(sha256_digest(bytes@)),
        r@.len() == 64,
{
    let digest = sha256(bytes);
    let mut out = String::new();
    push_hex(&mut out, digest.as_slice());
    proof {
        lemma_hex_len(digest@);
    }
    out
}

} // verus!
