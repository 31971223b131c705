//! Digests.

use sha1::Digest;
use vstd::prelude::*;

verus! {

/// The SHA-1 digest of some bytes.
pub uninterp spec fn sha1_of(bytes: Seq<u8>) -> Seq<u8>;

/// The BLAKE3 digest of some bytes.
pub uninterp spec fn blake3_of(bytes: Seq<u8>) -> Seq<u8>;

/// `sha1::Sha1` over one piece of input: the digest depends on the bytes alone.
#[verifier::external_body]
pub(crate) fn sha1(bytes: &[u8]) -> (r: [u8; 20])
    ensures
        r@ == sha1_of(bytes@),
{
    let mut hasher = sha1::Sha1::new();
    hasher.update(bytes);
    hasher.finalize().into()
}

/// `blake3::hash`: the digest depends on the bytes alone.
#[verifier::external_body]
pub(crate) fn blake3(bytes: &[u8]) -> (r: [u8; 32])
    ensures
        r@ == blake3_of(bytes@),
{
    *blake3::hash(bytes).as_bytes()
}

} // verus!
