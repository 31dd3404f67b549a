//! The digest primitive: SHA-256 over the concatenation of two nodes.
use sha2::Digest;
use vstd::prelude::*;

verus! {

/// The SHA-256 digest of a byte string.
pub uninterp spec fn sha256_of(data: Seq<u8>) -> Seq<u8>;

/// The parent of two tree nodes: the digest of the left one followed by the right one.
pub open spec fn node_hash(left: Seq<u8>, right: Seq<u8>) -> Seq<u8> {
    sha256_of(left + right)
}

/// Relies on sha2::Sha256 (`new`, `update`, `finalize`): the digest of the
/// 64 bytes `left ++ right`.
#[verifier::external_body]
pub fn hash_parent(left: &[u8; 32], right: &[u8; 32]) -> (r: [u8; 32])
    ensures
        r@ == sha256_of(left@ + right@),
{
    let mut hasher = sha2::Sha256::new();
    hasher.update(left);
    hasher.update(right);
    let mut out = [0u8; 32];
    out.copy_from_slice(&hasher.finalize());
    out
}

} // verus!
