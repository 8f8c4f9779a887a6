//! Content addressing: the digest a chunk is identified by.

use sha2::Digest;
use vstd::prelude::*;

verus! {

/// The digest of a byte string.  It depends on the bytes alone, so
/// identical bytes always map to the same identity.
pub uninterp spec fn hash_of(bytes: Seq<u8>) -> Seq<u8>;

/// Relies on sha2::Sha256 (through digest::Digest::digest): the digest is
/// 32 bytes and is a function of the input bytes alone.
#[verifier::external_body]
pub(crate) fn compute_hash(bytes: &Vec<u8>) -> (digest: Vec<u8>)
    ensures
        digest@ == hash_of(bytes@),
        digest@.len() == 32,
{
    sha2::Sha256::digest(bytes.as_slice()).to_vec()
}

/// Byte-string equality, the comparison the digest lookups use.
pub(crate) fn bytes_eq(a: &[u8], b: &[u8]) -> (r: bool)
    ensures
        r <==> a@ == b@,
{
    if a.len() != b.len() {
        return false;
    }
    let mut i: usize = 0;
    while i < a.len()
        invariant
            0 <= i <= a@.len(),
            a@.len() == b@.len(),
            forall|j: int| 0 <= j < i ==> a@[j] == b@[j],
        decreases a@.len() - i,
    {
        if a[i] != b[i] {
            return false;
        }
        i = i + 1;
    }
    proof {
        assert(a@ =~= b@);
    }
    true
}

} // verus!
