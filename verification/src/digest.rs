//! SHA-256, as computed by the `sha2` crate.
use sha2::{Digest, Sha256};
use vstd::prelude::*;

verus! {

/// The SHA-256 digest of `data`. Nothing here restates the hash function:
/// the library only relies on it being a function of the bytes hashed.
pub uninterp spec fn sha256_of(data: Seq<u8>) -> Seq<u8>;

/// Calls `sha2::Sha256::digest` (the `Digest` trait's one-shot entry point)
/// on `data` and converts the 32-byte output array. Trusted to return the
/// digest of exactly the bytes handed in, and the same digest for the same
/// bytes: `sha256_of` names that result without defining it.
#[verifier::external_body]
pub(crate) fn sha256(data: &[u8]) -> (hash: [u8; 32])
    ensures
        hash@ == sha256_of(data@),
{
    Sha256::digest(data).into()
}

/// Whether two 32-byte digests are identical.
pub fn same_digest(a: &[u8; 32], b: &[u8; 32]) -> (r: bool)
    ensures
        r == (a@ == b@),
{
    let mut i: usize = 0;
    while i < 32
        invariant
            i <= 32,
            a@.len() == 32,
            b@.len() == 32,
            forall|k: int| 0 <= k < i ==> a@[k] == b@[k],
        decreases 32 - i,
    {
        if a[i] != b[i] {
            return false;
        }
        i = i + 1;
    }
    assert(a@ =~= b@);
    true
}

} // verus!
