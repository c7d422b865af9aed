//! SHA-1, through the `sha1` crate.
use vstd::prelude::*;

use sha1::Digest;

verus! {

/// The SHA-1 digest of `data`.
pub uninterp spec fn sha1_spec(data: Seq<u8>) -> Seq<u8>;

/// Hashes `data` with `sha1::Sha1` (`Digest::digest`). Trusted: the digest is
/// taken to be `sha1_spec` of the input, a function of the input alone; nothing
/// more is said of its value.
#[verifier::external_body]
pub(crate) fn sha1_digest(data: &[u8]) -> (res: [u8; 20])
    ensures
        res@ == sha1_spec(data@),
{
    sha1::Sha1::digest(data).into()
}

/// Whether two digests are the same.
pub fn same_digest(a: &[u8; 20], b: &[u8; 20]) -> (r: bool)
    ensures
        r == (a@ == b@),
{
    let mut i: usize = 0;
    while i < 20
        invariant
            i <= 20,
            a@.len() == 20,
            b@.len() == 20,
            forall|j: int| 0 <= j < i ==> a@[j] == b@[j],
        decreases 20 - i,
    {
        if a[i] != b[i] {
            return false;
        }
        i = i + 1;
    }
    assert(a@ =~= b@);
    true
}

} // verus!
