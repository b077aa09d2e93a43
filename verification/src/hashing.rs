//! Content hashing: the SHA3-224 digest behind every commit identifier.

use vstd::prelude::*;
use crate::cid::U232;

verus! {

/// The SHA3-224 digest of a byte sequence. The digest function itself is
/// outside code; nothing here states what its 28 bytes are, only that they
/// depend on the input bytes alone.
pub uninterp spec fn sha3_224_of(data: Seq<u8>) -> Seq<u8>;

/// The identifier assigned to content with the given bytes: a zero
/// collision-break byte in front of the content's SHA3-224 digest.
pub open spec fn spec_hash_cid(data: Seq<u8>) -> Seq<u8> {
    seq![0u8] + sha3_224_of(data)
}

/// Relies on sha3::Sha3_224 through digest::Digest: `update` absorbs the
/// input bytes and `finalize` produces the 28-byte digest, a function of
/// the input alone.
#[verifier::external_body]
fn sha3_224(data: &[u8]) -> (r: Vec<u8>)
    ensures
        r@ == sha3_224_of(data@),
        r@.len() == 28,
{
    let mut hasher = <sha3::Sha3_224 as sha3::Digest>::new();
    sha3::Digest::update(&mut hasher, data);
    let out = sha3::Digest::finalize(hasher);
    out.to_vec()
}

/// Hashes content into its identifier: SHA3-224 of the bytes, with the
/// collision-break byte zero.
pub fn hash_data(list_of_bytes: &[u8]) -> (r: U232)
    ensures
        r@ == spec_hash_cid(list_of_bytes@),
        r@.len() == 29,
        r@[0] == 0,
        r@.subrange(1, 29) == sha3_224_of(list_of_bytes@),
{
    let digest = sha3_224(list_of_bytes);
    let r = U232::from_u8arr(digest.as_slice());
    proof {
        assert(r@ =~= spec_hash_cid(list_of_bytes@));
        assert(r@.subrange(1, 29) =~= sha3_224_of(list_of_bytes@));
    }
    r
}

} // verus!
