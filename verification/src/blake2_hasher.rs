//! Hashers of 32-byte digests built on the BLAKE2 functions of the `blake2`
//! crate: BLAKE2s-256 whole, and the first half of BLAKE2b-512.

use crate::serde::HashBytes;
use blake2::{Blake2b512, Blake2s256, Digest};
use vstd::prelude::*;

verus! {

/// The BLAKE2s-256 digest of `data`.
pub uninterp spec fn blake2s256(data: Seq<u8>) -> Seq<u8>;

/// The BLAKE2b-512 digest of `data`.
pub uninterp spec fn blake2b512(data: Seq<u8>) -> Seq<u8>;

/// `blake2::Blake2s256` (`new`, `update`, `finalize`): the BLAKE2s digest of
/// `data`, whose output type holds 32 bytes. The contract claims that the
/// result is the digest of the bytes passed in, and its length.
#[verifier::external_body]
fn blake2s256_digest(data: &[u8]) -> (r: Vec<u8>)
    ensures
        r@ == blake2s256(data@),
        r@.len() == 32,
{
    let mut hasher = Blake2s256::new();
    hasher.update(data);
    hasher.finalize().to_vec()
}

/// `blake2::Blake2b512` (`new`, `update`, `finalize`): the BLAKE2b digest of
/// `data`, whose output type holds 64 bytes. The contract claims that the
/// result is the digest of the bytes passed in, and its length.
#[verifier::external_body]
fn blake2b512_digest(data: &[u8]) -> (r: Vec<u8>)
    ensures
        r@ == blake2b512(data@),
        r@.len() == 64,
{
    let mut hasher = Blake2b512::new();
    hasher.update(data);
    hasher.finalize().to_vec()
}

/// Copies the first 32 bytes of `digest` into a hash.
fn first_32(digest: &Vec<u8>) -> (r: HashBytes)
    requires
        digest@.len() >= 32,
    ensures
        r@ == digest@.take(32),
{
    let mut answer: HashBytes = [0u8; 32];
    let mut i: usize = 0;
    while i < 32
        invariant
            i <= 32,
            digest@.len() >= 32,
            forall|j: int| 0 <= j < i ==> answer@[j] == digest@[j],
        decreases 32 - i,
    {
        answer[i] = digest[i];
        i = i + 1;
    }
    assert(answer@ =~= digest@.take(32));
    answer
}

/// The hasher of 32-byte BLAKE2s digests.
#[derive(Default, Debug, Clone, PartialEq)]
pub struct Blake2sHasher;

impl Blake2sHasher {
    /// The BLAKE2s-256 digest of `x`.
    pub fn hash(x: &[u8]) -> (r: HashBytes)
        ensures
            r@ == blake2s256(x@),
    {
        let digest = blake2s256_digest(x);
        let answer = first_32(&digest);
        assert(digest@.take(32) =~= digest@);
        answer
    }
}

/// The BLAKE2s-256 digest of `s`.
pub fn blake2s(s: &[u8]) -> (r: HashBytes)
    ensures
        r@ == blake2s256(s@),
{
    Blake2sHasher::hash(s)
}

/// The hasher of 32-byte digests cut from BLAKE2b-512: the first 32 bytes of
/// the 64-byte digest.
#[derive(Default, Debug, Clone, PartialEq)]
pub struct Blake2bHasher;

impl Blake2bHasher {
    /// The first 32 bytes of the BLAKE2b-512 digest of `x`.
    pub fn hash(x: &[u8]) -> (r: HashBytes)
        ensures
            r@ == blake2b512(x@).take(32),
    {
        let digest = blake2b512_digest(x);
        first_32(&digest)
    }
}

/// The first 32 bytes of the BLAKE2b-512 digest of `s`.
pub fn blake2b(s: &[u8]) -> (r: HashBytes)
    ensures
        r@ == blake2b512(s@).take(32),
{
    Blake2bHasher::hash(s)
}

} // verus!
