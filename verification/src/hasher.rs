//! The hash function of trie nodes: Keccak-256, as computed by the
//! `keccak-hash` crate.

use crate::serde::HashBytes;
use vstd::prelude::*;

verus! {

/// The Keccak-256 digest of `data`.
pub uninterp spec fn keccak256(data: Seq<u8>) -> Seq<u8>;

/// `keccak_hash::keccak`: the Keccak-256 digest of `data`, as its 32 bytes.
/// The contract claims only that the result is the digest of the bytes
/// passed in (a function of them alone).
#[verifier::external_body]
pub(crate) fn keccak(data: &[u8]) -> (r: HashBytes)
    ensures
        r@ == keccak256(data@),
{
    keccak_hash::keccak(data).0
}

} // verus!
