//! Recursive-length-prefix encoding of byte strings and lists, as trie nodes
//! are stored.

use crate::serde::{lemma_pow256_values, lemma_usize_bytes, pow256};
use vstd::prelude::*;

verus! {

/// The minimal big-endian bytes of `n` (empty for zero).
pub open spec fn be_bytes(n: nat) -> Seq<u8>
    decreases n,
{
    if n == 0 {
        Seq::empty()
    } else {
        be_bytes(n / 256).push((n % 256) as u8)
    }
}

/// The encoding of a byte string: a single byte below `0x80` stands for
/// itself; a string of fewer than 56 bytes follows one byte `0x80 + len`;
/// a longer one follows `0xb7 + k` and the `k` big-endian bytes of its length.
pub open spec fn rlp_string(b: Seq<u8>) -> Seq<u8> {
    if b.len() == 1 && b[0] < 0x80 {
        b
    } else if b.len() < 56 {
        seq![(0x80 + b.len()) as u8] + b
    } else {
        seq![(0xb7 + be_bytes(b.len()).len()) as u8] + be_bytes(b.len()) + b
    }
}

/// The encoding of a list whose items' encodings, concatenated, are
/// `payload`: one byte `0xc0 + len` before a payload of fewer than 56 bytes,
/// else `0xf7 + k` and the `k` big-endian bytes of its length.
pub open spec fn rlp_list(payload: Seq<u8>) -> Seq<u8> {
    if payload.len() < 56 {
        seq![(0xc0 + payload.len()) as u8] + payload
    } else {
        seq![(0xf7 + be_bytes(payload.len()).len()) as u8] + be_bytes(payload.len()) + payload
    }
}

/// A number below `256^k` takes at most `k` bytes.
pub proof fn lemma_be_bytes_len(n: nat, k: nat)
    requires
        n < pow256(k),
    ensures
        be_bytes(n).len() <= k,
    decreases n,
{
    if n > 0 {
        assert(k > 0) by {
            if k == 0 {
                assert(pow256(0) == 1);
            }
        }
        assert(n / 256 < pow256((k - 1) as nat)) by {
            vstd::arithmetic::div_mod::lemma_multiply_divide_lt(n as int, 256, pow256((k - 1) as nat) as int);
        }
        lemma_be_bytes_len(n / 256, (k - 1) as nat);
    }
}

/// The bytes of a length take at most eight bytes.
pub proof fn lemma_be_usize_len(n: usize)
    ensures
        be_bytes(n as nat).len() <= 8,
{
    lemma_usize_bytes();
    lemma_pow256_values();
    lemma_be_bytes_len(n as nat, 8);
}

/// The minimal big-endian bytes of `n`.
pub fn be_encode(n: usize) -> (r: Vec<u8>)
    ensures
        r@ == be_bytes(n as nat),
    decreases n,
{
    if n == 0 {
        Vec::new()
    } else {
        let mut v = be_encode(n / 256);
        v.push((n % 256) as u8);
        v
    }
}

/// Appends the bytes of `b` to `out`.
pub fn append_bytes(out: &mut Vec<u8>, b: &[u8])
    ensures
        final(out)@ == old(out)@ + b@,
{
    let ghost start = out@;
    let mut i: usize = 0;
    while i < b.len()
        invariant
            i <= b@.len(),
            out@ == start + b@.subrange(0, i as int),
        decreases b@.len() - i,
    {
        out.push(b[i]);
        i = i + 1;
    }
    assert(b@.subrange(0, b@.len() as int) =~= b@);
}

/// Appends the encoding of the byte string `b`.
pub fn append_string(out: &mut Vec<u8>, b: &[u8])
    ensures
        final(out)@ == old(out)@ + rlp_string(b@),
{
    let len = b.len();
    if len == 1 && b[0] < 0x80 {
        out.push(b[0]);
        assert(b@ =~= seq![b@[0]]);
    } else if len < 56 {
        out.push((0x80 + len) as u8);
        append_bytes(out, b);
    } else {
        let lb = be_encode(len);
        proof {
            lemma_be_usize_len(len);
        }
        out.push((0xb7 + lb.len()) as u8);
        append_bytes(out, lb.as_slice());
        append_bytes(out, b);
    }
    assert(out@ =~= old(out)@ + rlp_string(b@));
}

/// The encoding of a list whose concatenated item encodings are `payload`.
pub fn encode_list(payload: &[u8]) -> (r: Vec<u8>)
    ensures
        r@ == rlp_list(payload@),
{
    let len = payload.len();
    let mut out: Vec<u8> = Vec::new();
    if len < 56 {
        out.push((0xc0 + len) as u8);
    } else {
        let lb = be_encode(len);
        proof {
            lemma_be_usize_len(len);
        }
        out.push((0xf7 + lb.len()) as u8);
        append_bytes(&mut out, lb.as_slice());
    }
    append_bytes(&mut out, payload);
    assert(out@ =~= rlp_list(payload@));
    out
}

} // verus!
