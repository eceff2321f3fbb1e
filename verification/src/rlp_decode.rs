//! Reading back recursive-length-prefix encodings: item headers, numbers,
//! and the journal records that the journaling database stores.

use crate::journal::{inserts_payload, pairs_view, record_value, rlp_number, strings_payload};
use crate::rlp_codec::{be_bytes, lemma_be_bytes_len, rlp_list, rlp_string};
use crate::serde::{lemma_pow256_values, pow256, HashBytes};
use crate::trie_store::{hashes_view, same_bytes};
use vstd::prelude::*;

verus! {

broadcast use vstd::std_specs::vec::group_vec_axioms;

/// The number whose big-endian bytes are `b`.
pub open spec fn be_value(b: Seq<u8>) -> nat
    decreases b.len(),
{
    if b.len() == 0 {
        0
    } else {
        (be_value(b.drop_last()) * 256 + b.last()) as nat
    }
}

/// Reading the minimal bytes of `n` gives `n` back.
pub proof fn lemma_be_value_of_bytes(n: nat)
    ensures
        be_value(be_bytes(n)) == n,
    decreases n,
{
    if n > 0 {
        lemma_be_value_of_bytes(n / 256);
        assert(be_bytes(n).drop_last() =~= be_bytes(n / 256));
    }
}

/// A number of `k` bytes is below `256^k`.
pub proof fn lemma_be_value_bound(b: Seq<u8>)
    ensures
        be_value(b) < pow256(b.len()),
    decreases b.len(),
{
    if b.len() > 0 {
        lemma_be_value_bound(b.drop_last());
        let v = be_value(b.drop_last());
        let p = pow256(b.drop_last().len());
        assert(v * 256 + b.last() < p * 256) by (nonlinear_arith)
            requires v < p, b.last() < 256;
        assert(pow256(b.len()) == 256 * p);
    }
}

/// An item of `len` payload bytes right after a one-byte header.
pub open spec fn short_item(b: Seq<u8>, list: bool, len: nat) -> Option<(bool, nat, nat)> {
    if 1 + len <= b.len() {
        Some((list, 1, 1 + len))
    } else {
        None
    }
}

/// An item whose payload length takes the `ll` bytes after the header byte.
pub open spec fn long_item(b: Seq<u8>, list: bool, ll: nat) -> Option<(bool, nat, nat)> {
    if 1 + ll <= b.len() {
        let len = be_value(b.subrange(1, 1 + ll as int));
        if 1 + ll + len <= b.len() {
            Some((list, 1 + ll, 1 + ll + len))
        } else {
            None
        }
    } else {
        None
    }
}

/// The header of the item at the start of `b`: whether it is a list, and
/// where its payload starts and ends.
pub open spec fn spec_header(b: Seq<u8>) -> Option<(bool, nat, nat)> {
    if b.len() == 0 {
        None
    } else {
        let p = b[0];
        if p < 0x80 {
            Some((false, 0, 1))
        } else if p < 0xb8 {
            short_item(b, false, (p - 0x80) as nat)
        } else if p < 0xc0 {
            long_item(b, false, (p - 0xb7) as nat)
        } else if p < 0xf8 {
            short_item(b, true, (p - 0xc0) as nat)
        } else {
            long_item(b, true, (p - 0xf7) as nat)
        }
    }
}

/// The header of an encoded string, whatever follows it.
pub proof fn lemma_header_string(x: Seq<u8>, rest: Seq<u8>)
    requires
        x.len() <= usize::MAX,
    ensures
        spec_header(rlp_string(x) + rest) == Some(
            (false, (rlp_string(x).len() - x.len()) as nat, rlp_string(x).len()),
        ),
        rlp_string(x).len() >= x.len(),
        (rlp_string(x) + rest).subrange(rlp_string(x).len() - x.len(), rlp_string(x).len() as int) == x,
{
    let b = rlp_string(x) + rest;
    if x.len() == 1 && x[0] < 0x80 {
        assert(b.subrange(0, 1) =~= x);
    } else if x.len() < 56 {
        assert(b.subrange(1, 1 + x.len() as int) =~= x);
    } else {
        let lb = be_bytes(x.len());
        lemma_pow256_values();
        crate::rlp_codec::lemma_be_usize_len(x.len() as usize);
        assert(lb.len() >= 1) by {
            assert(be_bytes(x.len()) == be_bytes(x.len() / 256).push((x.len() % 256) as u8));
        }
        assert(b.subrange(1, 1 + lb.len() as int) =~= lb);
        lemma_be_value_of_bytes(x.len());
        assert(b.subrange(1 + lb.len() as int, 1 + lb.len() + x.len() as int) =~= x);
    }
}

/// The header of an encoded list, whatever follows it.
pub proof fn lemma_header_list(x: Seq<u8>, rest: Seq<u8>)
    requires
        x.len() <= usize::MAX,
    ensures
        spec_header(rlp_list(x) + rest) == Some(
            (true, (rlp_list(x).len() - x.len()) as nat, rlp_list(x).len()),
        ),
        rlp_list(x).len() >= x.len(),
        (rlp_list(x) + rest).subrange(rlp_list(x).len() - x.len(), rlp_list(x).len() as int) == x,
{
    let b = rlp_list(x) + rest;
    if x.len() < 56 {
        assert(b.subrange(1, 1 + x.len() as int) =~= x);
    } else {
        let lb = be_bytes(x.len());
        lemma_pow256_values();
        crate::rlp_codec::lemma_be_usize_len(x.len() as usize);
        assert(lb.len() >= 1) by {
            assert(be_bytes(x.len()) == be_bytes(x.len() / 256).push((x.len() % 256) as u8));
        }
        assert(b.subrange(1, 1 + lb.len() as int) =~= lb);
        lemma_be_value_of_bytes(x.len());
        assert(b.subrange(1 + lb.len() as int, 1 + lb.len() + x.len() as int) =~= x);
    }
}

/// Reads the header of the item at `pos` (see `spec_header`), with its
/// payload's bounds counted from the start of `b`.
pub fn read_header(b: &[u8], pos: usize) -> (r: Option<(bool, usize, usize)>)
    requires
        pos <= b@.len(),
    ensures
        match spec_header(b@.skip(pos as int)) {
            None => r is None,
            Some((l, s, e)) => r == Some((l, (pos + s) as usize, (pos + e) as usize)),
        },
{
    let ghost t = b@.skip(pos as int);
    let avail = b.len() - pos;
    if avail == 0 {
        return None;
    }
    let p = b[pos];
    assert(t[0] == p);
    if p < 0x80 {
        return Some((false, pos, pos + 1));
    }
    let list = p >= 0xc0;
    let small = if list { p < 0xf8 } else { p < 0xb8 };
    let base: u8 = if list {
        if small { 0xc0 } else { 0xf7 }
    } else {
        if small { 0x80 } else { 0xb7 }
    };
    let n = (p - base) as usize;
    if small {
        if n + 1 <= avail {
            return Some((list, pos + 1, pos + 1 + n));
        } else {
            return None;
        }
    }
    if n + 1 > avail {
        return None;
    }
    let mut v: u64 = 0;
    let mut i: usize = 0;
    proof {
        lemma_pow256_values();
    }
    while i < n
        invariant
            i <= n <= 8,
            pos + 1 + n <= b.len(),
            t == b@.skip(pos as int),
            v as nat == be_value(t.subrange(1, 1 + i as int)),
            v < pow256(i as nat),
        decreases n - i,
    {
        let byte = b[pos + 1 + i];
        proof {
            assert(t.subrange(1, 1 + i + 1).drop_last() =~= t.subrange(1, 1 + i as int));
            assert(t.subrange(1, 1 + i + 1).last() == byte);
            assert(pow256((i + 1) as nat) == 256 * pow256(i as nat));
            assert(v * 256 + byte < 256 * pow256(i as nat)) by (nonlinear_arith)
                requires v < pow256(i as nat), byte < 256;
            assert(pow256(i as nat) <= pow256(7)) by {
                crate::serde::lemma_pow256_mono(i as nat, 7);
            }
            lemma_pow256_values();
            assert(v * 256 + byte <= u64::MAX) by (nonlinear_arith)
                requires v < pow256(7), pow256(7) == 0x100000000000000, byte < 256;
        }
        v = v * 256 + byte as u64;
        i = i + 1;
    }
    let room = (avail - 1 - n) as u64;
    if v <= room {
        let len = v as usize;
        Some((list, pos + 1 + n, pos + 1 + n + len))
    } else {
        None
    }
}

/// A header's payload lies within the bytes it was read from.
pub proof fn lemma_header_bounds(t: Seq<u8>)
    ensures
        spec_header(t) matches Some(h) ==> h.1 <= h.2 <= t.len() && h.1 >= 0 && (h.0 ==> h.1 >= 1),
{
}

/// The bytes from `pos` on are a prefix that splits as `a + rest`, then the
/// bytes from `end` on.
pub proof fn lemma_skip_split(b: Seq<u8>, pos: int, end: int, a: Seq<u8>, rest: Seq<u8>)
    requires
        0 <= pos <= end <= b.len(),
        b.subrange(pos, end) == a + rest,
    ensures
        b.skip(pos) == a + (rest + b.skip(end)),
{
    assert(b.skip(pos) =~= b.subrange(pos, end) + b.skip(end));
    assert((a + rest) + b.skip(end) =~= a + (rest + b.skip(end)));
}

/// An encoded string is at least as long as the string.
pub proof fn lemma_rlp_lens(x: Seq<u8>)
    ensures
        rlp_string(x).len() >= x.len(),
        rlp_list(x).len() > x.len(),
{
}

/// The item at `pos`, when it is a list (`list`) or a string (otherwise)
/// that ends by `end`: the bounds of its payload.
fn read_item(b: &[u8], pos: usize, end: usize, list: bool) -> (r: Option<(usize, usize)>)
    requires
        pos <= end <= b@.len(),
    ensures
        match spec_header(b@.skip(pos as int)) {
            Some((l, s, e)) => if l == list && pos + e <= end {
                r == Some(((pos + s) as usize, (pos + e) as usize))
            } else {
                r is None
            },
            None => r is None,
        },
{
    let len = b.len();
    proof {
        lemma_header_bounds(b@.skip(pos as int));
        assert(b@.len() == len);
    }
    match read_header(b, pos) {
        Some((l, s, e)) => if l == list && e <= end {
            Some((s, e))
        } else {
            None
        },
        None => None,
    }
}

/// A copy of the 32 bytes at `from`.
pub(crate) fn copy_hash(b: &[u8], from: usize) -> (r: HashBytes)
    requires
        from + 32 <= b@.len(),
    ensures
        r@ == b@.subrange(from as int, from + 32),
{
    let mut a: [u8; 32] = [0u8; 32];
    let mut i: usize = 0;
    while i < 32
        invariant
            i <= 32,
            from + 32 <= b.len(),
            forall|j: int| 0 <= j < i ==> a@[j] == b@[from + j],
        decreases 32 - i,
    {
        a[i] = b[from + i];
        i = i + 1;
    }
    assert(a@ =~= b@.subrange(from as int, from + 32));
    a
}

/// A copy of the bytes `b[from..to]`.
pub(crate) fn copy_range(b: &[u8], from: usize, to: usize) -> (r: Vec<u8>)
    requires
        from <= to <= b@.len(),
    ensures
        r@ == b@.subrange(from as int, to as int),
{
    let mut r: Vec<u8> = Vec::new();
    let mut i = from;
    while i < to
        invariant
            from <= i <= to <= b@.len(),
            r@ == b@.subrange(from as int, i as int),
        decreases to - i,
    {
        r.push(b[i]);
        i = i + 1;
    }
    r
}

/// A 32-byte string item at `pos` ending by `end`, and where it ends.
fn read_hash(b: &[u8], pos: usize, end: usize) -> (r: Option<(HashBytes, usize)>)
    requires
        pos <= end <= b@.len(),
    ensures
        forall|x: Seq<u8>, rest: Seq<u8>|
            #![trigger rlp_string(x) + rest]
            x.len() == 32 && b@.subrange(pos as int, end as int) == rlp_string(x) + rest ==> (r matches Some(
                p,
            ) && p.0@ == x && p.1 == pos + rlp_string(x).len()),
        r matches Some(p) ==> pos <= p.1 <= end,
{
    match read_item(b, pos, end, false) {
        Some((s, e)) => {
            if e - s == 32 {
                let h = copy_hash(b, s);
                proof {
                    assert forall|x: Seq<u8>, rest: Seq<u8>|
                        #![trigger rlp_string(x) + rest]
                        x.len() == 32 && b@.subrange(pos as int, end as int) == rlp_string(x) + rest implies (h@ == x && e == pos + rlp_string(x).len()) by {
                        lemma_skip_split(b@, pos as int, end as int, rlp_string(x), rest);
                        lemma_header_string(x, rest + b@.skip(end as int));
                        assert(b@.subrange(s as int, e as int) =~= (rlp_string(x) + (rest + b@.skip(end as int))).subrange(
                            rlp_string(x).len() - x.len(),
                            rlp_string(x).len() as int,
                        ));
                    }
                }
                Some((h, e))
            } else {
                proof {
                    assert forall|x: Seq<u8>, rest: Seq<u8>|
                        #![trigger rlp_string(x) + rest]
                        x.len() == 32 && b@.subrange(pos as int, end as int) == rlp_string(x) + rest implies false by {
                        lemma_skip_split(b@, pos as int, end as int, rlp_string(x), rest);
                        lemma_header_string(x, rest + b@.skip(end as int));
                    }
                }
                None
            }
        },
        None => {
            proof {
                assert forall|x: Seq<u8>, rest: Seq<u8>|
                    #![trigger rlp_string(x) + rest]
                    x.len() == 32 && b@.subrange(pos as int, end as int) == rlp_string(x) + rest implies false by {
                    lemma_skip_split(b@, pos as int, end as int, rlp_string(x), rest);
                    lemma_rlp_lens(x);
                    lemma_header_string(x, rest + b@.skip(end as int));
                }
            }
            None
        },
    }
}

/// A string item at `pos` ending by `end`, and where it ends.
pub(crate) fn read_bytes(b: &[u8], pos: usize, end: usize) -> (r: Option<(Vec<u8>, usize)>)
    requires
        pos <= end <= b@.len(),
    ensures
        forall|x: Seq<u8>, rest: Seq<u8>|
            #![trigger rlp_string(x) + rest]
            b@.subrange(pos as int, end as int) == rlp_string(x) + rest ==> (r matches Some(p) && p.0@ == x
                && p.1 == pos + rlp_string(x).len()),
        r matches Some(p) ==> pos <= p.1 <= end,
{
    match read_item(b, pos, end, false) {
        Some((s, e)) => {
            let v = copy_range(b, s, e);
            proof {
                assert forall|x: Seq<u8>, rest: Seq<u8>|
                    #![trigger rlp_string(x) + rest]
                    b@.subrange(pos as int, end as int) == rlp_string(x) + rest implies (v@ == x && e == pos + rlp_string(x).len()) by {
                    lemma_skip_split(b@, pos as int, end as int, rlp_string(x), rest);
                    lemma_rlp_lens(x);
                    lemma_header_string(x, rest + b@.skip(end as int));
                    assert(b@.subrange(s as int, e as int) =~= (rlp_string(x) + (rest + b@.skip(end as int))).subrange(
                        rlp_string(x).len() - x.len(),
                        rlp_string(x).len() as int,
                    ));
                }
            }
            Some((v, e))
        },
        None => {
            proof {
                assert forall|x: Seq<u8>, rest: Seq<u8>|
                    #![trigger rlp_string(x) + rest]
                    b@.subrange(pos as int, end as int) == rlp_string(x) + rest implies false by {
                    lemma_skip_split(b@, pos as int, end as int, rlp_string(x), rest);
                    lemma_rlp_lens(x);
                    lemma_header_string(x, rest + b@.skip(end as int));
                }
            }
            None
        },
    }
}

/// A list item at `pos` ending by `end`: the bounds of its payload.
pub(crate) fn read_list(b: &[u8], pos: usize, end: usize) -> (r: Option<(usize, usize)>)
    requires
        pos <= end <= b@.len(),
    ensures
        forall|x: Seq<u8>, rest: Seq<u8>|
            #![trigger rlp_list(x) + rest]
            b@.subrange(pos as int, end as int) == rlp_list(x) + rest ==> (r matches Some(p)
                && p.1 == pos + rlp_list(x).len() && p.0 + x.len() == p.1 && b@.subrange(p.0 as int, p.1 as int) == x),
        r matches Some(p) ==> pos < p.0 <= p.1 <= end,
{
    let r = read_item(b, pos, end, true);
    proof {
        lemma_header_bounds(b@.skip(pos as int));
        assert forall|x: Seq<u8>, rest: Seq<u8>|
            #![trigger rlp_list(x) + rest]
            b@.subrange(pos as int, end as int) == rlp_list(x) + rest implies (r matches Some(p)
                && p.1 == pos + rlp_list(x).len() && p.0 + x.len() == p.1 && b@.subrange(p.0 as int, p.1 as int) == x) by {
            lemma_skip_split(b@, pos as int, end as int, rlp_list(x), rest);
            lemma_rlp_lens(x);
            lemma_header_list(x, rest + b@.skip(end as int));
            let (s, e) = r.unwrap();
            assert(b@.subrange(s as int, e as int) =~= (rlp_list(x) + (rest + b@.skip(end as int))).subrange(
                rlp_list(x).len() - x.len(),
                rlp_list(x).len() as int,
            ));
        }
    }
    r
}

/// The bytes after a prefix of a range.
pub proof fn lemma_subrange_after(b: Seq<u8>, s: int, e: int, a: Seq<u8>, c: Seq<u8>)
    requires
        0 <= s <= e <= b.len(),
        b.subrange(s, e) == a + c,
    ensures
        b.subrange(s + a.len(), e) == c,
{
    assert(b.subrange(s + a.len(), e) =~= (a + c).skip(a.len() as int));
}

/// The big-endian number in at most eight bytes.
fn be_u64(v: &Vec<u8>) -> (r: u64)
    requires
        v@.len() <= 8,
    ensures
        r as nat == be_value(v@),
{
    let mut x: u64 = 0;
    let mut i: usize = 0;
    proof {
        lemma_pow256_values();
    }
    while i < v.len()
        invariant
            i <= v@.len() <= 8,
            x as nat == be_value(v@.take(i as int)),
            x < pow256(i as nat),
            pow256(8) == 0x1_0000_0000_0000_0000,
        decreases v@.len() - i,
    {
        let byte = v[i];
        proof {
            assert(v@.take(i + 1).drop_last() =~= v@.take(i as int));
            assert(v@.take(i + 1).last() == byte);
            assert(pow256((i + 1) as nat) == 256 * pow256(i as nat));
            crate::serde::lemma_pow256_mono((i + 1) as nat, 8);
            assert(x * 256 + byte < 256 * pow256(i as nat)) by (nonlinear_arith)
                requires x < pow256(i as nat), byte < 256;
        }
        x = x * 256 + byte as u64;
        i = i + 1;
    }
    assert(v@.take(v@.len() as int) =~= v@);
    x
}

/// The encoding of `n` (see `rlp_number`).
pub fn encode_number(n: u64) -> (r: Vec<u8>)
    ensures
        r@ == rlp_number(n as nat),
{
    let bytes = crate::journal::be_encode_u64(n);
    let mut out: Vec<u8> = Vec::new();
    crate::rlp_codec::append_string(&mut out, bytes.as_slice());
    assert(out@ =~= rlp_number(n as nat));
    out
}

/// Reads back an encoded number: `None` when `b` is not the encoding of
/// any `u64`.
pub fn decode_u64(b: &[u8]) -> (r: Option<u64>)
    ensures
        match r {
            Some(n) => b@ == rlp_number(n as nat),
            None => forall|n: u64| b@ != rlp_number(n as nat),
        },
{
    let len = b.len();
    let ghost canon = exists|n: u64| b@ == rlp_number(n as nat);
    let ghost wn: u64 = choose|n: u64| b@ == rlp_number(n as nat);
    proof {
        if canon {
            lemma_pow256_values();
            lemma_be_bytes_len(wn as nat, 8);
            assert(b@.subrange(0, len as int) =~= rlp_string(be_bytes(wn as nat)) + Seq::<u8>::empty());
        }
    }
    match read_bytes(b, 0, len) {
        Some((v, e)) => {
            if e != len || v.len() > 8 {
                return None;
            }
            let x = be_u64(&v);
            let enc = encode_number(x);
            if same_bytes(enc.as_slice(), b) {
                Some(x)
            } else {
                proof {
                    if canon {
                        lemma_be_value_of_bytes(wn as nat);
                    }
                }
                None
            }
        },
        None => None,
    }
}

/// `b` is the stored form of a record with this id, these insertions and
/// these removals, all keys being 32 bytes long.
pub open spec fn is_record(b: Seq<u8>, id: Seq<u8>, ins: Seq<(Seq<u8>, Seq<u8>)>, dels: Seq<Seq<u8>>) -> bool {
    &&& id.len() == 32
    &&& forall|i: int| 0 <= i < ins.len() ==> (#[trigger] ins[i]).0.len() == 32
    &&& forall|i: int| 0 <= i < dels.len() ==> (#[trigger] dels[i]).len() == 32
    &&& b == record_value(id, ins, dels)
}

/// The encoding of an inserted pair.
pub open spec fn pair_item(p: (Seq<u8>, Seq<u8>)) -> Seq<u8> {
    rlp_list(rlp_string(p.0) + rlp_string(p.1))
}

/// The encodings of pairs begin with the first pair's.
pub proof fn lemma_inserts_cons(ins: Seq<(Seq<u8>, Seq<u8>)>)
    requires
        ins.len() > 0,
    ensures
        inserts_payload(ins) == pair_item(ins[0]) + inserts_payload(ins.drop_first()),
    decreases ins.len(),
{
    if ins.len() == 1 {
        assert(ins.drop_first() =~= Seq::<(Seq<u8>, Seq<u8>)>::empty());
        assert(inserts_payload(ins.drop_last()) =~= Seq::<u8>::empty());
        assert(inserts_payload(ins) =~= pair_item(ins[0]));
    } else {
        lemma_inserts_cons(ins.drop_last());
        assert(ins.drop_first().drop_last() =~= ins.drop_last().drop_first());
        assert(ins.drop_last()[0] == ins[0]);
        assert(ins.drop_first().last() == ins.last());
        assert(inserts_payload(ins) =~= pair_item(ins[0]) + inserts_payload(ins.drop_first()));
    }
}

/// The encodings of strings begin with the first string's.
pub proof fn lemma_strings_cons(ds: Seq<Seq<u8>>)
    requires
        ds.len() > 0,
    ensures
        strings_payload(ds) == rlp_string(ds[0]) + strings_payload(ds.drop_first()),
    decreases ds.len(),
{
    if ds.len() == 1 {
        assert(ds.drop_first() =~= Seq::<Seq<u8>>::empty());
        assert(strings_payload(ds.drop_last()) =~= Seq::<u8>::empty());
        assert(strings_payload(ds) =~= rlp_string(ds[0]));
    } else {
        lemma_strings_cons(ds.drop_last());
        assert(ds.drop_first().drop_last() =~= ds.drop_last().drop_first());
        assert(ds.drop_last()[0] == ds[0]);
        assert(ds.drop_first().last() == ds.last());
        assert(strings_payload(ds) =~= rlp_string(ds[0]) + strings_payload(ds.drop_first()));
    }
}

/// Non-empty lists of items have non-empty encodings.
pub proof fn lemma_payload_nonempty(ins: Seq<(Seq<u8>, Seq<u8>)>, ds: Seq<Seq<u8>>)
    ensures
        ins.len() > 0 ==> inserts_payload(ins).len() > 0,
        ds.len() > 0 ==> strings_payload(ds).len() > 0,
{
    if ins.len() > 0 {
        lemma_inserts_cons(ins);
    }
    if ds.len() > 0 {
        lemma_strings_cons(ds);
        assert(rlp_string(ds[0]).len() > 0);
    }
}

/// Reads the encoded pairs in `b[pos..end]`.
fn read_pairs(b: &[u8], pos: usize, end: usize) -> (r: Option<Vec<(HashBytes, Vec<u8>)>>)
    requires
        pos <= end <= b@.len(),
    ensures
        (exists|ins: Seq<(Seq<u8>, Seq<u8>)>|
            (forall|i: int| 0 <= i < ins.len() ==> (#[trigger] ins[i]).0.len() == 32)
                && b@.subrange(pos as int, end as int) == inserts_payload(ins)) ==> (r matches Some(v)
            && b@.subrange(pos as int, end as int) == inserts_payload(pairs_view(v@))),
{
    let mut out: Vec<(HashBytes, Vec<u8>)> = Vec::new();
    let mut p = pos;
    let ghost canon = exists|ins: Seq<(Seq<u8>, Seq<u8>)>|
        (forall|i: int| 0 <= i < ins.len() ==> (#[trigger] ins[i]).0.len() == 32) && b@.subrange(pos as int, end as int) == inserts_payload(ins);
    let ghost w = choose|ins: Seq<(Seq<u8>, Seq<u8>)>|
        (forall|i: int| 0 <= i < ins.len() ==> (#[trigger] ins[i]).0.len() == 32) && b@.subrange(pos as int, end as int) == inserts_payload(ins);
    assert(canon ==> w.skip(0) =~= w);
    while p < end
        invariant
            pos <= p <= end <= b@.len(),
            canon ==> (out@.len() <= w.len() && pairs_view(out@) == w.take(out@.len() as int)
                && b@.subrange(p as int, end as int) == inserts_payload(w.skip(out@.len() as int))),
            canon ==> (forall|i: int| 0 <= i < w.len() ==> (#[trigger] w[i]).0.len() == 32),
            canon == (exists|ins: Seq<(Seq<u8>, Seq<u8>)>|
                (forall|i: int| 0 <= i < ins.len() ==> (#[trigger] ins[i]).0.len() == 32) && b@.subrange(pos as int, end as int) == inserts_payload(ins)),
        decreases end - p,
    {
        let ghost k = out@.len() as int;
        proof {
            if canon {
                lemma_payload_nonempty(w.skip(k), Seq::<Seq<u8>>::empty());
                if k == w.len() {
                    assert(w.skip(k) =~= Seq::<(Seq<u8>, Seq<u8>)>::empty());
                }
                assert(k < w.len());
                lemma_inserts_cons(w.skip(k));
                assert(w.skip(k)[0] == w[k]);
                assert(w.skip(k).drop_first() =~= w.skip(k + 1));
                let it = rlp_string(w[k].0) + rlp_string(w[k].1);
                assert(b@.subrange(p as int, end as int) == rlp_list(it) + inserts_payload(w.skip(k + 1)));
            }
        }
        let (s, e) = match read_list(b, p, end) {
            Some(x) => x,
            None => {
                return None;
            },
        };
        let (key, ke) = match read_hash(b, s, e) {
            Some(x) => x,
            None => {
                proof {
                    if canon {
                        assert(b@.subrange(s as int, e as int) == rlp_string(w[k].0) + rlp_string(w[k].1));
                    }
                }
                return None;
            },
        };
        proof {
            if canon {
                assert(b@.subrange(s as int, e as int) == rlp_string(w[k].0) + rlp_string(w[k].1));
                lemma_subrange_after(b@, s as int, e as int, rlp_string(w[k].0), rlp_string(w[k].1));
                assert(b@.subrange(ke as int, e as int) == rlp_string(w[k].1) + Seq::<u8>::empty());
            }
        }
        let (val, ve) = match read_bytes(b, ke, e) {
            Some(x) => x,
            None => {
                return None;
            },
        };
        if ve != e {
            return None;
        }
        let ghost before = pairs_view(out@);
        out.push((key, val));
        proof {
            assert(pairs_view(out@) =~= before.push((key@, val@)));
            if canon {
                assert(w.take(k + 1) =~= w.take(k).push(w[k]));
                lemma_subrange_after(b@, p as int, end as int, rlp_list(rlp_string(w[k].0) + rlp_string(w[k].1)), inserts_payload(w.skip(k + 1)));
            }
        }
        p = e;
    }
    proof {
        if canon {
            let k = out@.len() as int;
            assert(b@.subrange(p as int, end as int) =~= Seq::<u8>::empty());
            lemma_payload_nonempty(w.skip(k), Seq::<Seq<u8>>::empty());
            assert(w.skip(k).len() == 0);
            assert(w.take(k) =~= w);
            assert(pairs_view(out@) == w);
        }
    }
    Some(out)
}

/// Reads the encoded 32-byte strings in `b[pos..end]`.
fn read_hashes(b: &[u8], pos: usize, end: usize) -> (r: Option<Vec<HashBytes>>)
    requires
        pos <= end <= b@.len(),
    ensures
        (exists|ds: Seq<Seq<u8>>|
            (forall|i: int| 0 <= i < ds.len() ==> (#[trigger] ds[i]).len() == 32)
                && b@.subrange(pos as int, end as int) == strings_payload(ds)) ==> (r matches Some(v)
            && b@.subrange(pos as int, end as int) == strings_payload(hashes_view(v@))),
{
    let mut out: Vec<HashBytes> = Vec::new();
    let mut p = pos;
    let ghost canon = exists|ds: Seq<Seq<u8>>|
        (forall|i: int| 0 <= i < ds.len() ==> (#[trigger] ds[i]).len() == 32) && b@.subrange(pos as int, end as int) == strings_payload(ds);
    let ghost w = choose|ds: Seq<Seq<u8>>|
        (forall|i: int| 0 <= i < ds.len() ==> (#[trigger] ds[i]).len() == 32) && b@.subrange(pos as int, end as int) == strings_payload(ds);
    assert(canon ==> w.skip(0) =~= w);
    while p < end
        invariant
            pos <= p <= end <= b@.len(),
            canon ==> (out@.len() <= w.len() && hashes_view(out@) == w.take(out@.len() as int)
                && b@.subrange(p as int, end as int) == strings_payload(w.skip(out@.len() as int))),
            canon ==> (forall|i: int| 0 <= i < w.len() ==> (#[trigger] w[i]).len() == 32),
            canon == (exists|ds: Seq<Seq<u8>>|
                (forall|i: int| 0 <= i < ds.len() ==> (#[trigger] ds[i]).len() == 32) && b@.subrange(pos as int, end as int) == strings_payload(ds)),
        decreases end - p,
    {
        let ghost k = out@.len() as int;
        proof {
            if canon {
                lemma_payload_nonempty(Seq::<(Seq<u8>, Seq<u8>)>::empty(), w.skip(k));
                if k == w.len() {
                    assert(w.skip(k) =~= Seq::<Seq<u8>>::empty());
                }
                assert(k < w.len());
                lemma_strings_cons(w.skip(k));
                assert(w.skip(k)[0] == w[k]);
                assert(w.skip(k).drop_first() =~= w.skip(k + 1));
                assert(b@.subrange(p as int, end as int) == rlp_string(w[k]) + strings_payload(w.skip(k + 1)));
            }
        }
        let (h, e) = match read_hash(b, p, end) {
            Some(x) => x,
            None => {
                return None;
            },
        };
        let ghost before = hashes_view(out@);
        out.push(h);
        proof {
            assert(hashes_view(out@) =~= before.push(h@));
            if canon {
                assert(w.take(k + 1) =~= w.take(k).push(w[k]));
                lemma_subrange_after(b@, p as int, end as int, rlp_string(w[k]), strings_payload(w.skip(k + 1)));
            }
        }
        proof {
            if canon {
                lemma_rlp_lens(w[k]);
            }
        }
        if e <= p {
            return None;
        }
        p = e;
    }
    proof {
        if canon {
            let k = out@.len() as int;
            assert(b@.subrange(p as int, end as int) =~= Seq::<u8>::empty());
            lemma_payload_nonempty(Seq::<(Seq<u8>, Seq<u8>)>::empty(), w.skip(k));
            assert(w.skip(k).len() == 0);
            assert(w.take(k) =~= w);
            assert(hashes_view(out@) == w);
        }
    }
    Some(out)
}

/// Reads back a stored journal record: its id, inserted pairs and removed
/// keys; `None` when `b` is not the stored form of any record with 32-byte
/// keys.
pub fn decode_record(b: &[u8]) -> (r: Option<(HashBytes, Vec<(HashBytes, Vec<u8>)>, Vec<HashBytes>)>)
    ensures
        match r {
            Some(t) => b@ == record_value(t.0@, pairs_view(t.1@), hashes_view(t.2@)),
            None => forall|id: Seq<u8>, ins: Seq<(Seq<u8>, Seq<u8>)>, dels: Seq<Seq<u8>>| !is_record(b@, id, ins, dels),
        },
{
    let n = b.len();
    let ghost canon = exists|id: Seq<u8>, ins: Seq<(Seq<u8>, Seq<u8>)>, dels: Seq<Seq<u8>>| is_record(b@, id, ins, dels);
    let ghost w = choose|id: Seq<u8>, ins: Seq<(Seq<u8>, Seq<u8>)>, dels: Seq<Seq<u8>>| is_record(b@, id, ins, dels);
    let ghost id = w.0;
    let ghost ins = w.1;
    let ghost dels = w.2;
    let ghost ip = rlp_list(inserts_payload(ins));
    let ghost dp = rlp_list(strings_payload(dels));
    proof {
        if canon {
            assert(is_record(b@, id, ins, dels));
            assert(b@.subrange(0, n as int) =~= rlp_list(rlp_string(id) + ip + dp) + Seq::<u8>::empty());
        }
    }
    let (s0, e0) = match read_list(b, 0, n) {
        Some(x) => x,
        None => {
            return None;
        },
    };
    if e0 != n {
        return None;
    }
    proof {
        if canon {
            assert(b@.subrange(s0 as int, e0 as int) == rlp_string(id) + ip + dp);
            assert(rlp_string(id) + ip + dp =~= rlp_string(id) + (ip + dp));
        }
    }
    let (idh, e1) = match read_hash(b, s0, e0) {
        Some(x) => x,
        None => {
            return None;
        },
    };
    proof {
        if canon {
            lemma_subrange_after(b@, s0 as int, e0 as int, rlp_string(id), ip + dp);
            assert(b@.subrange(e1 as int, e0 as int) == ip + dp);
        }
    }
    let (s2, e2) = match read_list(b, e1, e0) {
        Some(x) => x,
        None => {
            return None;
        },
    };
    proof {
        if canon {
            lemma_subrange_after(b@, e1 as int, e0 as int, ip, dp);
            assert(b@.subrange(e2 as int, e0 as int) == dp + Seq::<u8>::empty());
        }
    }
    let (s3, e3) = match read_list(b, e2, e0) {
        Some(x) => x,
        None => {
            return None;
        },
    };
    if e3 != e0 {
        return None;
    }
    proof {
        if canon {
            assert(b@.subrange(s2 as int, e2 as int) == inserts_payload(ins));
            assert(b@.subrange(s3 as int, e3 as int) == strings_payload(dels));
            assert(forall|i: int| 0 <= i < ins.len() ==> (#[trigger] ins[i]).0.len() == 32);
            assert(forall|i: int| 0 <= i < dels.len() ==> (#[trigger] dels[i]).len() == 32);
        }
    }
    let pairs = match read_pairs(b, s2, e2) {
        Some(v) => v,
        None => {
            return None;
        },
    };
    let hashes = match read_hashes(b, s3, e3) {
        Some(v) => v,
        None => {
            return None;
        },
    };
    let enc = crate::journal::encode_record(&idh, &pairs, &hashes);
    if same_bytes(enc.as_slice(), b) {
        Some((idh, pairs, hashes))
    } else {
        proof {
            if canon {
                assert(idh@ == id);
                assert(b@.subrange(s2 as int, e2 as int) == inserts_payload(pairs_view(pairs@)));
                assert(b@.subrange(s3 as int, e3 as int) == strings_payload(hashes_view(hashes@)));
                assert(inserts_payload(pairs_view(pairs@)) == inserts_payload(ins));
                assert(strings_payload(hashes_view(hashes@)) == strings_payload(dels));
                assert(enc@ == b@);
            }
        }
        None
    }
}

/// No encoded string is a proper prefix of another: an encoded string
/// followed by anything determines the string and what follows.
pub proof fn lemma_string_prefix_free(x: Seq<u8>, r1: Seq<u8>, y: Seq<u8>, r2: Seq<u8>)
    requires
        rlp_string(x) + r1 == rlp_string(y) + r2,
        (rlp_string(x) + r1).len() <= usize::MAX,
    ensures
        x == y,
        r1 == r2,
{
    lemma_rlp_lens(x);
    lemma_rlp_lens(y);
    lemma_header_string(x, r1);
    lemma_header_string(y, r2);
    assert(r1 =~= (rlp_string(x) + r1).skip(rlp_string(x).len() as int));
    assert(r2 =~= (rlp_string(y) + r2).skip(rlp_string(y).len() as int));
}

/// No encoded list is a proper prefix of another: an encoded list followed
/// by anything determines the list's payload and what follows.
pub proof fn lemma_list_prefix_free(x: Seq<u8>, r1: Seq<u8>, y: Seq<u8>, r2: Seq<u8>)
    requires
        rlp_list(x) + r1 == rlp_list(y) + r2,
        (rlp_list(x) + r1).len() <= usize::MAX,
    ensures
        x == y,
        r1 == r2,
{
    lemma_rlp_lens(x);
    lemma_rlp_lens(y);
    lemma_header_list(x, r1);
    lemma_header_list(y, r2);
    assert(r1 =~= (rlp_list(x) + r1).skip(rlp_list(x).len() as int));
    assert(r2 =~= (rlp_list(y) + r2).skip(rlp_list(y).len() as int));
}

/// The encodings of two sequences of pairs are equal only when the pairs are.
pub proof fn lemma_inserts_injective(a: Seq<(Seq<u8>, Seq<u8>)>, b: Seq<(Seq<u8>, Seq<u8>)>)
    requires
        inserts_payload(a) == inserts_payload(b),
        inserts_payload(a).len() <= usize::MAX,
    ensures
        a == b,
    decreases a.len(),
{
    lemma_payload_nonempty(a, Seq::empty());
    lemma_payload_nonempty(b, Seq::empty());
    if a.len() > 0 && b.len() > 0 {
        lemma_inserts_cons(a);
        lemma_inserts_cons(b);
        let (k1, v1) = a[0];
        let (k2, v2) = b[0];
        lemma_list_prefix_free(
            rlp_string(k1) + rlp_string(v1),
            inserts_payload(a.drop_first()),
            rlp_string(k2) + rlp_string(v2),
            inserts_payload(b.drop_first()),
        );
        lemma_rlp_lens(rlp_string(k1) + rlp_string(v1));
        lemma_string_prefix_free(k1, rlp_string(v1), k2, rlp_string(v2));
        assert(rlp_string(v1) + Seq::<u8>::empty() == rlp_string(v2) + Seq::<u8>::empty());
        lemma_string_prefix_free(v1, Seq::empty(), v2, Seq::empty());
        lemma_inserts_injective(a.drop_first(), b.drop_first());
        assert(a =~= b) by {
            assert forall|i: int| 0 <= i < a.len() implies a[i] == b[i] by {
                if i > 0 {
                    assert(a[i] == a.drop_first()[i - 1]);
                    assert(b[i] == b.drop_first()[i - 1]);
                }
            }
        }
    }
}

/// The encodings of two sequences of strings are equal only when the
/// strings are.
pub proof fn lemma_strings_injective(a: Seq<Seq<u8>>, b: Seq<Seq<u8>>)
    requires
        strings_payload(a) == strings_payload(b),
        strings_payload(a).len() <= usize::MAX,
    ensures
        a == b,
    decreases a.len(),
{
    lemma_payload_nonempty(Seq::empty(), a);
    lemma_payload_nonempty(Seq::empty(), b);
    if a.len() > 0 && b.len() > 0 {
        lemma_strings_cons(a);
        lemma_strings_cons(b);
        lemma_string_prefix_free(a[0], strings_payload(a.drop_first()), b[0], strings_payload(b.drop_first()));
        lemma_strings_injective(a.drop_first(), b.drop_first());
        assert(a =~= b) by {
            assert forall|i: int| 0 <= i < a.len() implies a[i] == b[i] by {
                if i > 0 {
                    assert(a[i] == a.drop_first()[i - 1]);
                    assert(b[i] == b.drop_first()[i - 1]);
                }
            }
        }
    }
}

/// A stored journal record determines the record: two records with the same
/// stored form have the same id, insertions and removals, so what
/// `decode_record` and `OverlayReader::step` read back is exactly what was
/// written.
pub proof fn lemma_record_injective(
    id1: Seq<u8>,
    ins1: Seq<(Seq<u8>, Seq<u8>)>,
    dels1: Seq<Seq<u8>>,
    id2: Seq<u8>,
    ins2: Seq<(Seq<u8>, Seq<u8>)>,
    dels2: Seq<Seq<u8>>,
)
    requires
        record_value(id1, ins1, dels1) == record_value(id2, ins2, dels2),
        record_value(id1, ins1, dels1).len() <= usize::MAX,
    ensures
        id1 == id2,
        ins1 == ins2,
        dels1 == dels2,
{
    let p1 = rlp_string(id1) + rlp_list(inserts_payload(ins1)) + rlp_list(strings_payload(dels1));
    let p2 = rlp_string(id2) + rlp_list(inserts_payload(ins2)) + rlp_list(strings_payload(dels2));
    assert(rlp_list(p1) + Seq::<u8>::empty() == rlp_list(p2) + Seq::<u8>::empty());
    lemma_list_prefix_free(p1, Seq::empty(), p2, Seq::empty());
    lemma_rlp_lens(p1);
    let t1 = rlp_list(inserts_payload(ins1)) + rlp_list(strings_payload(dels1));
    let t2 = rlp_list(inserts_payload(ins2)) + rlp_list(strings_payload(dels2));
    assert(p1 =~= rlp_string(id1) + t1);
    assert(p2 =~= rlp_string(id2) + t2);
    lemma_string_prefix_free(id1, t1, id2, t2);
    lemma_list_prefix_free(inserts_payload(ins1), rlp_list(strings_payload(dels1)), inserts_payload(ins2), rlp_list(strings_payload(dels2)));
    assert(rlp_list(strings_payload(dels1)) + Seq::<u8>::empty() == rlp_list(strings_payload(dels2)) + Seq::<u8>::empty());
    lemma_list_prefix_free(strings_payload(dels1), Seq::empty(), strings_payload(dels2), Seq::empty());
    lemma_rlp_lens(inserts_payload(ins1));
    lemma_rlp_lens(strings_payload(dels1));
    lemma_inserts_injective(ins1, ins2);
    lemma_strings_injective(dels1, dels2);
}

} // verus!
