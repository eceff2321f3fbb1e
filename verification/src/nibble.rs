//! Nibbles (half bytes) and the hex-prefix encoding of nibble paths used by
//! Merkle Patricia tries.

use smallvec::SmallVec;
use vstd::prelude::*;

verus! {

/// A half byte, always in `0..16`.
#[derive(Copy, Clone, PartialEq, Eq, Structural, PartialOrd, Ord, Debug)]
pub struct Nibble(u8);

impl Nibble {
    #[verifier::type_invariant]
    spec fn below_sixteen(self) -> bool {
        self.0 < 16
    }

    /// The numeric value of the nibble.
    pub closed spec fn value(self) -> u8 {
        self.0
    }

    /// The nibble as a byte.
    pub fn inner(self) -> (r: u8)
        ensures
            r == self.value(),
            r < 16,
    {
        proof {
            use_type_invariant(self);
        }
        self.0
    }

    /// The high half of a byte.
    pub fn from_hi(x: u8) -> (r: Self)
        ensures
            r.value() == x / 16,
    {
        assert((x >> 4u8) == x / 16 && x / 16 < 16) by (bit_vector);
        Nibble(x >> 4)
    }

    /// The low half of a byte.
    pub fn from_lo(x: u8) -> (r: Self)
        ensures
            r.value() == x % 16,
    {
        assert((x & 0xfu8) == x % 16 && x % 16 < 16) by (bit_vector);
        Nibble(x & 0xf)
    }

    /// Both halves of a byte, high half first.
    pub fn from_hi_and_lo(x: u8) -> (r: [Self; 2])
        ensures
            r@.len() == 2,
            r@[0].value() == x / 16,
            r@[1].value() == x % 16,
    {
        [Self::from_hi(x), Self::from_lo(x)]
    }

    /// The byte whose high half is `hi` and low half is `lo`.
    pub fn combine_pair(hi: Nibble, lo: Nibble) -> (r: u8)
        ensures
            r == hi.value() * 16 + lo.value(),
    {
        proof {
            use_type_invariant(hi);
            use_type_invariant(lo);
        }
        let h = hi.0;
        let l = lo.0;
        assert(h < 16 && l < 16 ==> ((h << 4u8) | l) == h * 16 + l) by (bit_vector);
        (h << 4) | l
    }

    /// The nibble 0.
    pub fn zero() -> (r: Self)
        ensures
            r.value() == 0,
    {
        Nibble(0)
    }

    /// `true` for the nibble 0.
    pub fn is_zero(self) -> (r: bool)
        ensures
            r == (self.value() == 0),
    {
        self.0 == 0
    }

    /// All sixteen nibbles in increasing order.
    pub fn all() -> (r: Vec<Nibble>)
        ensures
            r@.len() == 16,
            forall|i: int| 0 <= i < 16 ==> (#[trigger] r@[i]).value() == i,
    {
        let mut r: Vec<Nibble> = Vec::new();
        let mut i: u8 = 0;
        while i < 16
            invariant
                i <= 16,
                r@.len() == i,
                forall|j: int| 0 <= j < i ==> (#[trigger] r@[j]).value() == j,
            decreases 16 - i,
        {
            r.push(Nibble::from_lo(i));
            i = i + 1;
        }
        r
    }
}

/// Combining the two halves of a byte, as `from_hi` and `from_lo` give them,
/// gives the byte back.
pub proof fn lemma_halves_combine(x: u8)
    ensures
        (x / 16) * 16 + x % 16 == x,
        x / 16 < 16,
        x % 16 < 16,
{
}

/// Nibbles with the same value are the same nibble.
pub proof fn lemma_value_injective(a: Nibble, b: Nibble)
    ensures
        a.value() == b.value() <==> a == b,
{
}

/// Sequences of nibbles with the same values are the same sequence.
pub proof fn lemma_values_injective(a: Seq<Nibble>, b: Seq<Nibble>)
    requires
        values(a) == values(b),
    ensures
        a == b,
{
    assert(a.len() == values(a).len());
    assert(b.len() == values(b).len());
    assert forall|i: int| 0 <= i < a.len() implies a[i] == b[i] by {
        assert(values(a)[i] == a[i].value());
        assert(values(b)[i] == b[i].value());
        lemma_value_injective(a[i], b[i]);
    }
    assert(a =~= b);
}

/// The numeric values of a sequence of nibbles.
pub open spec fn values(s: Seq<Nibble>) -> Seq<u8> {
    s.map_values(|n: Nibble| n.value())
}

/// The nibbles of a byte string, high half of each byte first.
pub open spec fn spec_nibbles(bytes: Seq<u8>) -> Seq<u8> {
    Seq::new(
        2 * bytes.len(),
        |j: int|
            if j % 2 == 0 {
                bytes[j / 2] / 16
            } else {
                bytes[j / 2] % 16
            },
    )
}

/// The bytes obtained by packing an even number of nibble values pairwise.
pub open spec fn spec_pack(nibs: Seq<u8>) -> Seq<u8> {
    Seq::new(nibs.len() / 2, |i: int| (nibs[2 * i] * 16 + nibs[2 * i + 1]) as u8)
}

/// The nibbles that lead a hex-prefix encoded path: the flag nibble, followed
/// by a zero nibble when the path has an even length.
pub open spec fn spec_hp_prefix(len: nat, leaf: bool) -> Seq<u8> {
    let flag: u8 = if leaf { 2 } else { 0 };
    if len % 2 == 1 {
        seq![(flag + 1) as u8]
    } else {
        seq![flag, 0u8]
    }
}

/// Hex-prefix encoding of a nibble path with its leaf flag.
pub open spec fn spec_hp_encode(key: Seq<u8>, leaf: bool) -> Seq<u8> {
    spec_pack(spec_hp_prefix(key.len(), leaf) + key)
}

/// Decoding of a hex-prefix encoded path: the path and the leaf flag.
pub open spec fn spec_hp_decode(bytes: Seq<u8>) -> (Seq<u8>, bool) {
    let nibs = spec_nibbles(bytes);
    let flag = nibs[0];
    (nibs.skip(if flag % 2 == 1 { 1 } else { 2 }), flag % 4 >= 2)
}

/// The nibbles of `data`, high half of each byte first.
pub fn nibble_iter(data: &[u8]) -> (r: Vec<Nibble>)
    requires
        2 * data@.len() <= usize::MAX,
    ensures
        values(r@) == spec_nibbles(data@),
{
    let mut r: Vec<Nibble> = Vec::with_capacity(2 * data.len());
    let mut i: usize = 0;
    while i < data.len()
        invariant
            i <= data@.len(),
            2 * data@.len() <= usize::MAX,
            r@.len() == 2 * i,
            forall|j: int| 0 <= j < 2 * i ==> (#[trigger] r@[j]).value() == spec_nibbles(data@)[j],
        decreases data@.len() - i,
    {
        let b = data[i];
        r.push(Nibble::from_hi(b));
        r.push(Nibble::from_lo(b));
        i = i + 1;
    }
    assert(values(r@) =~= spec_nibbles(data@));
    r
}

/// The nibbles of `data`, high half of each byte first.
pub fn bytes_to_nibble_list(data: Vec<u8>) -> (r: Vec<Nibble>)
    requires
        2 * data@.len() <= usize::MAX,
    ensures
        values(r@) == spec_nibbles(data@),
{
    nibble_iter(data.as_slice())
}

/// Decodes a hex-prefix encoded path into its nibbles and its leaf flag.
pub fn from_mpt_key(key: Vec<u8>) -> (r: (Vec<Nibble>, bool))
    requires
        key@.len() >= 1,
        2 * key@.len() <= usize::MAX,
    ensures
        values(r.0@) == spec_hp_decode(key@).0,
        r.1 == spec_hp_decode(key@).1,
{
    let nibs = nibble_iter(key.as_slice());
    assert(nibs@.len() == values(nibs@).len());
    assert(values(nibs@).len() == spec_nibbles(key@).len());
    let ty = nibs[0].inner();
    let skip: usize = if (ty & 0x1) == 0 { 2 } else { 1 };
    assert((ty & 1u8) == 0 <==> ty % 2 == 0) by (bit_vector);
    assert(((ty & 2u8) != 0) <==> ty % 4 >= 2) by (bit_vector);
    let leaf = (ty & 0x2) != 0;
    let mut out: Vec<Nibble> = Vec::new();
    let mut i: usize = skip;
    while i < nibs.len()
        invariant
            skip <= i <= nibs@.len(),
            nibs@.len() == 2 * key@.len(),
            out@.len() == i - skip,
            forall|j: int| 0 <= j < out@.len() ==> #[trigger] out@[j] == nibs@[j + skip],
        decreases nibs@.len() - i,
    {
        out.push(nibs[i]);
        i = i + 1;
    }
    proof {
        assert(values(nibs@)[0] == ty);
        assert(values(out@) =~= values(nibs@).skip(skip as int));
    }
    (out, leaf)
}

/// A small inline buffer of nibbles, backed by `smallvec::SmallVec`.
#[verifier::external_body]
pub struct NibbleBuffer {
    inner: SmallVec<[Nibble; 4]>,
}

/// The nibbles held by a small inline buffer.
pub uninterp spec fn buffer_contents(b: NibbleBuffer) -> Seq<Nibble>;

/// `SmallVec::from_slice`: a buffer holding a copy of `nibs`.
#[verifier::external_body]
fn buffer_from_slice(nibs: &[Nibble]) -> (r: NibbleBuffer)
    ensures
        buffer_contents(r) == nibs@,
{
    NibbleBuffer { inner: SmallVec::from_slice(nibs) }
}

/// `SmallVec::len`: the number of nibbles in the buffer.
#[verifier::external_body]
fn buffer_len(b: &NibbleBuffer) -> (r: usize)
    ensures
        r == buffer_contents(*b).len(),
{
    b.inner.len()
}

/// `SmallVec::as_slice`, indexed: the nibble at position `i`.
#[verifier::external_body]
fn buffer_get(b: &NibbleBuffer, i: usize) -> (r: Nibble)
    requires
        i < buffer_contents(*b).len(),
    ensures
        r == buffer_contents(*b)[i as int],
{
    b.inner.as_slice()[i]
}

/// Every value of `s` is a nibble value.
pub open spec fn all_nibbles(s: Seq<u8>) -> bool {
    forall|i: int| 0 <= i < s.len() ==> #[trigger] s[i] < 16
}

/// Hex-prefix encodes a nibble path with its leaf flag.
pub fn to_mpt_key(key: &[Nibble], leaf: bool) -> (r: Vec<u8>)
    ensures
        r@ == spec_hp_encode(values(key@), leaf),
        all_nibbles(values(key@)),
        spec_hp_decode(r@) == (values(key@), leaf),
{
    let odd = key.len() % 2 == 1;
    let prefix = if odd {
        if leaf {
            buffer_from_slice(&[Nibble(3)])
        } else {
            buffer_from_slice(&[Nibble(1)])
        }
    } else {
        if leaf {
            buffer_from_slice(&[Nibble(2), Nibble(0)])
        } else {
            buffer_from_slice(&[Nibble(0), Nibble(0)])
        }
    };
    let ghost all = values(buffer_contents(prefix)) + values(key@);
    assert(values(buffer_contents(prefix)) =~= spec_hp_prefix(values(key@).len(), leaf));
    let plen = buffer_len(&prefix);
    let klen = key.len();
    let count = klen / 2 + 1;
    assert(all.len() == 2 * count);
    let mut answer: Vec<u8> = Vec::with_capacity(count);
    let mut i: usize = 0;
    while i < count
        invariant
            klen == key@.len(),
            count == key@.len() / 2 + 1,
            plen == buffer_contents(prefix).len(),
            all == values(buffer_contents(prefix)) + values(key@),
            all.len() == 2 * count,
            i <= count,
            answer@.len() == i,
            forall|j: int| 0 <= j < i ==> #[trigger] answer@[j] == spec_pack(all)[j],
            forall|j: int| 0 <= j < 2 * i ==> #[trigger] all[j] < 16,
        decreases count - i,
    {
        let h = 2 * i;
        let l = 2 * i + 1;
        let hi = if h < plen { buffer_get(&prefix, h) } else { key[h - plen] };
        let lo = if l < plen { buffer_get(&prefix, l) } else { key[l - plen] };
        assert(hi.value() == all[h as int]);
        assert(lo.value() == all[l as int]);
        proof {
            use_type_invariant(hi);
            use_type_invariant(lo);
        }
        answer.push(Nibble::combine_pair(hi, lo));
        i = i + 1;
    }
    assert(answer@ =~= spec_pack(all));
    assert(all_nibbles(values(key@))) by {
        assert forall|j: int| 0 <= j < values(key@).len() implies #[trigger] values(key@)[j] < 16 by {
            assert(values(key@)[j] == all[plen + j]);
        }
    }
    proof {
        lemma_hp_roundtrip(values(key@), leaf);
    }
    answer
}

/// Splitting packed bytes back into nibbles gives the packed nibbles.
pub proof fn lemma_nibbles_of_pack(a: Seq<u8>)
    requires
        a.len() % 2 == 0,
        all_nibbles(a),
    ensures
        spec_nibbles(spec_pack(a)) == a,
{
    let n = spec_nibbles(spec_pack(a));
    assert forall|j: int| 0 <= j < a.len() implies n[j] == a[j] by {
        let i = j / 2;
        let h = a[2 * i];
        let l = a[2 * i + 1];
        assert(h < 16 && l < 16);
        assert(spec_pack(a)[i] == h * 16 + l);
        assert((h * 16 + l) / 16 == h && (h * 16 + l) % 16 == l) by (nonlinear_arith)
            requires
                h < 16,
                l < 16,
        ;
    }
    assert(n =~= a);
}

/// Hex-prefix decoding undoes hex-prefix encoding: the path and the leaf
/// flag come back unchanged.
pub proof fn lemma_hp_roundtrip(key: Seq<u8>, leaf: bool)
    requires
        all_nibbles(key),
    ensures
        spec_hp_decode(spec_hp_encode(key, leaf)) == (key, leaf),
{
    let p = spec_hp_prefix(key.len(), leaf);
    let a = p + key;
    assert(all_nibbles(a));
    lemma_nibbles_of_pack(a);
    let d = spec_hp_decode(spec_hp_encode(key, leaf));
    assert(d.0 =~= key);
}

/// The bytes of a hex-prefix encoding: the first holds the flag nibble (1
/// for an extension, 3 for a leaf) and the first nibble of an odd path, or
/// the flag nibble (0 or 2) and a zero nibble for an even path; each later
/// byte packs the next two nibbles of the path, high nibble first.
pub proof fn lemma_hp_encode_bytes(key: Seq<u8>, leaf: bool)
    requires
        all_nibbles(key),
    ensures
        spec_hp_encode(key, leaf).len() == key.len() / 2 + 1,
        key.len() % 2 == 1 ==> spec_hp_encode(key, leaf)[0] == (if leaf {
            0x30u8
        } else {
            0x10u8
        }) + key[0],
        key.len() % 2 == 1 ==> forall|i: int|
            1 <= i < spec_hp_encode(key, leaf).len() ==> #[trigger] spec_hp_encode(key, leaf)[i] == key[2 * i - 1] * 16
                + key[2 * i],
        key.len() % 2 == 0 ==> spec_hp_encode(key, leaf)[0] == (if leaf {
            0x20u8
        } else {
            0x00u8
        }),
        key.len() % 2 == 0 ==> forall|i: int|
            1 <= i < spec_hp_encode(key, leaf).len() ==> #[trigger] spec_hp_encode(key, leaf)[i] == key[2 * i - 2] * 16
                + key[2 * i - 1],
{
    let p = spec_hp_prefix(key.len(), leaf);
    let a = p + key;
    let r = spec_hp_encode(key, leaf);
    assert(r == spec_pack(a));
    if key.len() % 2 == 1 {
        assert(a.len() == key.len() + 1);
        assert(a[0] == (if leaf { 3u8 } else { 1u8 }));
        assert(a[1] == key[0]);
        assert forall|i: int| 1 <= i < r.len() implies #[trigger] r[i] == key[2 * i - 1] * 16 + key[2 * i] by {
            assert(a[2 * i] == key[2 * i - 1]);
            assert(a[2 * i + 1] == key[2 * i]);
            assert(key[2 * i - 1] < 16 && key[2 * i] < 16);
        }
    } else {
        assert(a.len() == key.len() + 2);
        assert(a[0] == (if leaf { 2u8 } else { 0u8 }));
        assert(a[1] == 0);
        assert forall|i: int| 1 <= i < r.len() implies #[trigger] r[i] == key[2 * i - 2] * 16 + key[2 * i - 1] by {
            assert(a[2 * i] == key[2 * i - 2]);
            assert(a[2 * i + 1] == key[2 * i - 1]);
            assert(key[2 * i - 2] < 16 && key[2 * i - 1] < 16);
        }
    }
}

/// Hex-prefix encoding a path of nibbles and decoding it gives the same
/// path and flag back: what `to_mpt_key` gives, `from_mpt_key` turns back
/// into the nibbles and flag it was given.
pub proof fn lemma_mpt_key_roundtrip(key: Seq<Nibble>, leaf: bool, back: Seq<Nibble>, flag: bool)
    requires
        all_nibbles(values(key)),
        values(back) == spec_hp_decode(spec_hp_encode(values(key), leaf)).0,
        flag == spec_hp_decode(spec_hp_encode(values(key), leaf)).1,
    ensures
        back == key,
        flag == leaf,
{
    lemma_hp_roundtrip(values(key), leaf);
    lemma_values_injective(back, key);
}

/// Packing the nibbles of a byte string gives the byte string back.
pub proof fn lemma_pack_of_nibbles(b: Seq<u8>)
    ensures
        spec_pack(spec_nibbles(b)) == b,
{
    let p = spec_pack(spec_nibbles(b));
    assert forall|i: int| 0 <= i < b.len() implies p[i] == b[i] by {
        let x = b[i];
        assert(spec_nibbles(b)[2 * i] == x / 16);
        assert(spec_nibbles(b)[2 * i + 1] == x % 16);
        assert((x / 16) * 16 + x % 16 == x) by (nonlinear_arith);
    }
    assert(p =~= b);
}

/// The common prefix of `a` and `b`: the first `k` elements of `a`, where
/// `k` is the first position at which they differ or one of them ends.
pub fn common_prefix_iter(a: &[Nibble], b: &[Nibble]) -> (r: Vec<Nibble>)
    ensures
        r@.len() <= a@.len(),
        r@.len() <= b@.len(),
        r@ == a@.subrange(0, r@.len() as int),
        r@ == b@.subrange(0, r@.len() as int),
        r@.len() < a@.len() && r@.len() < b@.len() ==> a@[r@.len() as int] != b@[r@.len() as int],
{
    let mut r: Vec<Nibble> = Vec::new();
    let mut i: usize = 0;
    while i < a.len() && i < b.len() && a[i] == b[i]
        invariant
            i <= a@.len(),
            i <= b@.len(),
            r@ == a@.subrange(0, i as int),
            r@ == b@.subrange(0, i as int),
        decreases a@.len() - i,
    {
        r.push(a[i]);
        i = i + 1;
    }
    r
}

/// Puts `prefix` in front of `base`.
pub fn add_prefix<T: Copy>(base: &mut Vec<T>, prefix: &[T])
    ensures
        final(base)@ == prefix@ + old(base)@,
{
    let mut out: Vec<T> = Vec::new();
    let mut i: usize = 0;
    while i < prefix.len()
        invariant
            i <= prefix@.len(),
            out@ == prefix@.subrange(0, i as int),
        decreases prefix@.len() - i,
    {
        out.push(prefix[i]);
        i = i + 1;
    }
    let mut j: usize = 0;
    while j < base.len()
        invariant
            j <= base@.len(),
            out@ == prefix@ + base@.subrange(0, j as int),
        decreases base@.len() - j,
    {
        out.push(base[j]);
        j = j + 1;
    }
    assert(base@.subrange(0, base@.len() as int) =~= base@);
    *base = out;
}

} // verus!
