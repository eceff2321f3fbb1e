//! Reading a trie node back from its stored encoding: the list of a leaf's
//! or an extension's hex-prefix key and value or child, or of a branch's
//! sixteen children and value, where a child is absent, a 32-byte hash, or a
//! small node inlined.

use crate::nibble::{all_nibbles, from_mpt_key, lemma_hp_roundtrip, spec_hp_decode, spec_hp_encode, values};
use crate::rlp_codec::{lemma_be_usize_len, rlp_list, rlp_string};
use crate::rlp_decode::{
    copy_hash, copy_range, lemma_list_prefix_free, lemma_rlp_lens, lemma_string_prefix_free, read_bytes,
    read_list,
};
use crate::trie_node::{child_rlp, children_rlp, node_rlp, ChildRef, ChildRefGroup, TrieNode};
use crate::trie_store::same_bytes;
use vstd::prelude::*;

verus! {

broadcast use vstd::std_specs::vec::group_vec_axioms;

/// A node in the form that decoding gives: keys of nibbles, branches of
/// sixteen children, and children that are absent, hashes, or nodes of the
/// same form whose encoding is shorter than 32 bytes.
pub open spec fn decodable(n: TrieNode) -> bool
    decreases n,
{
    match n {
        TrieNode::Leaf { key, value } => all_nibbles(values(key@)),
        TrieNode::Extension { key, child } => all_nibbles(values(key@)) && decodable_child(child),
        TrieNode::Branch { children, value } => children.0@.len() == 16 && all_decodable(children.0@),
    }
}

/// A child in the form that decoding gives (see `decodable`).
pub open spec fn decodable_child(c: ChildRef) -> bool
    decreases c,
{
    match c {
        ChildRef::Null => true,
        ChildRef::Ref(_) => true,
        ChildRef::Owned(b) => decodable(*b) && node_rlp(*b).len() < 32,
    }
}

/// Every child in `cs` is in the form that decoding gives.
pub open spec fn all_decodable(cs: Seq<ChildRef>) -> bool
    decreases cs,
{
    if cs.len() == 0 {
        true
    } else {
        decodable_child(cs.last()) && all_decodable(cs.drop_last())
    }
}

/// The items of a node's encoding, before the list header.
pub open spec fn node_payload(n: TrieNode) -> Seq<u8> {
    match n {
        TrieNode::Leaf { key, value } => rlp_string(spec_hp_encode(values(key@), true)) + rlp_string(value@),
        TrieNode::Extension { key, child } => rlp_string(spec_hp_encode(values(key@), false)) + child_rlp(child),
        TrieNode::Branch { children, value } => children_rlp(children.0@) + rlp_string(value@),
    }
}

/// A node's encoding is the list of its items.
proof fn lemma_node_payload(n: TrieNode)
    ensures
        node_rlp(n) == rlp_list(node_payload(n)),
{
}

/// Each child of a sequence in decodable form is in decodable form.
proof fn lemma_all_decodable_at(cs: Seq<ChildRef>, i: int)
    requires
        all_decodable(cs),
        0 <= i < cs.len(),
    ensures
        decodable_child(cs[i]),
    decreases cs.len(),
{
    if i < cs.len() - 1 {
        lemma_all_decodable_at(cs.drop_last(), i);
    }
}

/// The encodings of children joined are those of the two parts joined.
proof fn lemma_children_rlp_concat(a: Seq<ChildRef>, b: Seq<ChildRef>)
    ensures
        children_rlp(a + b) == children_rlp(a) + children_rlp(b),
    decreases b.len(),
{
    if b.len() == 0 {
        assert(a + b =~= a);
        assert(children_rlp(b) =~= Seq::<u8>::empty());
        assert(children_rlp(a) + children_rlp(b) =~= children_rlp(a));
    } else {
        lemma_children_rlp_concat(a, b.drop_last());
        assert((a + b).drop_last() =~= a + b.drop_last());
        assert((a + b).last() == b.last());
        assert(children_rlp(a) + children_rlp(b) =~= children_rlp(a) + children_rlp(b.drop_last()) + child_rlp(
            b.last(),
        ));
    }
}

/// An encoded string starts below `0xc0`; an encoded list at `0xc0` or
/// above.
proof fn lemma_first_byte(x: Seq<u8>)
    requires
        x.len() <= usize::MAX,
    ensures
        rlp_string(x).len() > 0,
        rlp_string(x)[0] < 0xc0,
        rlp_list(x)[0] >= 0xc0,
{
    lemma_be_usize_len(x.len() as usize);
}

/// Hex-prefix encoding takes at least one byte and decodes back.
proof fn lemma_hp_nonempty(key: Seq<u8>, leaf: bool)
    requires
        all_nibbles(key),
    ensures
        spec_hp_encode(key, leaf).len() >= 1,
        spec_hp_decode(spec_hp_encode(key, leaf)) == (key, leaf),
{
    lemma_hp_roundtrip(key, leaf);
}

/// The nibbles of a hex-prefix decoding are nibbles.
proof fn lemma_hp_decode_nibbles(k: Seq<u8>)
    requires
        k.len() >= 1,
    ensures
        all_nibbles(spec_hp_decode(k).0),
{
    let d = spec_hp_decode(k).0;
    assert forall|i: int| 0 <= i < d.len() implies #[trigger] d[i] < 16 by {
        let nibs = crate::nibble::spec_nibbles(k);
        let off = if nibs[0] % 2 == 1 { 1int } else { 2int };
        assert(d[i] == nibs[i + off]);
    }
}

/// Two nodes alike: the same kind, key, value and children.
pub open spec fn same_node(a: TrieNode, b: TrieNode) -> bool
    decreases a,
{
    match (a, b) {
        (TrieNode::Leaf { key: ka, value: va }, TrieNode::Leaf { key: kb, value: vb }) => values(ka@) == values(kb@)
            && va@ == vb@,
        (TrieNode::Extension { key: ka, child: ca }, TrieNode::Extension { key: kb, child: cb }) => values(ka@)
            == values(kb@) && same_child(ca, cb),
        (TrieNode::Branch { children: ca, value: va }, TrieNode::Branch { children: cb, value: vb }) => va@ == vb@
            && same_children(ca.0@, cb.0@),
        _ => false,
    }
}

/// Two children alike: both absent, the same hash, or alike nodes.
pub open spec fn same_child(c: ChildRef, d: ChildRef) -> bool
    decreases c,
{
    match (c, d) {
        (ChildRef::Null, ChildRef::Null) => true,
        (ChildRef::Ref(h), ChildRef::Ref(g)) => h@ == g@,
        (ChildRef::Owned(x), ChildRef::Owned(y)) => same_node(*x, *y),
        _ => false,
    }
}

/// Two sequences of children alike, position by position.
pub open spec fn same_children(cs: Seq<ChildRef>, ds: Seq<ChildRef>) -> bool
    decreases cs,
{
    if cs.len() == 0 {
        ds.len() == 0
    } else {
        ds.len() == cs.len() && same_child(cs.last(), ds.last()) && same_children(cs.drop_last(), ds.drop_last())
    }
}

/// The encodings of children, the first child's first.
proof fn lemma_children_rlp_front(cs: Seq<ChildRef>)
    requires
        cs.len() > 0,
    ensures
        children_rlp(cs) == child_rlp(cs[0]) + children_rlp(cs.drop_first()),
{
    lemma_children_rlp_concat(seq![cs[0]], cs.drop_first());
    assert(seq![cs[0]] + cs.drop_first() =~= cs);
    assert(seq![cs[0]].drop_last() =~= Seq::<ChildRef>::empty());
    assert(children_rlp(seq![cs[0]].drop_last()) =~= Seq::<u8>::empty());
    assert(children_rlp(seq![cs[0]]) =~= child_rlp(cs[0]));
}

/// Children alike in the first place and in the rest are alike.
proof fn lemma_same_children_front(cs: Seq<ChildRef>, ds: Seq<ChildRef>)
    requires
        cs.len() > 0,
        cs.len() == ds.len(),
        same_child(cs[0], ds[0]),
        same_children(cs.drop_first(), ds.drop_first()),
    ensures
        same_children(cs, ds),
    decreases cs.len(),
{
    if cs.len() > 1 {
        assert(cs.drop_first().drop_last() =~= cs.drop_last().drop_first());
        assert(ds.drop_first().drop_last() =~= ds.drop_last().drop_first());
        assert(cs.drop_first().last() == cs.last());
        assert(ds.drop_first().last() == ds.last());
        assert(same_child(cs.last(), ds.last()));
        assert(same_children(cs.drop_last().drop_first(), ds.drop_last().drop_first()));
        assert(cs.drop_last()[0] == cs[0] && ds.drop_last()[0] == ds[0]);
        lemma_same_children_front(cs.drop_last(), ds.drop_last());
        assert(same_children(cs.drop_last(), ds.drop_last()));
    } else {
        assert(cs.drop_last().len() == 0 && ds.drop_last().len() == 0);
        assert(cs.last() == cs[0] && ds.last() == ds[0]);
        assert(same_children(cs.drop_last(), ds.drop_last()));
    }
}

/// A child's encoding followed by anything determines what follows.
proof fn lemma_child_rest(c: ChildRef, r1: Seq<u8>, d: ChildRef, r2: Seq<u8>)
    requires
        decodable_child(c),
        decodable_child(d),
        child_rlp(c) + r1 == child_rlp(d) + r2,
        (child_rlp(c) + r1).len() <= usize::MAX,
    ensures
        r1 == r2,
        child_rlp(c) == child_rlp(d),
{
    let t = child_rlp(c) + r1;
    lemma_child_shape(c, r1, t);
    lemma_child_shape(d, r2, t);
    match (c, d) {
        (ChildRef::Owned(x), ChildRef::Owned(y)) => {
            lemma_list_prefix_free(node_payload(*x), r1, node_payload(*y), r2);
        },
        (ChildRef::Null, ChildRef::Null) => {
            lemma_string_prefix_free(Seq::empty(), r1, Seq::empty(), r2);
        },
        (ChildRef::Ref(h), ChildRef::Ref(g)) => {
            lemma_string_prefix_free(h@, r1, g@, r2);
        },
        (ChildRef::Null, ChildRef::Ref(g)) => {
            lemma_string_prefix_free(Seq::empty(), r1, g@, r2);
        },
        (ChildRef::Ref(h), ChildRef::Null) => {
            lemma_string_prefix_free(h@, r1, Seq::empty(), r2);
        },
        _ => {},
    }
}

/// No child's encoding is a proper prefix of another's: a child's encoding
/// followed by anything determines the child and what follows.
proof fn lemma_child_prefix_free(c: ChildRef, r1: Seq<u8>, d: ChildRef, r2: Seq<u8>)
    requires
        decodable_child(c),
        decodable_child(d),
        child_rlp(c) + r1 == child_rlp(d) + r2,
        (child_rlp(c) + r1).len() <= usize::MAX,
    ensures
        same_child(c, d),
        r1 == r2,
    decreases c, 0int,
{
    let t = child_rlp(c) + r1;
    lemma_child_shape(c, r1, t);
    lemma_child_shape(d, r2, t);
    match (c, d) {
        (ChildRef::Owned(x), ChildRef::Owned(y)) => {
            lemma_list_prefix_free(node_payload(*x), r1, node_payload(*y), r2);
            lemma_rlp_lens(node_payload(*x));
            lemma_payload_injective(*x, *y);
        },
        (ChildRef::Null, ChildRef::Null) => {
            lemma_string_prefix_free(Seq::empty(), r1, Seq::empty(), r2);
        },
        (ChildRef::Ref(h), ChildRef::Ref(g)) => {
            lemma_string_prefix_free(h@, r1, g@, r2);
        },
        (ChildRef::Null, ChildRef::Ref(g)) => {
            lemma_string_prefix_free(Seq::empty(), r1, g@, r2);
        },
        (ChildRef::Ref(h), ChildRef::Null) => {
            lemma_string_prefix_free(h@, r1, Seq::empty(), r2);
        },
        _ => {},
    }
}

/// Children whose encodings, followed by anything, agree are alike, and what
/// follows agrees.
proof fn lemma_children_prefix_free(cs: Seq<ChildRef>, r1: Seq<u8>, ds: Seq<ChildRef>, r2: Seq<u8>)
    requires
        all_decodable(cs),
        all_decodable(ds),
        cs.len() == ds.len(),
        children_rlp(cs) + r1 == children_rlp(ds) + r2,
        (children_rlp(cs) + r1).len() <= usize::MAX,
    ensures
        same_children(cs, ds),
        r1 == r2,
    decreases cs, 1int,
{
    if cs.len() == 0 {
        assert(children_rlp(cs) =~= Seq::<u8>::empty());
        assert(children_rlp(ds) =~= Seq::<u8>::empty());
        assert(r1 =~= children_rlp(cs) + r1);
        assert(r2 =~= children_rlp(ds) + r2);
    } else {
        lemma_children_rlp_front(cs);
        lemma_children_rlp_front(ds);
        lemma_all_decodable_at(cs, 0);
        lemma_all_decodable_at(ds, 0);
        lemma_all_decodable_rest(cs);
        lemma_all_decodable_rest(ds);
        let t1 = children_rlp(cs.drop_first()) + r1;
        let t2 = children_rlp(ds.drop_first()) + r2;
        assert(child_rlp(cs[0]) + t1 =~= children_rlp(cs) + r1);
        assert(child_rlp(ds[0]) + t2 =~= children_rlp(ds) + r2);
        assert(decreases_to!(cs => cs[0]));
        lemma_child_prefix_free(cs[0], t1, ds[0], t2);
        lemma_children_prefix_free(cs.drop_first(), r1, ds.drop_first(), r2);
        lemma_same_children_front(cs, ds);
    }
}

/// The children after the first of a sequence in decodable form are in
/// decodable form.
proof fn lemma_all_decodable_rest(cs: Seq<ChildRef>)
    requires
        all_decodable(cs),
        cs.len() > 0,
    ensures
        all_decodable(cs.drop_first()),
    decreases cs.len(),
{
    if cs.len() > 1 {
        lemma_all_decodable_rest(cs.drop_last());
        assert(cs.drop_first().drop_last() =~= cs.drop_last().drop_first());
        assert(cs.drop_first().last() == cs.last());
    } else {
        assert(cs.drop_first().len() == 0);
    }
}

/// Nodes in decodable form with the same items are alike.
proof fn lemma_payload_injective(a: TrieNode, b: TrieNode)
    requires
        decodable(a),
        decodable(b),
        node_payload(a) == node_payload(b),
        node_payload(a).len() <= usize::MAX,
    ensures
        same_node(a, b),
    decreases a, 2int,
{
    let p = node_payload(a);
    match (a, b) {
        (TrieNode::Branch { children: ca, value: va }, TrieNode::Branch { children: cb, value: vb }) => {
            lemma_children_prefix_free(ca.0@, rlp_string(va@), cb.0@, rlp_string(vb@));
            assert(rlp_string(va@) + Seq::<u8>::empty() =~= rlp_string(va@));
            assert(rlp_string(vb@) + Seq::<u8>::empty() =~= rlp_string(vb@));
            lemma_string_prefix_free(va@, Seq::empty(), vb@, Seq::empty());
        },
        (TrieNode::Branch { children: ca, value: va }, _) => {
            lemma_pair_not_branch(b, a);
        },
        (_, TrieNode::Branch { children: cb, value: vb }) => {
            lemma_pair_not_branch(a, b);
        },
        _ => {
            lemma_pair_shape(a);
            lemma_pair_shape(b);
            let (ka, la) = match a {
                TrieNode::Leaf { key, .. } => (values(key@), true),
                TrieNode::Extension { key, .. } => (values(key@), false),
                _ => (Seq::empty(), false),
            };
            let (kb, lb) = match b {
                TrieNode::Leaf { key, .. } => (values(key@), true),
                TrieNode::Extension { key, .. } => (values(key@), false),
                _ => (Seq::empty(), false),
            };
            let sa: Seq<u8> = match a {
                TrieNode::Leaf { value, .. } => rlp_string(value@),
                TrieNode::Extension { child, .. } => child_rlp(child),
                _ => Seq::empty(),
            };
            let sb: Seq<u8> = match b {
                TrieNode::Leaf { value, .. } => rlp_string(value@),
                TrieNode::Extension { child, .. } => child_rlp(child),
                _ => Seq::empty(),
            };
            lemma_string_prefix_free(spec_hp_encode(ka, la), sa, spec_hp_encode(kb, lb), sb);
            match (a, b) {
                (TrieNode::Leaf { value: va, .. }, TrieNode::Leaf { value: vb, .. }) => {
                    assert(rlp_string(va@) + Seq::<u8>::empty() =~= rlp_string(va@));
                    assert(rlp_string(vb@) + Seq::<u8>::empty() =~= rlp_string(vb@));
                    lemma_string_prefix_free(va@, Seq::empty(), vb@, Seq::empty());
                },
                (TrieNode::Extension { child: ca, .. }, TrieNode::Extension { child: cb, .. }) => {
                    assert(child_rlp(ca) + Seq::<u8>::empty() =~= child_rlp(ca));
                    assert(child_rlp(cb) + Seq::<u8>::empty() =~= child_rlp(cb));
                    lemma_child_prefix_free(ca, Seq::empty(), cb, Seq::empty());
                },
                _ => {},
            }
        },
    }
}

/// An encoded string followed by anything, read as a child's encoding
/// followed by something: the child is no inlined node, and what follows
/// agrees.
proof fn lemma_string_vs_child(x: Seq<u8>, r1: Seq<u8>, c: ChildRef, r2: Seq<u8>)
    requires
        decodable_child(c),
        rlp_string(x) + r1 == child_rlp(c) + r2,
        (rlp_string(x) + r1).len() <= usize::MAX,
    ensures
        r1 == r2,
        c is Null ==> x.len() == 0,
{
    let t = rlp_string(x) + r1;
    lemma_child_shape(c, r2, t);
    lemma_first_byte(x);
    lemma_rlp_lens(x);
    match c {
        ChildRef::Null => lemma_string_prefix_free(x, r1, Seq::empty(), r2),
        ChildRef::Ref(h) => lemma_string_prefix_free(x, r1, h@, r2),
        ChildRef::Owned(_) => {},
    }
}

/// A leaf's or an extension's items are never a branch's: two items against
/// seventeen.
proof fn lemma_pair_not_branch(a: TrieNode, b: TrieNode)
    requires
        decodable(a),
        decodable(b),
        !(a is Branch),
        b is Branch,
        node_payload(a).len() <= usize::MAX,
    ensures
        node_payload(a) != node_payload(b),
{
    if node_payload(a) == node_payload(b) {
        lemma_pair_shape(a);
        let cs = b->Branch_children.0@;
        let v = b->Branch_value@;
        let key: Seq<u8> = match a {
            TrieNode::Leaf { key, .. } => values(key@),
            TrieNode::Extension { key, .. } => values(key@),
            _ => Seq::empty(),
        };
        let k = spec_hp_encode(key, a is Leaf);
        let second: Seq<u8> = match a {
            TrieNode::Leaf { value, .. } => rlp_string(value@),
            TrieNode::Extension { child, .. } => child_rlp(child),
            _ => Seq::empty(),
        };
        lemma_children_rlp_front(cs);
        lemma_children_rlp_front(cs.drop_first());
        lemma_all_decodable_at(cs, 0);
        lemma_all_decodable_at(cs, 1);
        assert(cs.drop_first()[0] == cs[1]);
        let rest = children_rlp(cs.drop_first().drop_first()) + rlp_string(v);
        lemma_rlp_lens(v);
        let t = node_payload(a);
        assert(t =~= child_rlp(cs[0]) + (child_rlp(cs[1]) + rest));
        assert(t =~= rlp_string(k) + second);
        lemma_string_vs_child(k, second, cs[0], child_rlp(cs[1]) + rest);
        lemma_pair_second(a, cs[1], rest);
    }
}

/// The second item of a leaf or an extension is its last: it cannot be
/// followed by more items.
proof fn lemma_pair_second(a: TrieNode, c: ChildRef, rest: Seq<u8>)
    requires
        decodable(a),
        decodable_child(c),
        !(a is Branch),
        rest.len() > 0,
        (child_rlp(c) + rest).len() <= usize::MAX,
    ensures
        (match a {
            TrieNode::Leaf { value, .. } => rlp_string(value@),
            TrieNode::Extension { child, .. } => child_rlp(child),
            _ => Seq::empty(),
        }) != child_rlp(c) + rest,
{
    if (match a {
        TrieNode::Leaf { value, .. } => rlp_string(value@),
        TrieNode::Extension { child, .. } => child_rlp(child),
        _ => Seq::empty(),
    }) == child_rlp(c) + rest {
    match a {
        TrieNode::Leaf { value, .. } => {
            assert(rlp_string(value@) + Seq::<u8>::empty() =~= rlp_string(value@));
            lemma_string_vs_child(value@, Seq::empty(), c, rest);
        },
        TrieNode::Extension { child, .. } => {
            assert(child_rlp(child) + Seq::<u8>::empty() =~= child_rlp(child));
            lemma_child_rest(child, Seq::empty(), c, rest);
        },
        _ => {},
    }
    }
}

/// Nodes in decodable form with the same encoding are alike: the encoding
/// of a node determines the node.
pub proof fn lemma_node_rlp_injective(a: TrieNode, b: TrieNode)
    requires
        decodable(a),
        decodable(b),
        node_rlp(a) == node_rlp(b),
        node_rlp(a).len() <= usize::MAX,
    ensures
        same_node(a, b),
{
    lemma_node_payload(a);
    lemma_node_payload(b);
    lemma_rlp_lens(node_payload(a));
    assert(rlp_list(node_payload(a)) + Seq::<u8>::empty() =~= rlp_list(node_payload(a)));
    assert(rlp_list(node_payload(b)) + Seq::<u8>::empty() =~= rlp_list(node_payload(b)));
    lemma_list_prefix_free(node_payload(a), Seq::empty(), node_payload(b), Seq::empty());
    lemma_payload_injective(a, b);
}

/// What a child's encoding followed by `rest` looks like: an encoded string
/// for an absent child or a hash, an encoded list for an inlined node.
proof fn lemma_child_shape(c: ChildRef, rest: Seq<u8>, t: Seq<u8>)
    requires
        decodable_child(c),
        t == child_rlp(c) + rest,
        t.len() <= usize::MAX,
    ensures
        t.len() > 0,
        match c {
            ChildRef::Null => t == rlp_string(Seq::<u8>::empty()) + rest && t[0] < 0xc0,
            ChildRef::Ref(h) => t == rlp_string(h@) + rest && h@.len() == 32 && t[0] < 0xc0,
            ChildRef::Owned(x) => t == rlp_list(node_payload(*x)) + rest && t[0] >= 0xc0 && node_rlp(*x).len()
                < 32 && decodable(*x) && node_rlp(*x) == rlp_list(node_payload(*x)),
        },
{
    match c {
        ChildRef::Null => {
            lemma_first_byte(Seq::<u8>::empty());
        },
        ChildRef::Ref(h) => {
            lemma_rlp_lens(h@);
            lemma_first_byte(h@);
        },
        ChildRef::Owned(x) => {
            lemma_node_payload(*x);
            lemma_rlp_lens(node_payload(*x));
            lemma_first_byte(node_payload(*x));
        },
    }
}

/// The items of a leaf or an extension: its hex-prefix encoded key, which
/// decodes back, then its value or child.
proof fn lemma_pair_shape(n: TrieNode)
    requires
        decodable(n),
        !(n is Branch),
    ensures
        ({
            let (key, leaf) = match n {
                TrieNode::Leaf { key, .. } => (values(key@), true),
                TrieNode::Extension { key, .. } => (values(key@), false),
                _ => (Seq::empty(), false),
            };
            let k = spec_hp_encode(key, leaf);
            &&& k.len() >= 1
            &&& spec_hp_decode(k) == (key, leaf)
            &&& node_payload(n) == rlp_string(k) + match n {
                TrieNode::Leaf { value, .. } => rlp_string(value@),
                TrieNode::Extension { child, .. } => child_rlp(child),
                _ => Seq::empty(),
            }
        }),
{
    match n {
        TrieNode::Leaf { key, .. } => lemma_hp_nonempty(values(key@), true),
        TrieNode::Extension { key, .. } => lemma_hp_nonempty(values(key@), false),
        _ => {},
    }
}

/// The bytes after a prefix `a` of `b[s..e]` that ends at `p`.
proof fn lemma_after(b: Seq<u8>, s: int, e: int, p: int)
    requires
        0 <= s <= p <= e <= b.len(),
    ensures
        forall|a: Seq<u8>, rest: Seq<u8>|
            #![trigger a + rest]
            b.subrange(s, e) == a + rest && p == s + a.len() ==> b.subrange(p, e) == rest,
{
    assert forall|a: Seq<u8>, rest: Seq<u8>|
        #![trigger a + rest]
        b.subrange(s, e) == a + rest && p == s + a.len() implies b.subrange(p, e) == rest by {
        assert(b.subrange(p, e) =~= (a + rest).subrange(a.len() as int, (a + rest).len() as int));
        assert((a + rest).subrange(a.len() as int, (a + rest).len() as int) =~= rest);
    }
}

/// The child encoded at `pos`, ending by `end`, and where it ends: an empty
/// string is no child, a 32-byte string a hash, a list shorter than 32
/// bytes an inlined node.
fn read_child(b: &[u8], pos: usize, end: usize) -> (r: Option<(ChildRef, usize)>)
    requires
        0 < pos <= end <= b@.len(),
        b@.len() <= usize::MAX / 2,
    ensures
        r matches Some(p) ==> decodable_child(p.0) && pos <= p.1 <= end,
        forall|c: ChildRef, rest: Seq<u8>|
            #![trigger child_rlp(c) + rest]
            decodable_child(c) && b@.subrange(pos as int, end as int) == child_rlp(c) + rest ==> (r matches Some(
                p,
            ) && child_rlp(p.0) == child_rlp(c) && p.1 == pos + child_rlp(c).len()),
    decreases b@.len(), 0int,
{
    if pos >= end {
        proof {
            assert forall|c: ChildRef, rest: Seq<u8>|
                #![trigger child_rlp(c) + rest]
                decodable_child(c) && b@.subrange(pos as int, end as int) == child_rlp(c) + rest implies false by {
                match c {
                    ChildRef::Owned(x) => {
                        lemma_node_payload(*x);
                        lemma_rlp_lens(node_payload(*x));
                    },
                    ChildRef::Null => {},
                    ChildRef::Ref(h) => {},
                }
                assert((child_rlp(c) + rest).len() > 0);
            }
        }
        return None;
    }
    if b[pos] >= 0xc0 {
        match read_list(b, pos, end) {
            Some((s, e)) => {
                if e - pos >= 32 {
                    proof {
                        assert forall|c: ChildRef, rest: Seq<u8>|
                            #![trigger child_rlp(c) + rest]
                            decodable_child(c) && b@.subrange(pos as int, end as int) == child_rlp(c) + rest implies false by {
                            lemma_child_shape(c, rest, b@.subrange(pos as int, end as int));
                            if let ChildRef::Owned(x) = c {
                                lemma_node_payload(*x);
                            }
                        }
                    }
                    return None;
                }
                let v = copy_range(b, pos, e);
                match decode_node(v.as_slice()) {
                    Some(n) => {
                        proof {
                            assert forall|c: ChildRef, rest: Seq<u8>|
                                #![trigger child_rlp(c) + rest]
                                decodable_child(c) && b@.subrange(pos as int, end as int) == child_rlp(c) + rest implies (
                                child_rlp(ChildRef::Owned(Box::new(n))) == child_rlp(c) && e == pos + child_rlp(c).len()) by {
                                lemma_child_shape(c, rest, b@.subrange(pos as int, end as int));
                                if let ChildRef::Owned(x) = c {
                                    lemma_node_payload(*x);
                                    assert(b@.subrange(pos as int, e as int) =~= node_rlp(*x)) by {
                                        assert(b@.subrange(pos as int, e as int) =~= b@.subrange(pos as int, end as int).subrange(0, (e - pos) as int));
                                    }
                                }
                            }
                        }
                        Some((ChildRef::Owned(Box::new(n)), e))
                    },
                    None => {
                        proof {
                            assert forall|c: ChildRef, rest: Seq<u8>|
                                #![trigger child_rlp(c) + rest]
                                decodable_child(c) && b@.subrange(pos as int, end as int) == child_rlp(c) + rest implies false by {
                                lemma_child_shape(c, rest, b@.subrange(pos as int, end as int));
                                if let ChildRef::Owned(x) = c {
                                    lemma_node_payload(*x);
                                    assert(b@.subrange(pos as int, e as int) =~= b@.subrange(pos as int, end as int).subrange(0, (e - pos) as int));
                                    assert(v@ == node_rlp(*x));
                                }
                            }
                        }
                        None
                    },
                }
            },
            None => {
                proof {
                    assert forall|c: ChildRef, rest: Seq<u8>|
                        #![trigger child_rlp(c) + rest]
                        decodable_child(c) && b@.subrange(pos as int, end as int) == child_rlp(c) + rest implies false by {
                        lemma_child_shape(c, rest, b@.subrange(pos as int, end as int));
                        if let ChildRef::Owned(x) = c {
                            lemma_node_payload(*x);
                        }
                    }
                }
                None
            },
        }
    } else {
        match read_bytes(b, pos, end) {
            Some((x, e)) => {
                if x.len() == 0 {
                    proof {
                        assert forall|c: ChildRef, rest: Seq<u8>|
                            #![trigger child_rlp(c) + rest]
                            decodable_child(c) && b@.subrange(pos as int, end as int) == child_rlp(c) + rest implies (
                            child_rlp(ChildRef::Null) == child_rlp(c) && e == pos + child_rlp(c).len()) by {
                            lemma_child_shape(c, rest, b@.subrange(pos as int, end as int));
                            assert(x@ =~= Seq::<u8>::empty());
                        }
                    }
                    Some((ChildRef::Null, e))
                } else if x.len() == 32 {
                    let h = copy_hash(x.as_slice(), 0);
                    assert(h@ =~= x@);
                    proof {
                        assert forall|c: ChildRef, rest: Seq<u8>|
                            #![trigger child_rlp(c) + rest]
                            decodable_child(c) && b@.subrange(pos as int, end as int) == child_rlp(c) + rest implies (
                            child_rlp(ChildRef::Ref(h)) == child_rlp(c) && e == pos + child_rlp(c).len()) by {
                            lemma_child_shape(c, rest, b@.subrange(pos as int, end as int));
                        }
                    }
                    Some((ChildRef::Ref(h), e))
                } else {
                    proof {
                        assert forall|c: ChildRef, rest: Seq<u8>|
                            #![trigger child_rlp(c) + rest]
                            decodable_child(c) && b@.subrange(pos as int, end as int) == child_rlp(c) + rest implies false by {
                            lemma_child_shape(c, rest, b@.subrange(pos as int, end as int));
                        }
                    }
                    None
                }
            },
            None => {
                proof {
                    assert forall|c: ChildRef, rest: Seq<u8>|
                        #![trigger child_rlp(c) + rest]
                        decodable_child(c) && b@.subrange(pos as int, end as int) == child_rlp(c) + rest implies false by {
                        lemma_child_shape(c, rest, b@.subrange(pos as int, end as int));
                    }
                }
                None
            },
        }
    }
}

/// The leaf or extension whose items are `b[s..e]`.
fn decode_pair(b: &[u8], s: usize, e: usize) -> (r: Option<TrieNode>)
    requires
        0 < s <= e <= b@.len(),
        b@.len() <= usize::MAX / 2,
    ensures
        r matches Some(m) ==> decodable(m),
        forall|n: TrieNode|
            #![trigger node_payload(n)]
            decodable(n) && !(n is Branch) && b@.subrange(s as int, e as int) == node_payload(n) ==> (r matches Some(m)
                && node_payload(m) == node_payload(n)),
    decreases b@.len(), 1int,
{
    let ghost canon = exists|n: TrieNode|
        #![trigger node_payload(n)]
        decodable(n) && !(n is Branch) && b@.subrange(s as int, e as int) == node_payload(n);
    let ghost w = choose|n: TrieNode|
        #![trigger node_payload(n)]
        decodable(n) && !(n is Branch) && b@.subrange(s as int, e as int) == node_payload(n);
    let ghost wkey: Seq<u8> = match w {
        TrieNode::Leaf { key, .. } => values(key@),
        TrieNode::Extension { key, .. } => values(key@),
        _ => Seq::empty(),
    };
    let ghost wleaf: bool = w is Leaf;
    let ghost kk = spec_hp_encode(wkey, wleaf);
    let ghost second: Seq<u8> = match w {
        TrieNode::Leaf { value, .. } => rlp_string(value@),
        TrieNode::Extension { child, .. } => child_rlp(child),
        _ => Seq::empty(),
    };
    assert(canon ==> (b@.subrange(s as int, e as int) == rlp_string(kk) + second && kk.len() >= 1 && spec_hp_decode(
        kk,
    ) == (wkey, wleaf) && rlp_string(kk).len() >= kk.len() && decodable(w) && !(w is Branch))) by {
        if canon {
            lemma_pair_shape(w);
            lemma_rlp_lens(kk);
        }
    }
    let (k, p1) = match read_bytes(b, s, e) {
        Some(x) => x,
        None => {
            assert(!canon);
            return None;
        },
    };
    assert(canon ==> (k@ == kk && p1 == s + rlp_string(kk).len() && b@.subrange(p1 as int, e as int) == second)) by {
        if canon {
            assert(k@ == kk && p1 == s + rlp_string(kk).len());
            lemma_after(b@, s as int, e as int, p1 as int);
        }
    }
    if k.len() == 0 || k.len() > e - s {
        assert(!canon);
        return None;
    }
    let (key, leaf) = from_mpt_key(k);
    proof {
        lemma_hp_decode_nibbles(k@);
    }
    assert(canon ==> values(key@) == wkey && leaf == wleaf);
    if leaf {
        assert(canon ==> (w is Leaf && b@.subrange(p1 as int, e as int) == rlp_string(w->Leaf_value@)
            + Seq::<u8>::empty())) by {
            if canon {
                assert(second + Seq::<u8>::empty() =~= second);
            }
        }
        let (v, p2) = match read_bytes(b, p1, e) {
            Some(x) => x,
            None => {
                assert(!canon);
                return None;
            },
        };
        if p2 != e {
            assert(!canon);
            return None;
        }
        let m = TrieNode::Leaf { key, value: v };
        assert(canon ==> node_payload(m) == node_payload(w));
        Some(m)
    } else {
        assert(canon ==> (w is Extension && b@.subrange(p1 as int, e as int) == child_rlp(w->Extension_child)
            + Seq::<u8>::empty())) by {
            if canon {
                assert(second + Seq::<u8>::empty() =~= second);
            }
        }
        let (c, p2) = match read_child(b, p1, e) {
            Some(x) => x,
            None => {
                assert(!canon);
                return None;
            },
        };
        if p2 != e {
            assert(!canon);
            return None;
        }
        let m = TrieNode::Extension { key, child: c };
        assert(canon ==> node_payload(m) == node_payload(w));
        Some(m)
    }
}

/// The branch whose items are `b[s..e]`.
fn decode_branch(b: &[u8], s: usize, e: usize) -> (r: Option<TrieNode>)
    requires
        0 < s <= e <= b@.len(),
        b@.len() <= usize::MAX / 2,
    ensures
        r matches Some(m) ==> decodable(m),
        forall|n: TrieNode|
            #![trigger node_payload(n)]
            decodable(n) && n is Branch && b@.subrange(s as int, e as int) == node_payload(n) ==> (r matches Some(m)
                && node_payload(m) == node_payload(n)),
    decreases b@.len(), 1int,
{
    let ghost canon = exists|n: TrieNode|
        #![trigger node_payload(n)]
        decodable(n) && n is Branch && b@.subrange(s as int, e as int) == node_payload(n);
    let ghost w = choose|n: TrieNode|
        #![trigger node_payload(n)]
        decodable(n) && n is Branch && b@.subrange(s as int, e as int) == node_payload(n);
    let ghost wc: Seq<ChildRef> = if canon { w->Branch_children.0@ } else { Seq::empty() };
    let ghost wv: Seq<u8> = if canon { w->Branch_value@ } else { Seq::empty() };
    proof {
        if canon {
            assert(wc.len() == 16);
            assert(b@.subrange(s as int, e as int) == children_rlp(wc) + rlp_string(wv));
        }
    }
    let mut children: Vec<ChildRef> = Vec::new();
    let mut pos = s;
    let mut i: usize = 0;
    while i < 16
        invariant
            0 < s <= pos <= e <= b@.len(),
            b@.len() <= usize::MAX / 2,
            i <= 16,
            children@.len() == i,
            all_decodable(children@),
            canon == exists|n: TrieNode|
                #![trigger node_payload(n)]
                decodable(n) && n is Branch && b@.subrange(s as int, e as int) == node_payload(n),
            canon ==> wc.len() == 16 && all_decodable(wc),
            canon ==> b@.subrange(s as int, e as int) == children_rlp(wc) + rlp_string(wv),
            canon ==> children_rlp(children@) == children_rlp(wc.take(i as int)),
            canon ==> pos == s + children_rlp(wc.take(i as int)).len(),
        decreases 16 - i,
    {
        let ghost rest: Seq<u8> = children_rlp(wc.skip(i + 1)) + rlp_string(wv);
        assert(canon ==> b@.subrange(pos as int, e as int) == child_rlp(wc[i as int]) + rest && decodable_child(
            wc[i as int],
        )) by {
            if canon {
                lemma_children_rlp_concat(wc.take(i as int), wc.skip(i as int));
                assert(wc.take(i as int) + wc.skip(i as int) =~= wc);
                lemma_children_rlp_concat(seq![wc[i as int]], wc.skip(i + 1));
                assert(seq![wc[i as int]] + wc.skip(i + 1) =~= wc.skip(i as int));
                assert(seq![wc[i as int]].drop_last() =~= Seq::<ChildRef>::empty());
                assert(children_rlp(seq![wc[i as int]].drop_last()) =~= Seq::<u8>::empty());
                assert(children_rlp(seq![wc[i as int]]) =~= child_rlp(wc[i as int]));
                let pre = children_rlp(wc.take(i as int));
                assert(b@.subrange(s as int, e as int) =~= pre + (child_rlp(wc[i as int]) + rest));
                assert(b@.subrange(pos as int, e as int) =~= child_rlp(wc[i as int]) + rest) by {
                    lemma_after(b@, s as int, e as int, pos as int);
                }
                lemma_all_decodable_at(wc, i as int);
            }
        }
        let (c, p) = match read_child(b, pos, e) {
            Some(x) => x,
            None => {
                assert(!canon) by {
                    if canon {
                        assert(b@.subrange(pos as int, e as int) == child_rlp(wc[i as int]) + rest);
                        assert(decodable_child(wc[i as int]));
                    }
                }
                return None;
            },
        };
        let ghost before = children@;
        children.push(c);
        proof {
            assert(children@.drop_last() =~= before);
            if canon {
                assert(wc.take(i + 1).drop_last() =~= wc.take(i as int));
                assert(wc.take(i + 1).last() == wc[i as int]);
            }
        }
        pos = p;
        i = i + 1;
    }
    assert(canon ==> b@.subrange(pos as int, e as int) == rlp_string(wv) + Seq::<u8>::empty()) by {
        if canon {
            assert(wc.take(16) =~= wc);
            assert(b@.subrange(s as int, e as int) =~= children_rlp(wc) + (rlp_string(wv) + Seq::<u8>::empty()));
            lemma_after(b@, s as int, e as int, pos as int);
        }
    }
    let (v, p) = match read_bytes(b, pos, e) {
        Some(x) => x,
        None => {
            assert(!canon);
            return None;
        },
    };
    if p != e {
        assert(!canon);
        return None;
    }
    let m = TrieNode::Branch { children: ChildRefGroup(children), value: v };
    assert(canon ==> node_payload(m) == node_payload(w)) by {
        if canon {
            assert(wc.take(16) =~= wc);
        }
    }
    Some(m)
}

/// Reads back a node from its encoding: `None` when no node in the form that
/// decoding gives (see `decodable`) is encoded as `b`.
pub fn decode_node(b: &[u8]) -> (r: Option<TrieNode>)
    requires
        b@.len() <= usize::MAX / 2,
    ensures
        r matches Some(n) ==> node_rlp(n) == b@ && decodable(n),
        r is None ==> forall|n: TrieNode| decodable(n) ==> node_rlp(n) != b@,
        forall|n: TrieNode| decodable(n) && node_rlp(n) == b@ ==> (r matches Some(m) && same_node(m, n)),
    decreases b@.len(), 2int,
{
    let len = b.len();
    let ghost canon = exists|n: TrieNode| decodable(n) && node_rlp(n) == b@;
    let ghost w = choose|n: TrieNode| decodable(n) && node_rlp(n) == b@;
    proof {
        if canon {
            lemma_node_payload(w);
            assert(b@.subrange(0, len as int) =~= rlp_list(node_payload(w)) + Seq::<u8>::empty());
        }
    }
    let (s, e) = match read_list(b, 0, len) {
        Some(x) => x,
        None => {
            return None;
        },
    };
    if e != len {
        return None;
    }
    proof {
        if canon {
            assert(b@.subrange(s as int, e as int) == node_payload(w));
        }
    }
    match decode_pair(b, s, e) {
        Some(m) => {
            let enc = m.rlp_bytes();
            if same_bytes(enc.as_slice(), b) {
                proof {
                    assert forall|n: TrieNode| decodable(n) && node_rlp(n) == b@ implies same_node(m, n) by {
                        lemma_node_rlp_injective(m, n);
                    }
                }
                return Some(m);
            }
            proof {
                if canon && !(w is Branch) {
                    lemma_node_payload(m);
                    assert(false);
                }
            }
        },
        None => {},
    }
    match decode_branch(b, s, e) {
        Some(m) => {
            let enc = m.rlp_bytes();
            if same_bytes(enc.as_slice(), b) {
                proof {
                    assert forall|n: TrieNode| decodable(n) && node_rlp(n) == b@ implies same_node(m, n) by {
                        lemma_node_rlp_injective(m, n);
                    }
                }
                return Some(m);
            }
            proof {
                if canon && w is Branch {
                    lemma_node_payload(m);
                    assert(false);
                }
            }
            None
        },
        None => None,
    }
}

} // verus!
