//! A well-formed trie is determined by what it holds: two well-formed tries
//! that give the same value at every path have the same encoding, and so
//! the same hash.

use crate::nibble::values;
use crate::trie_node::{
    all_children_wf, child_lookup, child_rlp, child_wf, children_rlp, count_present,
    lemma_children_wf_at, lookup, node_hash, node_rlp, starts_with, wf, ChildRef, TrieNode,
    ends_at_bare_branch, child_ends_at_bare_branch,
};
use vstd::prelude::*;

verus! {

/// Some child of a sequence with a present child is present.
pub proof fn lemma_present_witness(cs: Seq<ChildRef>)
    requires
        count_present(cs) >= 1,
    ensures
        exists|i: int| 0 <= i < cs.len() && !(#[trigger] cs[i] is Null),
    decreases cs.len(),
{
    if !(cs.last() is Null) {
        assert(!(cs[cs.len() - 1] is Null));
    } else {
        lemma_present_witness(cs.drop_last());
        let i = choose|i: int| 0 <= i < cs.drop_last().len() && !(#[trigger] cs.drop_last()[i] is Null);
        assert(cs[i] == cs.drop_last()[i]);
    }
}

/// Two different children of a sequence with two present children are
/// present.
pub proof fn lemma_two_present(cs: Seq<ChildRef>)
    requires
        count_present(cs) >= 2,
    ensures
        exists|i: int, j: int| 0 <= i < j < cs.len() && !(#[trigger] cs[i] is Null) && !(#[trigger] cs[j] is Null),
    decreases cs.len(),
{
    let d = cs.drop_last();
    if !(cs.last() is Null) {
        lemma_present_witness(d);
        let i = choose|i: int| 0 <= i < d.len() && !(#[trigger] d[i] is Null);
        assert(cs[i] == d[i]);
        assert(!(cs[cs.len() - 1] is Null));
    } else {
        lemma_two_present(d);
        let (i, j) = choose|i: int, j: int| 0 <= i < j < d.len() && !(#[trigger] d[i] is Null) && !(#[trigger] d[j] is Null);
        assert(cs[i] == d[i] && cs[j] == d[j]);
    }
}

/// A branch's entry below child `i` is found at `i` followed by the path in
/// the child.
pub proof fn lemma_branch_child_path(n: TrieNode, i: int, q: Seq<u8>)
    requires
        n matches TrieNode::Branch { children, value } && children.0@.len() == 16,
        0 <= i < 16,
    ensures
        lookup(n, seq![i as u8] + q) == child_lookup(n->children.0@[i], q),
{
    let p = seq![i as u8] + q;
    assert(p[0] == i as u8);
    assert(p.drop_first() =~= q);
}

/// An extension's entries are its key followed by the paths in its child.
pub proof fn lemma_ext_child_path(n: TrieNode, q: Seq<u8>)
    requires
        n is Extension,
    ensures
        lookup(n, values(n->Extension_key@) + q) == child_lookup(n->Extension_child, q),
{
    let k = values(n->Extension_key@);
    let p = k + q;
    assert(p.take(k.len() as int) =~= k);
    assert(p.skip(k.len() as int) =~= q);
}

/// A well-formed trie holds something.
pub proof fn lemma_nonempty(n: TrieNode)
    requires
        wf(n),
    ensures
        exists|p: Seq<u8>| (#[trigger] lookup(n, p)) is Some,
    decreases n,
{
    match n {
        TrieNode::Leaf { key, value } => {
            assert(lookup(n, values(key@)) is Some);
        },
        TrieNode::Extension { key, child } => {
            let b = child->Owned_0;
            assert(decreases_to!(n => child));
            lemma_nonempty(*b);
            let q = choose|q: Seq<u8>| (#[trigger] lookup(*b, q)) is Some;
            lemma_ext_child_path(n, q);
            assert(lookup(n, values(key@) + q) is Some);
        },
        TrieNode::Branch { children, value } => {
            if value@.len() > 0 {
                assert(lookup(n, Seq::<u8>::empty()) is Some);
            } else {
                lemma_present_witness(children.0@);
                let i = choose|i: int| 0 <= i < children.0@.len() && !(#[trigger] children.0@[i] is Null);
                lemma_children_wf_at(children.0@, i);
                let c = children.0@[i];
                let b = c->Owned_0;
                assert(decreases_to!(n => children.0));
                assert(decreases_to!(children.0 => children.0@[i]));
                lemma_nonempty(*b);
                let q = choose|q: Seq<u8>| (#[trigger] lookup(*b, q)) is Some;
                lemma_branch_child_path(n, i, q);
                assert(lookup(n, seq![i as u8] + q) is Some);
            }
        },
    }
}

/// `n` holds two entries that a single leaf, or a single run of nibbles,
/// cannot: one at the empty path or at a path starting differently from the
/// other's.
pub open spec fn spread(n: TrieNode) -> bool {
    exists|p1: Seq<u8>, p2: Seq<u8>|
        #![trigger lookup(n, p1), lookup(n, p2)]
        lookup(n, p1) is Some && lookup(n, p2) is Some && p2.len() > 0 && (p1.len() == 0 || p1[0] != p2[0])
}

/// A well-formed branch spreads.
pub proof fn lemma_branch_spread(n: TrieNode)
    requires
        wf(n),
        n is Branch,
    ensures
        spread(n),
{
    let children = n->Branch_children;
    let value = n->Branch_value;
    if value@.len() > 0 {
        lemma_present_witness(children.0@);
        let i = choose|i: int| 0 <= i < children.0@.len() && !(#[trigger] children.0@[i] is Null);
        lemma_children_wf_at(children.0@, i);
        let b = children.0@[i]->Owned_0;
        lemma_nonempty(*b);
        let q = choose|q: Seq<u8>| (#[trigger] lookup(*b, q)) is Some;
        lemma_branch_child_path(n, i, q);
        let p2 = seq![i as u8] + q;
        assert(lookup(n, Seq::<u8>::empty()) is Some);
        assert(lookup(n, p2) is Some && p2.len() > 0);
    } else {
        crate::trie_canon::lemma_two_present(children.0@);
        let (i, j) = choose|i: int, j: int|
            0 <= i < j < children.0@.len() && !(#[trigger] children.0@[i] is Null) && !(#[trigger] children.0@[j] is Null);
        lemma_children_wf_at(children.0@, i);
        lemma_children_wf_at(children.0@, j);
        let bi = children.0@[i]->Owned_0;
        let bj = children.0@[j]->Owned_0;
        lemma_nonempty(*bi);
        lemma_nonempty(*bj);
        let qi = choose|q: Seq<u8>| (#[trigger] lookup(*bi, q)) is Some;
        let qj = choose|q: Seq<u8>| (#[trigger] lookup(*bj, q)) is Some;
        lemma_branch_child_path(n, i, qi);
        lemma_branch_child_path(n, j, qj);
        let p1 = seq![i as u8] + qi;
        let p2 = seq![j as u8] + qj;
        assert(p1[0] == i as u8 && p2[0] == j as u8);
        assert(lookup(n, p1) is Some && lookup(n, p2) is Some);
    }
}

/// The entries of an extension all start with its key.
pub proof fn lemma_ext_prefix(n: TrieNode, p: Seq<u8>)
    requires
        n is Extension,
        lookup(n, p) is Some,
    ensures
        starts_with(p, values(n->Extension_key@)),
{
}

/// A well-formed extension spreads below its key: its child spreads.
pub proof fn lemma_ext_spread(n: TrieNode)
    requires
        wf(n),
        n is Extension,
    ensures
        exists|p1: Seq<u8>, p2: Seq<u8>|
            #![trigger lookup(n, p1), lookup(n, p2)]
            lookup(n, p1) is Some && lookup(n, p2) is Some && p1 != p2,
{
    let k = values(n->Extension_key@);
    let b = n->Extension_child->Owned_0;
    lemma_branch_spread(*b);
    let (q1, q2) = choose|p1: Seq<u8>, p2: Seq<u8>|
        #![trigger lookup(*b, p1), lookup(*b, p2)]
        lookup(*b, p1) is Some && lookup(*b, p2) is Some && p2.len() > 0 && (p1.len() == 0 || p1[0] != p2[0]);
    lemma_ext_child_path(n, q1);
    lemma_ext_child_path(n, q2);
    if k + q1 == k + q2 {
        assert((k + q1).skip(k.len() as int) =~= q1);
        assert((k + q2).skip(k.len() as int) =~= q2);
    }
    assert(lookup(n, k + q1) is Some && lookup(n, k + q2) is Some);
}

/// Two tries that hold the same entries.
pub open spec fn same_lookups(a: TrieNode, b: TrieNode) -> bool {
    forall|p: Seq<u8>| #![trigger lookup(a, p)] #![trigger lookup(b, p)] lookup(a, p) == lookup(b, p)
}

/// A leaf holds only one entry, unlike a well-formed branch or extension.
pub proof fn lemma_leaf_alone(a: TrieNode, b: TrieNode)
    requires
        a is Leaf,
        wf(b),
        !(b is Leaf),
    ensures
        !same_lookups(a, b),
{
    let ka = values(a->Leaf_key@);
    if same_lookups(a, b) {
        if b is Branch {
            lemma_branch_spread(b);
            let (p1, p2) = choose|p1: Seq<u8>, p2: Seq<u8>|
                #![trigger lookup(b, p1), lookup(b, p2)]
                lookup(b, p1) is Some && lookup(b, p2) is Some && p2.len() > 0 && (p1.len() == 0
                    || p1[0] != p2[0]);
            assert(lookup(a, p1) is Some && lookup(a, p2) is Some);
            assert(p1 == ka && p2 == ka);
        } else {
            lemma_ext_spread(b);
            let (p1, p2) = choose|p1: Seq<u8>, p2: Seq<u8>|
                #![trigger lookup(b, p1), lookup(b, p2)]
                lookup(b, p1) is Some && lookup(b, p2) is Some && p1 != p2;
            assert(lookup(a, p1) is Some && lookup(a, p2) is Some);
        }
    }
}

/// A well-formed branch and a well-formed extension never hold the same
/// entries.
pub proof fn lemma_branch_not_ext(a: TrieNode, b: TrieNode)
    requires
        wf(a),
        a is Branch,
        wf(b),
        b is Extension,
    ensures
        !same_lookups(a, b),
{
    let k = values(b->Extension_key@);
    if same_lookups(a, b) {
        lemma_branch_spread(a);
        let (p1, p2) = choose|p1: Seq<u8>, p2: Seq<u8>|
            #![trigger lookup(a, p1), lookup(a, p2)]
            lookup(a, p1) is Some && lookup(a, p2) is Some && p2.len() > 0 && (p1.len() == 0
                || p1[0] != p2[0]);
        assert(lookup(b, p1) is Some && lookup(b, p2) is Some);
        lemma_ext_prefix(b, p1);
        lemma_ext_prefix(b, p2);
        assert(k.len() > 0);
        assert(p1.take(k.len() as int)[0] == p1[0]);
        assert(p2.take(k.len() as int)[0] == p2[0]);
    }
}

/// Of two well-formed extensions with the same entries, the first's key is
/// not shorter than the second's.
pub proof fn lemma_ext_key_not_shorter(a: TrieNode, b: TrieNode)
    requires
        wf(a),
        a is Extension,
        wf(b),
        b is Extension,
        same_lookups(a, b),
    ensures
        values(a->Extension_key@).len() >= values(b->Extension_key@).len(),
{
    let ka = values(a->Extension_key@);
    let kb = values(b->Extension_key@);
    if ka.len() < kb.len() {
        let ba = a->Extension_child->Owned_0;
        lemma_branch_spread(*ba);
        let (q1, q2) = choose|p1: Seq<u8>, p2: Seq<u8>|
            #![trigger lookup(*ba, p1), lookup(*ba, p2)]
            lookup(*ba, p1) is Some && lookup(*ba, p2) is Some && p2.len() > 0 && (p1.len() == 0 || p1[0] != p2[0]);
        lemma_ext_child_path(a, q1);
        lemma_ext_child_path(a, q2);
        assert(lookup(b, ka + q1) is Some && lookup(b, ka + q2) is Some);
        lemma_ext_prefix(b, ka + q1);
        lemma_ext_prefix(b, ka + q2);
        assert((ka + q2).take(kb.len() as int)[ka.len() as int] == q2[0]);
        if q1.len() == 0 {
            assert(ka + q1 =~= ka);
        } else {
            assert((ka + q1).take(kb.len() as int)[ka.len() as int] == q1[0]);
        }
    }
}

/// Two sequences of children whose encodings agree one by one encode
/// alike.
pub proof fn lemma_children_rlp_eq(c1: Seq<ChildRef>, c2: Seq<ChildRef>)
    requires
        c1.len() == c2.len(),
        forall|i: int| 0 <= i < c1.len() ==> child_rlp(#[trigger] c1[i]) == child_rlp(c2[i]),
    ensures
        children_rlp(c1) == children_rlp(c2),
    decreases c1.len(),
{
    if c1.len() > 0 {
        assert forall|i: int| 0 <= i < c1.drop_last().len() implies child_rlp(#[trigger] c1.drop_last()[i])
            == child_rlp(c2.drop_last()[i]) by {
            assert(c1.drop_last()[i] == c1[i] && c2.drop_last()[i] == c2[i]);
        }
        lemma_children_rlp_eq(c1.drop_last(), c2.drop_last());
        assert(child_rlp(c1[c1.len() - 1]) == child_rlp(c2[c2.len() - 1]));
    }
}

/// Two well-formed tries that hold the same entries encode alike.
pub proof fn lemma_canonical(a: TrieNode, b: TrieNode)
    requires
        wf(a),
        wf(b),
        same_lookups(a, b),
    ensures
        node_rlp(a) == node_rlp(b),
    decreases a,
{
    match a {
        TrieNode::Leaf { key: ka, value: va } => {
            if !(b is Leaf) {
                lemma_leaf_alone(a, b);
            }
            let kb = b->Leaf_key;
            assert(lookup(a, values(ka@)) == Some(va@));
            assert(lookup(b, values(ka@)) is Some);
        },
        TrieNode::Branch { children: ca, value: va } => {
            if b is Leaf {
                lemma_leaf_alone(b, a);
            }
            if b is Extension {
                lemma_branch_not_ext(a, b);
            }
            let cb = b->Branch_children;
            let vb = b->Branch_value;
            assert(lookup(a, Seq::<u8>::empty()) == lookup(b, Seq::<u8>::empty()));
            assert(va@ == vb@);
            assert forall|i: int| 0 <= i < ca.0@.len() implies child_rlp(#[trigger] ca.0@[i]) == child_rlp(cb.0@[i]) by {
                lemma_children_wf_at(ca.0@, i);
                lemma_children_wf_at(cb.0@, i);
                let x = ca.0@[i];
                let y = cb.0@[i];
                assert forall|q: Seq<u8>| #[trigger] child_lookup(x, q) == child_lookup(y, q) by {
                    lemma_branch_child_path(a, i, q);
                    lemma_branch_child_path(b, i, q);
                }
                match (x, y) {
                    (ChildRef::Owned(bx), ChildRef::Owned(by)) => {
                        assert forall|q: Seq<u8>| #![trigger lookup(*bx, q)] #![trigger lookup(*by, q)] lookup(*bx, q) == lookup(*by, q) by {
                            assert(child_lookup(x, q) == child_lookup(y, q));
                        }
                        assert(decreases_to!(a => ca.0));
                        assert(decreases_to!(ca.0 => ca.0@[i]));
                        lemma_canonical(*bx, *by);
                    },
                    (ChildRef::Owned(bx), ChildRef::Null) => {
                        lemma_nonempty(*bx);
                        let q = choose|q: Seq<u8>| (#[trigger] lookup(*bx, q)) is Some;
                        assert(child_lookup(x, q) == child_lookup(y, q));
                    },
                    (ChildRef::Null, ChildRef::Owned(by)) => {
                        lemma_nonempty(*by);
                        let q = choose|q: Seq<u8>| (#[trigger] lookup(*by, q)) is Some;
                        assert(child_lookup(x, q) == child_lookup(y, q));
                    },
                    _ => {},
                }
            }
            lemma_children_rlp_eq(ca.0@, cb.0@);
        },
        TrieNode::Extension { key: ka, child: xa } => {
            if b is Leaf {
                lemma_leaf_alone(b, a);
            }
            if b is Branch {
                lemma_branch_not_ext(b, a);
            }
            let kb = b->Extension_key;
            let xb = b->Extension_child;
            lemma_ext_key_not_shorter(a, b);
            lemma_ext_key_not_shorter(b, a);
            lemma_nonempty(a);
            let p = choose|p: Seq<u8>| (#[trigger] lookup(a, p)) is Some;
            lemma_ext_prefix(a, p);
            assert(lookup(b, p) is Some);
            lemma_ext_prefix(b, p);
            let k = values(ka@);
            assert(values(kb@) =~= k);
            let ba = xa->Owned_0;
            let bb = xb->Owned_0;
            assert forall|q: Seq<u8>| #![trigger lookup(*ba, q)] #![trigger lookup(*bb, q)] lookup(*ba, q) == lookup(*bb, q) by {
                lemma_ext_child_path(a, q);
                lemma_ext_child_path(b, q);
                assert(lookup(a, k + q) == lookup(b, k + q));
            }
            assert(decreases_to!(a => xa));
            lemma_canonical(*ba, *bb);
        },
    }
}

/// Two well-formed tries that hold the same entries have the same hash.
pub proof fn lemma_same_entries_same_hash(a: TrieNode, b: TrieNode)
    requires
        wf(a),
        wf(b),
        same_lookups(a, b),
    ensures
        node_hash(a) == node_hash(b),
{
    lemma_canonical(a, b);
}

/// A search that stops at a branch without a value of its own stops above
/// an entry: some longer path through that branch holds a value.
pub proof fn lemma_bare_branch_below(n: TrieNode, p: Seq<u8>)
    requires
        wf(n),
        ends_at_bare_branch(n, p),
    ensures
        exists|q: Seq<u8>| q.len() > 0 && (#[trigger] lookup(n, p + q)) is Some,
    decreases n,
{
    match n {
        TrieNode::Leaf { .. } => {},
        TrieNode::Extension { key, child } => {
            let k = values(key@);
            let b = child->Owned_0;
            let r = p.skip(k.len() as int);
            assert(decreases_to!(n => child));
            lemma_bare_branch_below(*b, r);
            let q = choose|q: Seq<u8>| q.len() > 0 && (#[trigger] lookup(*b, r + q)) is Some;
            assert(p =~= k + r);
            assert(p + q =~= k + (r + q));
            lemma_ext_child_path(n, r + q);
            assert(lookup(n, p + q) is Some);
        },
        TrieNode::Branch { children, value } => {
            if p.len() == 0 {
                lemma_present_witness(children.0@);
                let i = choose|i: int| 0 <= i < children.0@.len() && !(#[trigger] children.0@[i] is Null);
                lemma_children_wf_at(children.0@, i);
                let b = children.0@[i]->Owned_0;
                lemma_nonempty(*b);
                let r = choose|r: Seq<u8>| (#[trigger] lookup(*b, r)) is Some;
                lemma_branch_child_path(n, i, r);
                let q = seq![i as u8] + r;
                assert(p + q =~= q);
                assert(lookup(n, p + q) is Some);
            } else {
                let i = p[0] as int;
                lemma_children_wf_at(children.0@, i);
                let b = children.0@[i]->Owned_0;
                let r = p.drop_first();
                assert(decreases_to!(n => children.0));
                assert(decreases_to!(children.0 => children.0@[i]));
                lemma_bare_branch_below(*b, r);
                let q = choose|q: Seq<u8>| q.len() > 0 && (#[trigger] lookup(*b, r + q)) is Some;
                lemma_branch_child_path(n, i, r + q);
                assert(p + q =~= seq![i as u8] + (r + q));
                assert(lookup(n, p + q) is Some);
            }
        },
    }
}

} // verus!
