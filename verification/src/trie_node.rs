//! Nodes of a Merkle Patricia trie and the key-value map that a node stands
//! for.

use crate::hasher::{keccak, keccak256};
use crate::nibble::{lemma_value_injective, spec_hp_encode, to_mpt_key, values, Nibble};
use crate::rlp_codec::{append_bytes, append_string, encode_list, rlp_list, rlp_string};
use crate::serde::HashBytes;
use vstd::prelude::*;

verus! {

broadcast use vstd::std_specs::vec::group_vec_axioms;

/// A reference from a node to one of its children.
pub enum ChildRef {
    /// No child.
    Null,
    /// A child stored elsewhere under its hash.
    Ref(HashBytes),
    /// A child held in memory.
    Owned(Box<TrieNode>),
}

/// The sixteen children of a branch node, indexed by nibble.
pub struct ChildRefGroup(pub Vec<ChildRef>);

/// A node of a Merkle Patricia trie.
pub enum TrieNode {
    /// The end of a path: the rest of the key and the value.
    Leaf { key: Vec<Nibble>, value: Vec<u8> },
    /// A fork on the next nibble, with the value of the key that ends here
    /// (empty when there is none).
    Branch { children: ChildRefGroup, value: Vec<u8> },
    /// A shared run of nibbles leading to a single child.
    Extension { key: Vec<Nibble>, child: ChildRef },
}

/// `true` when `p` begins with `k`.
pub open spec fn starts_with(p: Seq<u8>, k: Seq<u8>) -> bool {
    k.len() <= p.len() && p.take(k.len() as int) == k
}

/// The value that the subtree of `n` holds at the nibble path `p` (relative
/// to `n`), if any.
pub open spec fn lookup(n: TrieNode, p: Seq<u8>) -> Option<Seq<u8>>
    decreases n,
{
    match n {
        TrieNode::Leaf { key, value } => if values(key@) == p {
            Some(value@)
        } else {
            None
        },
        TrieNode::Extension { key, child } => {
            let k = values(key@);
            if starts_with(p, k) {
                child_lookup(child, p.skip(k.len() as int))
            } else {
                None
            }
        },
        TrieNode::Branch { children, value } => if p.len() == 0 {
            if value@.len() > 0 {
                Some(value@)
            } else {
                None
            }
        } else if p[0] < 16 && p[0] < children.0@.len() {
            child_lookup(children.0@[p[0] as int], p.drop_first())
        } else {
            None
        },
    }
}

/// The value that the subtree behind `c` holds at `p`, if any.
pub open spec fn child_lookup(c: ChildRef, p: Seq<u8>) -> Option<Seq<u8>>
    decreases c,
{
    match c {
        ChildRef::Owned(b) => lookup(*b, p),
        _ => None,
    }
}

/// `true` when the search for `p` from `n` stops at a branch node with no
/// value of its own.
pub open spec fn ends_at_bare_branch(n: TrieNode, p: Seq<u8>) -> bool
    decreases n,
{
    match n {
        TrieNode::Leaf { .. } => false,
        TrieNode::Extension { key, child } => {
            let k = values(key@);
            if starts_with(p, k) {
                child_ends_at_bare_branch(child, p.skip(k.len() as int))
            } else {
                false
            }
        },
        TrieNode::Branch { children, value } => if p.len() == 0 {
            value@.len() == 0
        } else if p[0] < 16 && p[0] < children.0@.len() {
            child_ends_at_bare_branch(children.0@[p[0] as int], p.drop_first())
        } else {
            false
        },
    }
}

pub open spec fn child_ends_at_bare_branch(c: ChildRef, p: Seq<u8>) -> bool
    decreases c,
{
    match c {
        ChildRef::Owned(b) => ends_at_bare_branch(*b, p),
        _ => false,
    }
}

/// The number of children of a branch that are present.
pub open spec fn count_present(cs: Seq<ChildRef>) -> nat
    decreases cs.len(),
{
    if cs.len() == 0 {
        0
    } else {
        count_present(cs.drop_last()) + if cs.last() is Null {
            0nat
        } else {
            1nat
        }
    }
}

/// A well-formed trie held fully in memory: leaves hold non-empty values,
/// extensions have a non-empty key and lead to a branch, branches have
/// sixteen children and at least two entries (children or own value), and
/// every child is present in memory or absent.
pub open spec fn wf(n: TrieNode) -> bool
    decreases n,
{
    match n {
        TrieNode::Leaf { key, value } => value@.len() > 0,
        TrieNode::Extension { key, child } => {
            &&& key@.len() > 0
            &&& child matches ChildRef::Owned(b) && (*b is Branch)
            &&& child_wf(child)
        },
        TrieNode::Branch { children, value } => {
            &&& children.0@.len() == 16
            &&& count_present(children.0@) + (if value@.len() > 0 {
                1nat
            } else {
                0nat
            }) >= 2
            &&& all_children_wf(children.0@)
        },
    }
}

/// Every child in `cs` is absent or a well-formed node in memory.
pub open spec fn all_children_wf(cs: Seq<ChildRef>) -> bool
    decreases cs,
{
    if cs.len() == 0 {
        true
    } else {
        child_wf(cs.last()) && all_children_wf(cs.drop_last())
    }
}

/// The child is absent or a well-formed node in memory.
pub open spec fn child_wf(c: ChildRef) -> bool
    decreases c,
{
    match c {
        ChildRef::Null => true,
        ChildRef::Ref(_) => false,
        ChildRef::Owned(b) => wf(*b),
    }
}

/// Replacing one child changes the number of present children by the
/// difference the replacement makes.
pub proof fn lemma_count_update(cs: Seq<ChildRef>, i: int, x: ChildRef)
    requires
        0 <= i < cs.len(),
    ensures
        count_present(cs.update(i, x)) + (if cs[i] is Null {
            0nat
        } else {
            1nat
        }) == count_present(cs) + (if x is Null {
            0nat
        } else {
            1nat
        }),
    decreases cs.len(),
{
    if i < cs.len() - 1 {
        lemma_count_update(cs.drop_last(), i, x);
        assert(cs.update(i, x).drop_last() =~= cs.drop_last().update(i, x));
    } else {
        assert(cs.update(i, x).drop_last() =~= cs.drop_last());
    }
}

/// Replacing one child by a well-formed child keeps all children well formed.
pub proof fn lemma_children_wf_update(cs: Seq<ChildRef>, i: int, x: ChildRef)
    requires
        all_children_wf(cs),
        child_wf(x),
        0 <= i < cs.len(),
    ensures
        all_children_wf(cs.update(i, x)),
    decreases cs.len(),
{
    if i < cs.len() - 1 {
        lemma_children_wf_update(cs.drop_last(), i, x);
        assert(cs.update(i, x).drop_last() =~= cs.drop_last().update(i, x));
    } else {
        assert(cs.update(i, x).drop_last() =~= cs.drop_last());
    }
}

/// A sequence of absent children: none present, all well formed.
pub proof fn lemma_all_null(cs: Seq<ChildRef>)
    requires
        forall|i: int| 0 <= i < cs.len() ==> (#[trigger] cs[i]) is Null,
    ensures
        count_present(cs) == 0,
        all_children_wf(cs),
    decreases cs.len(),
{
    if cs.len() > 0 {
        assert(cs[cs.len() - 1] is Null);
        assert forall|i: int| 0 <= i < cs.drop_last().len() implies (#[trigger] cs.drop_last()[i]) is Null by {
            assert(cs[i] is Null);
        }
        lemma_all_null(cs.drop_last());
        assert(cs.last() is Null);
        assert(child_wf(cs.last()));
        assert(all_children_wf(cs));
    }
}

/// Each child of a sequence whose children are all well formed is well
/// formed.
pub proof fn lemma_children_wf_at(cs: Seq<ChildRef>, i: int)
    requires
        all_children_wf(cs),
        0 <= i < cs.len(),
    ensures
        child_wf(cs[i]),
    decreases cs.len(),
{
    if i < cs.len() - 1 {
        lemma_children_wf_at(cs.drop_last(), i);
    }
}

/// A present child counts.
pub proof fn lemma_count_at_least_one(cs: Seq<ChildRef>, i: int)
    requires
        0 <= i < cs.len(),
        !(cs[i] is Null),
    ensures
        count_present(cs) >= 1,
{
    lemma_count_update(cs, i, ChildRef::Null);
}

/// Two present children count twice.
pub proof fn lemma_count_at_least_two(cs: Seq<ChildRef>, i: int, j: int)
    requires
        0 <= i < cs.len(),
        0 <= j < cs.len(),
        i != j,
        !(cs[i] is Null),
        !(cs[j] is Null),
    ensures
        count_present(cs) >= 2,
{
    lemma_count_update(cs, i, ChildRef::Null);
    let cs2 = cs.update(i, ChildRef::Null);
    lemma_count_update(cs2, j, ChildRef::Null);
}

/// The number of present children among the first `j`.
proof fn lemma_count_take_step(cs: Seq<ChildRef>, j: int)
    requires
        0 <= j < cs.len(),
    ensures
        count_present(cs.take(j + 1)) == count_present(cs.take(j)) + if cs[j] is Null {
            0nat
        } else {
            1nat
        },
{
    assert(cs.take(j + 1).drop_last() =~= cs.take(j));
}

impl ChildRefGroup {
    /// `true` when no child is present.
    pub fn no_child(&self) -> (r: bool)
        ensures
            r == (count_present(self.0@) == 0),
            r ==> forall|i: int| 0 <= i < self.0@.len() ==> (#[trigger] self.0@[i]) is Null,
    {
        let n = self.0.len();
        let mut i: usize = 0;
        while i < n
            invariant
                n == self.0@.len(),
                i <= n,
                count_present(self.0@.take(i as int)) == 0,
                forall|j: int| 0 <= j < i ==> (#[trigger] self.0@[j]) is Null,
            decreases n - i,
        {
            proof {
                lemma_count_take_step(self.0@, i as int);
            }
            if !matches!(self.0[i], ChildRef::Null) {
                proof {
                    lemma_count_at_least_one(self.0@, i as int);
                    assert(count_present(self.0@) >= 1);
                }
                return false;
            }
            i = i + 1;
        }
        assert(self.0@.take(n as int) =~= self.0@);
        true
    }

    /// The position of the only present child, when exactly one is present.
    pub fn only_child(&self) -> (r: Option<usize>)
        ensures
            match r {
                Some(i) => count_present(self.0@) == 1 && i < self.0@.len() && !(self.0@[i as int] is Null)
                    && forall|j: int| 0 <= j < self.0@.len() && j != i ==> (#[trigger] self.0@[j]) is Null,
                None => count_present(self.0@) != 1,
            },
    {
        let n = self.0.len();
        let mut found: Option<usize> = None;
        let mut i: usize = 0;
        while i < n
            invariant
                n == self.0@.len(),
                i <= n,
                match found {
                    None => count_present(self.0@.take(i as int)) == 0 && forall|j: int|
                        0 <= j < i ==> (#[trigger] self.0@[j]) is Null,
                    Some(k) => k < i && count_present(self.0@.take(i as int)) == 1 && !(self.0@[k as int] is Null)
                        && forall|j: int| 0 <= j < i && j != k ==> (#[trigger] self.0@[j]) is Null,
                },
            decreases n - i,
        {
            proof {
                lemma_count_take_step(self.0@, i as int);
            }
            if !matches!(self.0[i], ChildRef::Null) {
                match found {
                    Some(k) => {
                        proof {
                            lemma_count_at_least_two(self.0@, k as int, i as int);
                        }
                        return None;
                    },
                    None => {
                        found = Some(i);
                    },
                }
            }
            i = i + 1;
        }
        assert(self.0@.take(n as int) =~= self.0@);
        found
    }
}

/// A fresh group of sixteen absent children.
pub fn empty_children() -> (r: ChildRefGroup)
    ensures
        r.0@.len() == 16,
        forall|i: int| 0 <= i < 16 ==> (#[trigger] r.0@[i]) is Null,
        count_present(r.0@) == 0,
        all_children_wf(r.0@),
{
    let mut v: Vec<ChildRef> = Vec::new();
    let mut i: usize = 0;
    while i < 16
        invariant
            i <= 16,
            v@.len() == i,
            forall|j: int| 0 <= j < i ==> (#[trigger] v@[j]) is Null,
        decreases 16 - i,
    {
        v.push(ChildRef::Null);
        i = i + 1;
    }
    proof {
        lemma_all_null(v@);
    }
    ChildRefGroup(v)
}

/// A copy of `v[from..to]`.
pub fn sub_nibbles(v: &[Nibble], from: usize, to: usize) -> (r: Vec<Nibble>)
    requires
        from <= to <= v@.len(),
    ensures
        r@ == v@.subrange(from as int, to as int),
{
    let mut r: Vec<Nibble> = Vec::new();
    let mut i = from;
    while i < to
        invariant
            from <= i <= to <= v@.len(),
            r@ == v@.subrange(from as int, i as int),
        decreases to - i,
    {
        r.push(v[i]);
        i = i + 1;
    }
    r
}

/// The encoding of a node: a list of the hex-prefix encoded key and the value
/// for a leaf, of the key and the child for an extension, of the sixteen
/// children and the value for a branch.
pub open spec fn node_rlp(n: TrieNode) -> Seq<u8>
    decreases n,
{
    match n {
        TrieNode::Leaf { key, value } => rlp_list(
            rlp_string(spec_hp_encode(values(key@), true)) + rlp_string(value@),
        ),
        TrieNode::Extension { key, child } => rlp_list(
            rlp_string(spec_hp_encode(values(key@), false)) + child_rlp(child),
        ),
        TrieNode::Branch { children, value } => rlp_list(
            children_rlp(children.0@) + rlp_string(value@),
        ),
    }
}

/// The encoding of a child within its parent: the empty string when absent,
/// the node's own encoding when that is shorter than 32 bytes, else the
/// node's hash as a string.
pub open spec fn child_rlp(c: ChildRef) -> Seq<u8>
    decreases c,
{
    match c {
        ChildRef::Null => rlp_string(Seq::empty()),
        ChildRef::Ref(h) => rlp_string(h@),
        ChildRef::Owned(b) => {
            let e = node_rlp(*b);
            if e.len() < 32 {
                e
            } else {
                rlp_string(keccak256(e))
            }
        },
    }
}

/// The encodings of children, one after another.
pub open spec fn children_rlp(cs: Seq<ChildRef>) -> Seq<u8>
    decreases cs,
{
    if cs.len() == 0 {
        Seq::empty()
    } else {
        children_rlp(cs.drop_last()) + child_rlp(cs.last())
    }
}

/// The hash of a node: the digest of its encoding.
pub open spec fn node_hash(n: TrieNode) -> Seq<u8> {
    keccak256(node_rlp(n))
}

impl TrieNode {
    /// The encoding of the node.
    pub fn rlp_bytes(&self) -> (r: Vec<u8>)
        ensures
            r@ == node_rlp(*self),
        decreases *self, 1int,
    {
        let mut payload: Vec<u8> = Vec::new();
        match self {
            TrieNode::Leaf { key, value } => {
                let k = to_mpt_key(key.as_slice(), true);
                append_string(&mut payload, k.as_slice());
                append_string(&mut payload, value.as_slice());
            },
            TrieNode::Extension { key, child } => {
                let k = to_mpt_key(key.as_slice(), false);
                append_string(&mut payload, k.as_slice());
                let c = child.rlp_bytes();
                append_bytes(&mut payload, c.as_slice());
            },
            TrieNode::Branch { children, value } => {
                assert(decreases_to!(*self => children.0));
                let n = children.0.len();
                let mut i: usize = 0;
                while i < n
                    invariant
                        n == children.0@.len(),
                        i <= n,
                        payload@ == children_rlp(children.0@.take(i as int)),
                        decreases_to!(*self => children.0),
                    decreases n - i,
                {
                    proof {
                        assert(decreases_to!(children.0 => children.0[i as int]));
                        assert(decreases_to!(*self => children.0));
                        assert(decreases_to!(*self => children.0[i as int]));
                    }
                    let c = children.0[i].rlp_bytes();
                    proof {
                        assert(children.0@.take(i + 1).drop_last() =~= children.0@.take(i as int));
                    }
                    append_bytes(&mut payload, c.as_slice());
                    i = i + 1;
                }
                assert(children.0@.take(n as int) =~= children.0@);
                append_string(&mut payload, value.as_slice());
            },
        }
        assert(payload@ =~= node_rlp(*self).subrange(0, 0) + payload@);
        encode_list(payload.as_slice())
    }

    /// The hash of the node.
    pub fn hash(&self) -> (r: HashBytes)
        ensures
            r@ == node_hash(*self),
    {
        let e = self.rlp_bytes();
        keccak(e.as_slice())
    }
}

impl ChildRef {
    /// The encoding of the child within its parent.
    pub fn rlp_bytes(&self) -> (r: Vec<u8>)
        ensures
            r@ == child_rlp(*self),
        decreases *self, 0int,
    {
        let mut out: Vec<u8> = Vec::new();
        match self {
            ChildRef::Null => {
                let empty: Vec<u8> = Vec::new();
                append_string(&mut out, empty.as_slice());
            },
            ChildRef::Ref(h) => {
                append_string(&mut out, h.as_slice());
            },
            ChildRef::Owned(b) => {
                let e = b.rlp_bytes();
                if e.len() < 32 {
                    return e;
                } else {
                    let h = keccak(e.as_slice());
                    append_string(&mut out, h.as_slice());
                }
            },
        }
        out
    }
}

/// The depth of a child of a node at depth `d`, counted up to `cap` (deeper
/// nodes all count as `cap`).
pub open spec fn next_depth(d: nat, cap: nat) -> nat {
    if d < cap {
        d + 1
    } else {
        cap
    }
}

/// The nodes that must be stored under their hash, children before their
/// parent, for the subtree of `n` at depth `d` (counted up to `cap`): every
/// node whose encoding is at least 32 bytes (the others are embedded in their
/// parent), and the root of the whole trie whatever its size. Each is given as
/// its hash, its encoding, and whether it lies above depth `cap`.
pub open spec fn stored_nodes(n: TrieNode, d: nat, cap: nat, is_root: bool) -> Seq<(Seq<u8>, Seq<u8>, bool)>
    decreases n,
{
    let own = if node_rlp(n).len() >= 32 || is_root {
        seq![(keccak256(node_rlp(n)), node_rlp(n), d < cap)]
    } else {
        Seq::empty()
    };
    match n {
        TrieNode::Leaf { .. } => own,
        TrieNode::Extension { child, .. } => child_stored(child, next_depth(d, cap), cap) + own,
        TrieNode::Branch { children, .. } => children_stored(children.0@, next_depth(d, cap), cap) + own,
    }
}

/// The nodes below a child at depth `d` that must be stored.
pub open spec fn child_stored(c: ChildRef, d: nat, cap: nat) -> Seq<(Seq<u8>, Seq<u8>, bool)>
    decreases c,
{
    match c {
        ChildRef::Owned(b) => stored_nodes(*b, d, cap, false),
        _ => Seq::empty(),
    }
}

/// The nodes below a sequence of children at depth `d` that must be stored.
pub open spec fn children_stored(cs: Seq<ChildRef>, d: nat, cap: nat) -> Seq<(Seq<u8>, Seq<u8>, bool)>
    decreases cs,
{
    if cs.len() == 0 {
        Seq::empty()
    } else {
        children_stored(cs.drop_last(), d, cap) + child_stored(cs.last(), d, cap)
    }
}

/// Stored nodes as plain values.
pub open spec fn stored_view(v: Seq<(HashBytes, Vec<u8>, bool)>) -> Seq<(Seq<u8>, Seq<u8>, bool)> {
    v.map_values(|x: (HashBytes, Vec<u8>, bool)| (x.0@, x.1@, x.2))
}

impl TrieNode {
    /// Appends the nodes of the subtree at depth `d` that must be stored (see
    /// `stored_nodes`) to `out`.
    pub fn collect_stored(&self, d: usize, cap: usize, is_root: bool, out: &mut Vec<(HashBytes, Vec<u8>, bool)>)
        requires
            d <= cap,
        ensures
            stored_view(final(out)@) == stored_view(old(out)@) + stored_nodes(*self, d as nat, cap as nat, is_root),
        decreases *self, 2int,
    {
        let ghost start = stored_view(out@);
        let nd = if d < cap { d + 1 } else { cap };
        match self {
            TrieNode::Leaf { .. } => {},
            TrieNode::Extension { child, .. } => {
                child.collect_stored(nd, cap, out);
            },
            TrieNode::Branch { children, .. } => {
                children.collect_stored(nd, cap, out);
            },
        }
        let e = self.rlp_bytes();
        if e.len() >= 32 || is_root {
            let h = keccak(e.as_slice());
            let ghost before = out@;
            out.push((h, e, d < cap));
            assert(stored_view(out@) =~= stored_view(before).push((h@, e@, d < cap)));
        }
        assert(stored_view(out@) =~= start + stored_nodes(*self, d as nat, cap as nat, is_root));
    }
}

impl ChildRefGroup {
    /// Appends the nodes below the children, at depth `d`, that must be
    /// stored.
    pub fn collect_stored(&self, d: usize, cap: usize, out: &mut Vec<(HashBytes, Vec<u8>, bool)>)
        requires
            d <= cap,
        ensures
            stored_view(final(out)@) == stored_view(old(out)@) + children_stored(self.0@, d as nat, cap as nat),
        decreases *self, 1int,
    {
        let ghost start = stored_view(out@);
        let n = self.0.len();
        let mut i: usize = 0;
        assert(decreases_to!(*self => self.0));
        while i < n
            invariant
                n == self.0@.len(),
                i <= n,
                d <= cap,
                stored_view(out@) == start + children_stored(self.0@.take(i as int), d as nat, cap as nat),
                decreases_to!(*self => self.0),
            decreases n - i,
        {
            proof {
                assert(decreases_to!(self.0 => self.0[i as int]));
                assert(decreases_to!(*self => self.0[i as int]));
                assert(self.0@.take(i + 1).drop_last() =~= self.0@.take(i as int));
            }
            self.0[i].collect_stored(d, cap, out);
            i = i + 1;
        }
        assert(self.0@.take(n as int) =~= self.0@);
    }
}

impl ChildRef {
    /// Appends the nodes below the child, at depth `d`, that must be stored.
    pub fn collect_stored(&self, d: usize, cap: usize, out: &mut Vec<(HashBytes, Vec<u8>, bool)>)
        requires
            d <= cap,
        ensures
            stored_view(final(out)@) == stored_view(old(out)@) + child_stored(*self, d as nat, cap as nat),
        decreases *self, 0int,
    {
        match self {
            ChildRef::Owned(b) => b.collect_stored(d, cap, false, out),
            _ => {
                assert(stored_view(out@) =~= stored_view(out@) + child_stored(*self, d as nat, cap as nat));
            },
        }
    }
}

/// What `get` answers for the path `p` below `n`: the value stored there,
/// or an empty value when the search stops at a branch without a value of its
/// own, or nothing.
pub open spec fn spec_get(n: TrieNode, p: Seq<u8>) -> Option<Seq<u8>> {
    match lookup(n, p) {
        Some(v) => Some(v),
        None => if ends_at_bare_branch(n, p) {
            Some(Seq::empty())
        } else {
            None
        },
    }
}

/// The view of an optional byte vector.
pub open spec fn opt_bytes(o: Option<Vec<u8>>) -> Option<Seq<u8>> {
    match o {
        Some(v) => Some(v@),
        None => None,
    }
}

/// `true` when `key` equals `path[pos..]`.
pub fn key_equals(key: &[Nibble], path: &[Nibble], pos: usize) -> (r: bool)
    requires
        pos <= path@.len(),
    ensures
        r == (values(key@) == values(path@).skip(pos as int)),
{
    let plen = path.len();
    if key.len() != plen - pos {
        proof {
            assert(values(key@).len() != values(path@).skip(pos as int).len());
        }
        return false;
    }
    let mut i: usize = 0;
    while i < key.len()
        invariant
            i <= key@.len(),
            plen == path@.len(),
            key@.len() == plen - pos,
            forall|j: int| 0 <= j < i ==> key@[j] == path@[pos + j],
        decreases key@.len() - i,
    {
        if key[i] != path[pos + i] {
            proof {
                lemma_value_injective(key@[i as int], path@[pos + i]);
                assert(values(key@)[i as int] != values(path@).skip(pos as int)[i as int]);
            }
            return false;
        }
        i = i + 1;
    }
    proof {
        assert(values(key@) =~= values(path@).skip(pos as int));
    }
    true
}

/// `true` when `path[pos..]` begins with `key`.
pub fn key_is_prefix(key: &[Nibble], path: &[Nibble], pos: usize) -> (r: bool)
    requires
        pos <= path@.len(),
    ensures
        r == starts_with(values(path@).skip(pos as int), values(key@)),
        r ==> pos + key@.len() <= path@.len(),
{
    let plen = path.len();
    if key.len() > plen - pos {
        return false;
    }
    let mut i: usize = 0;
    while i < key.len()
        invariant
            i <= key@.len(),
            plen == path@.len(),
            key@.len() <= plen - pos,
            forall|j: int| 0 <= j < i ==> key@[j] == path@[pos + j],
        decreases key@.len() - i,
    {
        if key[i] != path[pos + i] {
            proof {
                lemma_value_injective(key@[i as int], path@[pos + i]);
                assert(values(key@)[i as int] != values(path@).skip(pos as int).take(
                    key@.len() as int,
                )[i as int]);
            }
            return false;
        }
        i = i + 1;
    }
    proof {
        assert(values(key@) =~= values(path@).skip(pos as int).take(key@.len() as int));
    }
    true
}

/// The value held below `n` at the nibble path `path[pos..]`.
pub fn get_in(n: &TrieNode, path: &[Nibble], pos: usize) -> (r: Option<Vec<u8>>)
    requires
        wf(*n),
        pos <= path@.len(),
    ensures
        opt_bytes(r) == spec_get(*n, values(path@).skip(pos as int)),
    decreases n,
{
    let ghost p = values(path@).skip(pos as int);
    let plen = path.len();
    match n {
        TrieNode::Leaf { key, value } => {
            if key_equals(key.as_slice(), path, pos) {
                Some(value.clone())
            } else {
                None
            }
        },
        TrieNode::Extension { key, child } => {
            if key_is_prefix(key.as_slice(), path, pos) {
                proof {
                    assert(values(path@).skip(pos + key@.len()) =~= p.skip(key@.len() as int));
                }
                match child {
                    ChildRef::Owned(b) => get_in(b, path, pos + key.len()),
                    _ => None,
                }
            } else {
                None
            }
        },
        TrieNode::Branch { children, value } => {
            if pos == path.len() {
                Some(value.clone())
            } else {
                let idx = path[pos].inner() as usize;
                proof {
                    assert(wf(*n));
                    assert(idx < 16);
                    assert(children.0@.len() == 16);
                    lemma_children_wf_at(children.0@, idx as int);
                    assert(p[0] == idx);
                    assert(values(path@).skip(pos + 1) =~= p.drop_first());
                    assert(child_wf(children.0@[idx as int]));
                }
                match &children.0[idx] {
                    ChildRef::Owned(b) => get_in(b, path, pos + 1),
                    _ => None,
                }
            }
        },
    }
}

} // verus!
