//! A Merkle Patricia trie held in memory: lookups, insertions and deletions
//! of byte keys, stated against the map of keys to values it holds.

use crate::nibble::{
    add_prefix, bytes_to_nibble_list, common_prefix_iter, spec_nibbles, values, Nibble,
};
use crate::nibble::{lemma_pack_of_nibbles};
use crate::trie_node::{
    get_in, opt_bytes, spec_get,
    all_children_wf, child_lookup, child_wf, count_present, empty_children, key_equals,
    key_is_prefix, lemma_children_wf_at, lemma_children_wf_update, lemma_count_update, lookup,
    starts_with, sub_nibbles, wf, ChildRef, ChildRefGroup, TrieNode,
};
use crate::kv::DBTransaction;
use crate::serde::HashBytes;
use crate::trie_node::{node_hash, stored_nodes, stored_view};
use crate::trie_canon::{lemma_bare_branch_below, lemma_nonempty, lemma_same_entries_same_hash};
use crate::trie_node::ends_at_bare_branch;
use crate::trie_store::{
    all_hashes, top_layer, commit_ops, delete_ops, fresh, hashes_contain, hashes_view, insert_ops, kept, root_key,
    stale, stored_contain, stored_hashes, written_after_commit,
};
use vstd::pervasive::VecAdditionalExecFns;
use vstd::prelude::*;

verus! {

broadcast use vstd::std_specs::vec::group_vec_axioms;

/// A Merkle Patricia trie over byte keys, held in memory. `TOP_LAYER_DEPTH`
/// is the depth of the layers that `flush_all` writes out in full.
pub struct MerklePatriciaTree<const TOP_LAYER_DEPTH: usize> {
    root: Option<TrieNode>,
    written: Vec<HashBytes>,
}

/// The value that the trie rooted at `root` holds for the byte key `k`.
pub open spec fn root_lookup(root: Option<TrieNode>, k: Seq<u8>) -> Option<Seq<u8>> {
    match root {
        None => None,
        Some(n) => lookup(n, spec_nibbles(k)),
    }
}

/// What `get` answers for the byte key `k` in the trie rooted at `root`.
pub open spec fn root_get(root: Option<TrieNode>, k: Seq<u8>) -> Option<Seq<u8>> {
    match root {
        None => None,
        Some(n) => spec_get(n, spec_nibbles(k)),
    }
}

/// The map of byte keys to values that the trie rooted at `root` holds.
pub open spec fn root_map(root: Option<TrieNode>) -> Map<Seq<u8>, Seq<u8>> {
    Map::new(|k: Seq<u8>| root_lookup(root, k) is Some, |k: Seq<u8>| root_lookup(root, k).unwrap())
}

/// Distinct byte keys have distinct nibble paths.
pub proof fn lemma_nibbles_injective(a: Seq<u8>, b: Seq<u8>)
    ensures
        spec_nibbles(a) == spec_nibbles(b) <==> a == b,
{
    lemma_pack_of_nibbles(a);
    lemma_pack_of_nibbles(b);
}

/// The nibble path `p` is the path of some byte key.
pub open spec fn is_key_path(p: Seq<u8>) -> bool {
    exists|k: Seq<u8>| #[trigger] spec_nibbles(k) == p
}

/// A root that the trie may hold: a well-formed node whose entries all sit at
/// the paths of byte keys.
pub open spec fn valid_root(root: Option<TrieNode>) -> bool {
    match root {
        None => true,
        Some(n) => wf(n) && forall|p: Seq<u8>| #[trigger] lookup(n, p) is Some ==> is_key_path(p),
    }
}

impl<const N: usize> MerklePatriciaTree<N> {
    /// The trie's validity: its root is well-formed and holds entries at the
    /// paths of byte keys only.
    #[verifier::type_invariant]
    pub closed spec fn well_formed(self) -> bool {
        valid_root(self.root)
    }

    /// The root node, if the trie holds anything.
    pub closed spec fn spec_root(self) -> Option<TrieNode> {
        self.root
    }

    /// The map of byte keys to values that the trie holds.
    pub open spec fn view(self) -> Map<Seq<u8>, Seq<u8>> {
        root_map(self.spec_root())
    }

    /// What `get` answers for the byte key `k`.
    pub open spec fn spec_get(self, k: Seq<u8>) -> Option<Seq<u8>> {
        root_get(self.spec_root(), k)
    }

    /// The empty trie.
    pub fn new() -> (r: Self)
        ensures
            r.spec_root() is None,
            r.view() == Map::<Seq<u8>, Seq<u8>>::empty(),
            r.spec_written() == Seq::<Seq<u8>>::empty(),
    {
        let r = MerklePatriciaTree { root: None, written: Vec::new() };
        assert(r.view() =~= Map::<Seq<u8>, Seq<u8>>::empty());
        assert(r.spec_written() =~= Seq::<Seq<u8>>::empty());
        r
    }

    /// The value stored for `key`. A key whose search ends at a branch that
    /// has no value of its own gives an empty value.
    pub fn get(&mut self, key: Vec<u8>) -> (r: Option<Vec<u8>>)
        requires
            key@.len() > 0,
            2 * key@.len() <= usize::MAX,
        ensures
            final(self).spec_root() == old(self).spec_root(),
            final(self).spec_written() == old(self).spec_written(),
            opt_bytes(r) == old(self).spec_get(key@),
    {
        proof {
            use_type_invariant(&*self);
        }
        match &self.root {
            None => None,
            Some(root) => {
                let path = bytes_to_nibble_list(key);
                proof {
                    assert(values(path@).skip(0) =~= values(path@));
                }
                get_in(root, path.as_slice(), 0)
            },
        }
    }

    /// Stores `val` for `key`; an empty `val` removes the key.
    pub fn put(&mut self, key: Vec<u8>, val: Vec<u8>)
        requires
            key@.len() > 0,
            2 * key@.len() <= usize::MAX,
        ensures
            final(self).view() == if val@.len() == 0 {
                old(self).view().remove(key@)
            } else {
                old(self).view().insert(key@, val@)
            },
            final(self).spec_written() == old(self).spec_written(),
    {
        if val.len() == 0 {
            return self.del(key);
        }
        proof {
            use_type_invariant(&*self);
        }
        let ghost k = key@;
        let ghost old_root = self.root;
        let path = bytes_to_nibble_list(key);
        let ghost pp = values(path@);
        assert(pp.skip(0) =~= pp);
        let mut taken: Option<TrieNode> = None;
        std::mem::swap(&mut taken, &mut self.root);
        let new_root = match taken {
            None => {
                let r = TrieNode::Leaf { key: path, value: val };
                r
            },
            Some(root) => insert(root, path.as_slice(), 0, val),
        };
        proof {
            assert forall|p: Seq<u8>| #[trigger] lookup(new_root, p) is Some implies is_key_path(p) by {
                if p == pp {
                    assert(spec_nibbles(k) == p);
                } else {
                    assert(lookup(old_root.unwrap(), p) is Some);
                }
            }
        }
        self.root = Some(new_root);
        proof {
            assert forall|q: Seq<u8>| #[trigger] root_lookup(self.root, q) == if q == k {
                Some(val@)
            } else {
                root_lookup(old_root, q)
            } by {
                lemma_nibbles_injective(q, k);
            }
            assert(self.view() =~= root_map(old_root).insert(k, val@));
        }
    }

    /// Removes `key`, if the trie holds it.
    fn del(&mut self, key: Vec<u8>)
        requires
            key@.len() > 0,
            2 * key@.len() <= usize::MAX,
        ensures
            final(self).view() == old(self).view().remove(key@),
            final(self).spec_written() == old(self).spec_written(),
    {
        proof {
            use_type_invariant(&*self);
        }
        let ghost k = key@;
        let ghost old_root = self.root;
        let path = bytes_to_nibble_list(key);
        let ghost pp = values(path@);
        assert(pp.skip(0) =~= pp);
        let mut taken: Option<TrieNode> = None;
        std::mem::swap(&mut taken, &mut self.root);
        match taken {
            None => {
                assert(self.view() =~= root_map(old_root).remove(k));
            },
            Some(root) => {
                let ghost rn = root;
                let r = remove(root, path.as_slice(), 0);
                proof {
                    if r is Some {
                        let n = r.unwrap();
                        assert forall|p: Seq<u8>| #[trigger] lookup(n, p) is Some implies is_key_path(p) by {
                            assert(lookup(rn, p) is Some);
                        }
                    }
                }
                self.root = r;
                proof {
                    assert forall|q: Seq<u8>| #[trigger] root_lookup(self.root, q) == if q == k {
                        None
                    } else {
                        root_lookup(old_root, q)
                    } by {
                        lemma_nibbles_injective(q, k);
                        if r is None {
                            if lookup(rn, spec_nibbles(q)) is Some {
                                assert(spec_nibbles(q) == pp);
                            }
                        }
                    }
                    assert(self.view() =~= root_map(old_root).remove(k));
                }
            },
        }
    }
}

/// The nodes of the trie rooted at `root` that are stored under their hash,
/// with depths counted up to `cap` (see `stored_nodes`).
pub open spec fn current_stored(root: Option<TrieNode>, cap: nat) -> Seq<(Seq<u8>, Seq<u8>, bool)> {
    match root {
        None => Seq::empty(),
        Some(n) => stored_nodes(n, 0, cap, true),
    }
}

/// The root hash of the trie rooted at `root`: the hash of the root node, or
/// 32 zero bytes for an empty trie.
pub open spec fn root_hash(root: Option<TrieNode>) -> Seq<u8> {
    match root {
        None => Seq::new(32, |i: int| 0u8),
        Some(n) => node_hash(n),
    }
}

/// Two valid roots that hold the same map of byte keys have the same root
/// hash.
pub proof fn lemma_same_map_same_root(r1: Option<TrieNode>, r2: Option<TrieNode>)
    requires
        valid_root(r1),
        valid_root(r2),
        root_map(r1) == root_map(r2),
    ensures
        root_hash(r1) == root_hash(r2),
{
    assert forall|k: Seq<u8>| #[trigger] root_lookup(r1, k) == root_lookup(r2, k) by {
        if root_lookup(r1, k) is Some || root_lookup(r2, k) is Some {
            assert(root_map(r1).dom().contains(k) == root_map(r2).dom().contains(k));
            assert(root_map(r1).dom().contains(k));
            assert(root_map(r1)[k] == root_map(r2)[k]);
        }
    }
    match (r1, r2) {
        (Some(n1), Some(n2)) => {
            assert forall|p: Seq<u8>| #![trigger lookup(n1, p)] #![trigger lookup(n2, p)] lookup(n1, p)
                == lookup(n2, p) by {
                if lookup(n1, p) is Some || lookup(n2, p) is Some {
                    let k = choose|k: Seq<u8>| #[trigger] spec_nibbles(k) == p;
                    assert(root_lookup(r1, k) == root_lookup(r2, k));
                }
            }
            lemma_same_entries_same_hash(n1, n2);
        },
        (Some(n1), None) => {
            lemma_nonempty(n1);
            let p = choose|p: Seq<u8>| (#[trigger] lookup(n1, p)) is Some;
            let k = choose|k: Seq<u8>| #[trigger] spec_nibbles(k) == p;
            assert(root_lookup(r1, k) == root_lookup(r2, k));
        },
        (None, Some(n2)) => {
            lemma_nonempty(n2);
            let p = choose|p: Seq<u8>| (#[trigger] lookup(n2, p)) is Some;
            let k = choose|k: Seq<u8>| #[trigger] spec_nibbles(k) == p;
            assert(root_lookup(r1, k) == root_lookup(r2, k));
        },
        (None, None) => {},
    }
}

/// The root hash of a trie that holds something.
pub open spec fn opt_root_hash(root: Option<TrieNode>) -> Option<Seq<u8>> {
    match root {
        None => None,
        Some(n) => Some(node_hash(n)),
    }
}

impl<const N: usize> MerklePatriciaTree<N> {
    /// The hashes of the nodes that the trie has written to its store and not
    /// removed since.
    pub closed spec fn spec_written(self) -> Seq<Seq<u8>> {
        hashes_view(self.written@)
    }

    /// The root hash is a function of the map the trie holds: two tries that
    /// hold the same keys with the same values have the same root hash,
    /// whatever order of insertions and deletions built them, and whatever
    /// depth of top layers either leaves out of its commits.
    pub proof fn lemma_same_map_same_root_hash<const M: usize>(a: Self, b: MerklePatriciaTree<M>)
        requires
            a.well_formed(),
            b.well_formed(),
            a.view() == b.view(),
        ensures
            root_hash(a.spec_root()) == root_hash(b.spec_root()),
    {
        lemma_same_map_same_root(a.root, b.root);
    }

    /// `get` reads back what `put` wrote: a key the trie holds is answered
    /// with its value, any other key with nothing or an empty value.
    pub proof fn lemma_get_reads_map(self, k: Seq<u8>)
        ensures
            self.view().contains_key(k) ==> self.spec_get(k) == Some(self.view()[k]),
            !self.view().contains_key(k) ==> (self.spec_get(k) is None || self.spec_get(k) == Some(
                Seq::<u8>::empty(),
            )),
    {
    }

    /// A trie that holds nothing has no root, so its root hash is 32 zero
    /// bytes.
    pub proof fn lemma_empty_map_no_root(self)
        requires
            self.well_formed(),
            self.view() == Map::<Seq<u8>, Seq<u8>>::empty(),
        ensures
            self.spec_root() is None,
            root_hash(self.spec_root()) == Seq::new(32, |i: int| 0u8),
    {
        if self.root is Some {
            let n = self.root.unwrap();
            lemma_nonempty(n);
            let p = choose|p: Seq<u8>| (#[trigger] lookup(n, p)) is Some;
            let k = choose|k: Seq<u8>| #[trigger] spec_nibbles(k) == p;
            assert(root_lookup(self.root, k) is Some);
            assert(self.view().contains_key(k));
        }
    }

    /// `get` answers nothing for a key that the trie does not hold and that
    /// no held key extends. (When a held key extends it, the search may stop
    /// at a branch without a value, and `get` answers an empty value.)
    pub proof fn lemma_get_absent(self, k: Seq<u8>)
        requires
            self.well_formed(),
            !self.view().contains_key(k),
            forall|k2: Seq<u8>| #[trigger] self.view().contains_key(k2) ==> !(k.len() < k2.len()
                && k2.take(k.len() as int) == k),
        ensures
            self.spec_get(k) is None,
    {
        if self.root is Some {
            let n = self.root.unwrap();
            let p = spec_nibbles(k);
            assert(root_lookup(self.root, k) is None);
            if ends_at_bare_branch(n, p) {
                lemma_bare_branch_below(n, p);
                let q = choose|q: Seq<u8>| q.len() > 0 && (#[trigger] lookup(n, p + q)) is Some;
                let k2 = choose|k2: Seq<u8>| #[trigger] spec_nibbles(k2) == p + q;
                assert(root_lookup(self.root, k2) is Some);
                assert(self.view().contains_key(k2));
                assert(spec_nibbles(k2).len() == 2 * k2.len());
                assert(k.len() < k2.len());
                let t = k2.take(k.len() as int);
                assert forall|j: int| 0 <= j < p.len() implies #[trigger] spec_nibbles(t)[j] == p[j] by {
                    assert(t[j / 2] == k2[j / 2]);
                    assert(spec_nibbles(k2)[j] == (p + q)[j]);
                }
                assert(spec_nibbles(t) =~= p);
                lemma_nibbles_injective(k2.take(k.len() as int), k);
            }
        }
    }

    /// The hash of the root node, if the trie holds anything.
    pub fn root(&self) -> (r: Option<HashBytes>)
        ensures
            match r {
                None => self.spec_root() is None,
                Some(h) => opt_root_hash(self.spec_root()) == Some(h@),
            },
    {
        match &self.root {
            None => None,
            Some(n) => Some(n.hash()),
        }
    }

    /// Gathers the stored nodes of the trie (see `current_stored`).
    fn stored(&self) -> (r: Vec<(HashBytes, Vec<u8>, bool)>)
        ensures
            stored_view(r@) == current_stored(self.spec_root(), N as nat),
            all_hashes(stored_hashes(current_stored(self.spec_root(), N as nat))),
    {
        let mut out: Vec<(HashBytes, Vec<u8>, bool)> = Vec::new();
        match &self.root {
            None => {
                assert(stored_view(out@) =~= Seq::empty());
            },
            Some(n) => {
                n.collect_stored(0, N, true, &mut out);
                assert(stored_view(out@) =~= Seq::<(Seq<u8>, Seq<u8>, bool)>::empty() + stored_view(out@));
            },
        }
        assert forall|i: int| 0 <= i < stored_hashes(stored_view(out@)).len() implies (
        #[trigger] stored_hashes(stored_view(out@))[i]).len() == 32 by {
            assert(stored_hashes(stored_view(out@))[i] == out@[i].0@);
        }
        out
    }

    /// Every written hash is 32 bytes long.
    pub proof fn lemma_written_hashes(&self)
        ensures
            all_hashes(self.spec_written()),
    {
        assert forall|i: int| 0 <= i < self.spec_written().len() implies (
        #[trigger] self.spec_written()[i]).len() == 32 by {
            assert(self.spec_written()[i] == self.written@[i]@);
        }
    }

    /// Brings the store up to date with the trie: the returned writes remove
    /// the written nodes that the trie no longer holds, store the nodes below
    /// the top `N` layers that are not yet written, and keep the root hash
    /// under the root key (or remove it for an empty trie). Returns the root
    /// hash, 32 zero bytes for an empty trie.
    pub fn commit(&mut self) -> (r: (HashBytes, DBTransaction))
        ensures
            final(self).spec_root() == old(self).spec_root(),
            r.0@ == root_hash(old(self).spec_root()),
            r.1.view() == commit_ops(
                opt_root_hash(old(self).spec_root()),
                old(self).spec_written(),
                current_stored(old(self).spec_root(), N as nat),
            ),
            final(self).spec_written() == written_after_commit(
                old(self).spec_written(),
                current_stored(old(self).spec_root(), N as nat),
            ),
            all_hashes(stored_hashes(current_stored(old(self).spec_root(), N as nat))),
    {
        proof {
            use_type_invariant(&*self);
        }
        let cur = self.stored();
        let ghost cs = stored_view(cur@);
        let ghost w = hashes_view(self.written@);
        let root_key_bytes: [u8; 1] = [0x80u8];
        assert(root_key_bytes@ =~= root_key());
        let mut tx = DBTransaction::new();
        let empty = self.root.is_none();
        if empty {
            tx.delete(0, root_key_bytes.as_slice());
        }
        let ghost head = tx.view();
        let mut next: Vec<HashBytes> = Vec::new();
        let mut i: usize = 0;
        while i < self.written.len()
            invariant
                i <= self.written@.len(),
                w == hashes_view(self.written@),
                cs == stored_view(cur@),
                tx.view() == head + delete_ops(stale(w.take(i as int), stored_hashes(cs))),
                hashes_view(next@) == kept(w.take(i as int), stored_hashes(cs)),
            decreases self.written@.len() - i,
        {
            let h = self.written[i];
            proof {
                assert(w.take(i + 1).drop_last() =~= w.take(i as int));
                assert(w.take(i + 1).last() == h@);
            }
            if stored_contain(&cur, h.as_slice()) {
                next.push(h);
                assert(hashes_view(next@) =~= kept(w.take(i as int), stored_hashes(cs)).push(h@));
            } else {
                tx.delete(0, h.as_slice());
                assert(delete_ops(stale(w.take(i as int), stored_hashes(cs)).push(h@)) =~= delete_ops(
                    stale(w.take(i as int), stored_hashes(cs)),
                ).push((0u32, h@, None::<Seq<u8>>)));
                assert(tx.view() =~= head + delete_ops(stale(w.take(i + 1), stored_hashes(cs))));
            }
            i = i + 1;
        }
        assert(w.take(self.written@.len() as int) =~= w);
        let ghost mid = tx.view();
        let ghost kept_part = hashes_view(next@);
        let mut j: usize = 0;
        while j < cur.len()
            invariant
                j <= cur@.len(),
                w == hashes_view(self.written@),
                cs == stored_view(cur@),
                tx.view() == mid + insert_ops(fresh(cs.take(j as int), w, false)),
                hashes_view(next@) == kept_part + stored_hashes(fresh(cs.take(j as int), w, false)),
            decreases cur@.len() - j,
        {
            let e = &cur[j];
            proof {
                assert(cs.take(j + 1).drop_last() =~= cs.take(j as int));
                assert(cs.take(j + 1).last() == (e.0@, e.1@, e.2));
            }
            if !e.2 && !hashes_contain(&self.written, e.0.as_slice()) {
                tx.put(0, e.0.as_slice(), e.1.as_slice());
                next.push(e.0);
                let ghost f = fresh(cs.take(j as int), w, false);
                assert(insert_ops(f.push((e.0@, e.1@, e.2))) =~= insert_ops(f).push(
                    (0u32, e.0@, Some(e.1@)),
                ));
                assert(stored_hashes(f.push((e.0@, e.1@, e.2))) =~= stored_hashes(f).push(e.0@));
                assert(tx.view() =~= mid + insert_ops(fresh(cs.take(j + 1), w, false)));
                assert(hashes_view(next@) =~= (kept_part + stored_hashes(f)).push(e.0@));
                assert(fresh(cs.take(j + 1), w, false) == f.push((e.0@, e.1@, e.2)));
                assert((kept_part + stored_hashes(f)).push(e.0@) =~= kept_part + stored_hashes(f).push(e.0@));
            }
            j = j + 1;
        }
        assert(cs.take(cur@.len() as int) =~= cs);
        let hash: HashBytes = if empty {
            [0u8; 32]
        } else {
            let last = cur.len() - 1;
            let h = cur[last].0;
            tx.put(0, root_key_bytes.as_slice(), h.as_slice());
            h
        };
        proof {
            if empty {
                assert(hash@ =~= root_hash(old(self).spec_root()));
            }
            assert(tx.view() =~= commit_ops(opt_root_hash(self.root), w, cs));
        }
        self.written = next;
        (hash, tx)
    }

    /// Writes out every stored node of the top `N` layers, the nodes that
    /// `commit` leaves in memory only.
    pub fn flush_all(&mut self) -> (r: DBTransaction)
        ensures
            final(self).spec_root() == old(self).spec_root(),
            r.view() == insert_ops(top_layer(current_stored(old(self).spec_root(), N as nat))),
            final(self).spec_written() == old(self).spec_written() + stored_hashes(
                fresh(current_stored(old(self).spec_root(), N as nat), old(self).spec_written(), true),
            ),
            all_hashes(stored_hashes(current_stored(old(self).spec_root(), N as nat))),
    {
        proof {
            use_type_invariant(&*self);
        }
        let cur = self.stored();
        let ghost cs = stored_view(cur@);
        let ghost w = hashes_view(self.written@);
        let mut tx = DBTransaction::new();
        let mut added: Vec<HashBytes> = Vec::new();
        let mut j: usize = 0;
        while j < cur.len()
            invariant
                j <= cur@.len(),
                w == hashes_view(self.written@),
                cs == stored_view(cur@),
                tx.view() == insert_ops(top_layer(cs.take(j as int))),
                hashes_view(added@) == stored_hashes(fresh(cs.take(j as int), w, true)),
            decreases cur@.len() - j,
        {
            let e = &cur[j];
            let ghost t = top_layer(cs.take(j as int));
            let ghost f = fresh(cs.take(j as int), w, true);
            proof {
                assert(cs.take(j + 1).drop_last() =~= cs.take(j as int));
                assert(cs.take(j + 1).last() == (e.0@, e.1@, e.2));
            }
            if e.2 {
                tx.put(0, e.0.as_slice(), e.1.as_slice());
                assert(insert_ops(t.push((e.0@, e.1@, e.2))) =~= insert_ops(t).push((0u32, e.0@, Some(e.1@))));
                if !hashes_contain(&self.written, e.0.as_slice()) {
                    added.push(e.0);
                    assert(stored_hashes(f.push((e.0@, e.1@, e.2))) =~= stored_hashes(f).push(e.0@));
                }
            }
            j = j + 1;
        }
        assert(cs.take(cur@.len() as int) =~= cs);
        let mut next: Vec<HashBytes> = Vec::new();
        std::mem::swap(&mut next, &mut self.written);
        let mut k: usize = 0;
        while k < added.len()
            invariant
                k <= added@.len(),
                hashes_view(next@) == w + hashes_view(added@).take(k as int),
            decreases added@.len() - k,
        {
            let ghost before = next@;
            next.push(added[k]);
            assert(hashes_view(next@) =~= hashes_view(before).push(added@[k as int]@));
            assert(hashes_view(added@).take(k + 1) =~= hashes_view(added@).take(k as int).push(added@[k as int]@));
            assert(hashes_view(next@) =~= w + hashes_view(added@).take(k + 1));
            k = k + 1;
        }
        assert(hashes_view(added@).take(added@.len() as int) =~= hashes_view(added@));
        self.written = next;
        tx
    }
}

/// The leaf `Leaf { key, value }` seen as a child.
pub open spec fn leaf_child(key: Seq<Nibble>, value: Seq<u8>, s: Seq<u8>) -> Option<Seq<u8>> {
    if values(key) == s {
        Some(value)
    } else {
        None
    }
}

/// Inserts `val` at the nibble path `path[pos..]` below `node`: the search
/// follows the path down to the node where it ends or leaves the trie, and
/// the value is stored there.
pub fn insert(node: TrieNode, path: &[Nibble], pos: usize, val: Vec<u8>) -> (r: TrieNode)
    requires
        wf(node),
        val@.len() > 0,
        pos <= path@.len(),
    ensures
        wf(r),
        node is Branch ==> r is Branch,
        forall|q: Seq<u8>|
            #[trigger] lookup(r, q) == if q == values(path@).skip(pos as int) {
                Some(val@)
            } else {
                lookup(node, q)
            },
    decreases node, 1int,
{
    let ghost pp = values(path@).skip(pos as int);
    let ghost old_node = node;
    let plen = path.len();
    match node {
        TrieNode::Leaf { key, value } => {
            if key_equals(key.as_slice(), path, pos) {
                TrieNode::Leaf { key, value: val }
            } else {
                insert_on_leaf(key, value, path, pos, val)
            }
        },
        TrieNode::Extension { key, child } => {
            if key_is_prefix(key.as_slice(), path, pos) {
                let ghost kk = values(key@);
                match child {
                    ChildRef::Owned(b) => {
                        let ghost old_b = *b;
                        let new_child = insert(*b, path, pos + key.len(), val);
                        let new_ref = ChildRef::Owned(Box::new(new_child));
                        proof {
                            assert forall|t: Seq<u8>| #[trigger] child_lookup(new_ref, t) == lookup(new_child, t) by {}
                            assert forall|q: Seq<u8>| #[trigger] lookup(old_node, q) == if starts_with(q, kk) {
                                lookup(old_b, q.skip(kk.len() as int))
                            } else {
                                None
                            } by {
                                if starts_with(q, kk) {
                                    assert(child_lookup(ChildRef::Owned(Box::new(old_b)), q.skip(kk.len() as int)) == lookup(old_b, q.skip(kk.len() as int)));
                                }
                            }
                        }
                        let r = TrieNode::Extension { key, child: new_ref };
                        proof {
                            assert forall|q: Seq<u8>|
                                #[trigger] lookup(r, q) == if q == pp {
                                    Some(val@)
                                } else {
                                    lookup(old_node, q)
                                } by {
                                assert(values(path@).skip(pos + kk.len()) =~= pp.skip(kk.len() as int));
                                if starts_with(q, kk) {
                                    assert(lookup(r, q) == child_lookup(new_ref, q.skip(kk.len() as int)));
                                    lemma_take_skip(q, kk.len() as int);
                                    lemma_take_skip(pp, kk.len() as int);
                                    if q.skip(kk.len() as int) == pp.skip(kk.len() as int) {
                                        assert(q == pp);
                                    } else {
                                        assert(q != pp);
                                    }
                                } else {
                                    assert(q != pp);
                                }
                            }
                        }
                        r
                    },
                    ChildRef::Null => TrieNode::Extension { key, child: ChildRef::Null },
                    ChildRef::Ref(h) => TrieNode::Extension { key, child: ChildRef::Ref(h) },
                }
            } else {
                insert_on_extension(key, child, path, pos, val)
            }
        },
        TrieNode::Branch { children, value } => {
            if pos == path.len() {
                let r = TrieNode::Branch { children, value: val };
                proof {
                    assert forall|q: Seq<u8>|
                        #[trigger] lookup(r, q) == if q == pp {
                            Some(val@)
                        } else {
                            lookup(old_node, q)
                        } by {
                        if q.len() == 0 {
                            assert(q =~= pp);
                        }
                    }
                }
                r
            } else {
                insert_on_branch(children, value, path, pos, val)
            }
        },
    }
}

/// Inserts `val` at the non-empty nibble path `path[pos..]` below the branch
/// `Branch { children, value }`: into the child under the first nibble when
/// there is one, else as a new leaf there.
pub fn insert_on_branch(children: ChildRefGroup, value: Vec<u8>, path: &[Nibble], pos: usize, val: Vec<u8>) -> (r: TrieNode)
    requires
        wf((TrieNode::Branch { children, value })),
        val@.len() > 0,
        pos < path@.len(),
    ensures
        wf(r),
        r is Branch,
        forall|q: Seq<u8>|
            #[trigger] lookup(r, q) == if q == values(path@).skip(pos as int) {
                Some(val@)
            } else {
                lookup((TrieNode::Branch { children, value }), q)
            },
    decreases (TrieNode::Branch { children, value }), 0int,
{
    let ghost pp = values(path@).skip(pos as int);
    let ghost old_node = TrieNode::Branch { children, value };
    let ghost cs = children.0@;
    let mut children = children;
    let idx = path[pos].inner() as usize;
    proof {
        assert(pp[0] == idx);
        assert(values(path@).skip(pos + 1) =~= pp.drop_first());
        lemma_children_wf_at(cs, idx as int);
    }
    let mut slot = ChildRef::Null;
    children.0.set_and_swap(idx, &mut slot);
    let ghost old_child = slot;
    assert(old_child == cs[idx as int]);
    let new_child = match slot {
        ChildRef::Owned(b) => {
            let ghost old_b = *b;
            let nb = insert(*b, path, pos + 1, val);
            let nc = ChildRef::Owned(Box::new(nb));
            proof {
                assert forall|t: Seq<u8>| #[trigger] child_lookup(nc, t) == if t == pp.drop_first() {
                    Some(val@)
                } else {
                    child_lookup(old_child, t)
                } by {
                    assert(child_lookup(nc, t) == lookup(nb, t));
                    assert(child_lookup(old_child, t) == lookup(old_b, t));
                }
            }
            nc
        },
        _ => {
            let leaf_key = sub_nibbles(path, pos + 1, path.len());
            proof {
                assert(values(leaf_key@) =~= pp.drop_first());
            }
            let nc = ChildRef::Owned(Box::new(TrieNode::Leaf { key: leaf_key, value: val }));
            proof {
                assert forall|t: Seq<u8>| #[trigger] child_lookup(nc, t) == if t == pp.drop_first() {
                    Some(val@)
                } else {
                    child_lookup(old_child, t)
                } by {
                    lemma_leaf_child_lookup(nc, pp.drop_first(), val@, t);
                }
            }
            nc
        },
    };
    proof {
        lemma_count_update(cs, idx as int, new_child);
        lemma_children_wf_update(cs, idx as int, new_child);
    }
    let ghost with_null = children.0@;
    children.0.set(idx, new_child);
    assert(children.0@ =~= cs.update(idx as int, new_child));
    let r = TrieNode::Branch { children, value };
    proof {
        assert forall|q: Seq<u8>|
            #[trigger] lookup(r, q) == if q == pp {
                Some(val@)
            } else {
                lookup(old_node, q)
            } by {
            if q.len() > 0 && q[0] == idx {
                assert(lookup(r, q) == child_lookup(new_child, q.drop_first()));
                assert(lookup(old_node, q) == child_lookup(old_child, q.drop_first()));
                if q.drop_first() == pp.drop_first() {
                    lemma_cons_eq(q, pp);
                } else {
                    assert(q != pp);
                }
            } else if q.len() > 0 {
                assert(q != pp);
                if q[0] < 16 {
                    assert(children.0@[q[0] as int] == cs[q[0] as int]);
                }
            } else {
                assert(q != pp);
            }
        }
    }
    r
}

/// What remains of `node` after its entry at `p` is removed: nothing, when
/// that was its only entry, or a well-formed node holding everything else.
pub open spec fn removed_from(node: TrieNode, p: Seq<u8>, r: Option<TrieNode>) -> bool {
    match r {
        None => forall|q: Seq<u8>| #[trigger] lookup(node, q) is Some ==> q == p,
        Some(n) => wf(n) && forall|q: Seq<u8>|
            #[trigger] lookup(n, q) == if q == p {
                None
            } else {
                lookup(node, q)
            },
    }
}

/// Removes the entry at the nibble path `path[pos..]` below `node`, if there
/// is one, and restores the shape of the trie: a branch left with a single
/// entry is replaced by a leaf or an extension, and an extension above such a
/// node is merged into it.
pub fn remove(node: TrieNode, path: &[Nibble], pos: usize) -> (r: Option<TrieNode>)
    requires
        wf(node),
        pos <= path@.len(),
    ensures
        removed_from(node, values(path@).skip(pos as int), r),
        node is Branch ==> r is Some,
    decreases node, 1int,
{
    let ghost pp = values(path@).skip(pos as int);
    let ghost old_node = node;
    let plen = path.len();
    match node {
        TrieNode::Leaf { key, value } => {
            if key_equals(key.as_slice(), path, pos) {
                None
            } else {
                let r = TrieNode::Leaf { key, value };
                proof {
                    assert forall|q: Seq<u8>| #[trigger] lookup(r, q) == if q == pp {
                        None
                    } else {
                        lookup(old_node, q)
                    } by {}
                }
                Some(r)
            }
        },
        TrieNode::Extension { key, child } => {
            if key_is_prefix(key.as_slice(), path, pos) {
                let ghost kk = values(key@);
                match child {
                    ChildRef::Owned(b) => {
                        let ghost old_b = *b;
                        let removed = remove(*b, path, pos + key.len());
                        proof {
                            assert(values(path@).skip(pos + kk.len()) =~= pp.skip(kk.len() as int));
                            assert forall|q: Seq<u8>| #[trigger] lookup(old_node, q) == if starts_with(q, kk) {
                                lookup(old_b, q.skip(kk.len() as int))
                            } else {
                                None
                            } by {
                                if starts_with(q, kk) {
                                    assert(child_lookup(ChildRef::Owned(Box::new(old_b)), q.skip(kk.len() as int)) == lookup(old_b, q.skip(kk.len() as int)));
                                }
                            }
                        }
                        let n = match removed {
                            Some(n) => n,
                            None => {
                                return None;
                            },
                        };
                        let ghost gn = n;
                        let r = merge_extension(key, n);
                        proof {
                            assert forall|q: Seq<u8>|
                                #[trigger] lookup(r, q) == if q == pp {
                                    None
                                } else {
                                    lookup(old_node, q)
                                } by {
                                if starts_with(q, kk) {
                                    lemma_take_skip(q, kk.len() as int);
                                    lemma_take_skip(pp, kk.len() as int);
                                    if q.skip(kk.len() as int) == pp.skip(kk.len() as int) {
                                        assert(q == pp);
                                    } else {
                                        assert(q != pp);
                                    }
                                } else {
                                    assert(q != pp);
                                }
                            }
                        }
                        Some(r)
                    },
                    ChildRef::Null => Some(TrieNode::Extension { key, child: ChildRef::Null }),
                    ChildRef::Ref(h) => Some(TrieNode::Extension { key, child: ChildRef::Ref(h) }),
                }
            } else {
                let r = TrieNode::Extension { key, child };
                proof {
                    assert forall|q: Seq<u8>| #[trigger] lookup(r, q) == if q == pp {
                        None
                    } else {
                        lookup(old_node, q)
                    } by {}
                }
                Some(r)
            }
        },
        TrieNode::Branch { children, value } => Some(remove_on_branch(children, value, path, pos)),
    }
}

/// Puts the key `key` in front of `n`: an extension leading to `n` when `n`
/// is a branch, else `n` with its key extended.
pub fn merge_extension(key: Vec<Nibble>, n: TrieNode) -> (r: TrieNode)
    requires
        key@.len() > 0,
        wf(n),
    ensures
        wf(r),
        forall|q: Seq<u8>|
            #[trigger] lookup(r, q) == if starts_with(q, values(key@)) {
                lookup(n, q.skip(key@.len() as int))
            } else {
                None
            },
{
    let ghost kk = values(key@);
    let ghost old = n;
    match n {
        TrieNode::Branch { children, value } => {
            let nb = TrieNode::Branch { children, value };
            let r = TrieNode::Extension { key, child: ChildRef::Owned(Box::new(nb)) };
            proof {
                assert(nb == old);
                assert forall|q: Seq<u8>|
                    #[trigger] lookup(r, q) == if starts_with(q, kk) {
                        lookup(old, q.skip(kk.len() as int))
                    } else {
                        None
                    } by {
                    if starts_with(q, kk) {
                        assert(lookup(r, q) == child_lookup(ChildRef::Owned(Box::new(nb)), q.skip(kk.len() as int)));
                    }
                }
            }
            r
        },
        TrieNode::Leaf { key: k2, value } => {
            let mut k2 = k2;
            let ghost k1 = k2@;
            add_prefix(&mut k2, key.as_slice());
            let r = TrieNode::Leaf { key: k2, value };
            proof {
                assert(values(k2@) =~= kk + values(k1));
                lemma_prefixed_lookup(old, r, kk);
            }
            r
        },
        TrieNode::Extension { key: k2, child } => {
            let mut k2 = k2;
            let ghost k1 = k2@;
            add_prefix(&mut k2, key.as_slice());
            let r = TrieNode::Extension { key: k2, child };
            proof {
                assert(values(k2@) =~= kk + values(k1));
                lemma_prefixed_lookup(old, r, kk);
            }
            r
        },
    }
}

/// Removes the entry at the nibble path `path[pos..]` below the branch
/// `Branch { children, value }`: its own value when the path ends here, else
/// the entry in the child under the first nibble. A branch left with a single
/// entry is replaced by a leaf or an extension.
pub fn remove_on_branch(children: ChildRefGroup, value: Vec<u8>, path: &[Nibble], pos: usize) -> (r: TrieNode)
    requires
        wf((TrieNode::Branch { children, value })),
        pos <= path@.len(),
    ensures
        removed_from((TrieNode::Branch { children, value }), values(path@).skip(pos as int), Some(r)),
    decreases (TrieNode::Branch { children, value }), 0int,
{
    let ghost pp = values(path@).skip(pos as int);
    let ghost old_node = TrieNode::Branch { children, value };
    let ghost cs = children.0@;
    let mut children = children;
    if pos == path.len() {
        let empty: Vec<u8> = Vec::new();
        proof {
            assert(pp.len() == 0);
            assert forall|q: Seq<u8>|
                #[trigger] lookup((TrieNode::Branch { children, value: empty }), q) == if q == pp {
                    None
                } else {
                    lookup(old_node, q)
                } by {
                if q.len() == 0 {
                    assert(q =~= pp);
                }
            }
        }
        return collapse_or_keep(children, empty, Ghost(old_node), Ghost(pp));
    }
    let idx = path[pos].inner() as usize;
    proof {
        assert(pp[0] == idx);
        assert(values(path@).skip(pos + 1) =~= pp.drop_first());
        lemma_children_wf_at(cs, idx as int);
    }
    let mut slot = ChildRef::Null;
    children.0.set_and_swap(idx, &mut slot);
    let ghost old_child = slot;
    assert(old_child == cs[idx as int]);
    match slot {
        ChildRef::Owned(b) => {
            let ghost old_b = *b;
            proof {
                assert forall|t: Seq<u8>| #[trigger] child_lookup(old_child, t) == lookup(old_b, t) by {}
            }
            match remove(*b, path, pos + 1) {
                Some(n) => {
                    let nc = ChildRef::Owned(Box::new(n));
                    proof {
                        lemma_count_update(cs, idx as int, nc);
                        lemma_children_wf_update(cs, idx as int, nc);
                        assert forall|t: Seq<u8>| #[trigger] child_lookup(nc, t) == lookup(n, t) by {}
                    }
                    children.0.set(idx, nc);
                    assert(children.0@ =~= cs.update(idx as int, nc));
                    let r = TrieNode::Branch { children, value };
                    proof {
                        assert forall|q: Seq<u8>|
                            #[trigger] lookup(r, q) == if q == pp {
                                None
                            } else {
                                lookup(old_node, q)
                            } by {
                            if q.len() > 0 && q[0] == idx {
                                assert(lookup(r, q) == child_lookup(nc, q.drop_first()));
                                assert(lookup(old_node, q) == child_lookup(old_child, q.drop_first()));
                                if q.drop_first() == pp.drop_first() {
                                    lemma_cons_eq(q, pp);
                                } else {
                                    assert(q != pp);
                                }
                            } else if q.len() > 0 {
                                assert(q != pp);
                                if q[0] < 16 {
                                    assert(children.0@[q[0] as int] == cs[q[0] as int]);
                                }
                            } else {
                                assert(q != pp);
                            }
                        }
                    }
                    r
                },
                None => {
                    proof {
                        lemma_count_update(cs, idx as int, ChildRef::Null);
                        lemma_children_wf_update(cs, idx as int, ChildRef::Null);
                        assert(children.0@ =~= cs.update(idx as int, ChildRef::Null));
                        assert forall|q: Seq<u8>|
                            #[trigger] lookup((TrieNode::Branch { children, value }), q) == if q == pp {
                                None
                            } else {
                                lookup(old_node, q)
                            } by {
                            if q.len() > 0 && q[0] == idx {
                                assert(lookup(old_node, q) == child_lookup(old_child, q.drop_first()));
                                if q.drop_first() == pp.drop_first() {
                                    lemma_cons_eq(q, pp);
                                } else {
                                    assert(q != pp);
                                }
                            } else if q.len() > 0 {
                                assert(q != pp);
                                if q[0] < 16 {
                                    assert(children.0@[q[0] as int] == cs[q[0] as int]);
                                }
                            } else {
                                assert(q != pp);
                            }
                        }
                    }
                    collapse_or_keep(children, value, Ghost(old_node), Ghost(pp))
                },
            }
        },
        other => {
            children.0.set(idx, other);
            assert(children.0@ =~= cs);
            let r = TrieNode::Branch { children, value };
            proof {
                assert(lookup(old_node, pp) == child_lookup(old_child, pp.drop_first()));
                assert forall|q: Seq<u8>|
                    #[trigger] lookup(r, q) == if q == pp {
                        None
                    } else {
                        lookup(old_node, q)
                    } by {}
            }
            r
        },
    }
}

/// A branch that may hold fewer than two entries after a removal: it is kept
/// when it still has two, replaced by a leaf of its value when that is all it
/// has, or by the node that its single child becomes.
fn collapse_or_keep(children: ChildRefGroup, value: Vec<u8>, Ghost(old_node): Ghost<TrieNode>, Ghost(pp): Ghost<Seq<u8>>) -> (r: TrieNode)
    requires
        children.0@.len() == 16,
        all_children_wf(children.0@),
        count_present(children.0@) + (if value@.len() > 0 {
            1nat
        } else {
            0nat
        }) >= 1,
        forall|q: Seq<u8>|
            #[trigger] lookup((TrieNode::Branch { children, value }), q) == if q == pp {
                None
            } else {
                lookup(old_node, q)
            },
    ensures
        removed_from(old_node, pp, Some(r)),
{
    let ghost cs = children.0@;
    let ghost before = TrieNode::Branch { children, value };
    if value.len() == 0 {
        match children.only_child() {
            Some(i) => {
                let mut children = children;
                let mut slot = ChildRef::Null;
                children.0.set_and_swap(i, &mut slot);
                proof {
                    lemma_children_wf_at(cs, i as int);
                }
                let r = drop_single_child_branch(crate::nibble::Nibble::from_lo(i as u8), slot);
                proof {
                    assert forall|q: Seq<u8>| #[trigger] lookup(r, q) == lookup(before, q) by {
                        let a = seq![i as u8];
                        if q.len() > 0 && q[0] == i {
                            assert(q.take(1) =~= a);
                            assert(q.skip(1) =~= q.drop_first());
                        } else if q.len() > 0 {
                            if q[0] < 16 {
                                assert(cs[q[0] as int] is Null);
                            }
                            if starts_with(q, a) {
                                assert(q.take(1)[0] == q[0]);
                            }
                            assert(!starts_with(q, a));
                        } else {
                            assert(!starts_with(q, a));
                        }
                    }
                }
                r
            },
            None => TrieNode::Branch { children, value },
        }
    } else {
        if children.no_child() {
            let r = TrieNode::Leaf { key: Vec::new(), value };
            proof {
                assert forall|q: Seq<u8>| #[trigger] lookup(r, q) == lookup(before, q) by {
                    if q.len() > 0 && q[0] < 16 {
                        assert(cs[q[0] as int] is Null);
                    }
                    if q.len() == 0 {
                        assert(values(Seq::<Nibble>::empty()) =~= q);
                    }
                }
            }
            r
        } else {
            TrieNode::Branch { children, value }
        }
    }
}

/// `q` begins with `a + k` exactly when it begins with `a` and its rest begins
/// with `k`.
pub proof fn lemma_starts_with_concat(q: Seq<u8>, a: Seq<u8>, k: Seq<u8>)
    ensures
        starts_with(q, a + k) <==> (starts_with(q, a) && starts_with(q.skip(a.len() as int), k)),
        starts_with(q, a + k) ==> q.skip((a + k).len() as int) == q.skip(a.len() as int).skip(k.len() as int),
{
    if starts_with(q, a + k) {
        assert(q.take(a.len() as int) =~= (a + k).take(a.len() as int));
        assert((a + k).take(a.len() as int) =~= a);
        assert(q.skip(a.len() as int).take(k.len() as int) =~= k) by {
            assert forall|j: int| 0 <= j < k.len() implies q.skip(a.len() as int).take(k.len() as int)[j] == k[j] by {
                assert(q.take((a + k).len() as int)[a.len() + j] == (a + k)[a.len() + j]);
            }
        }
        assert(q.skip((a + k).len() as int) =~= q.skip(a.len() as int).skip(k.len() as int));
    }
    if starts_with(q, a) && starts_with(q.skip(a.len() as int), k) {
        assert forall|j: int| 0 <= j < (a + k).len() implies q.take((a + k).len() as int)[j] == (a + k)[j] by {
            if j < a.len() {
                assert(q.take(a.len() as int)[j] == a[j]);
            } else {
                assert(q.skip(a.len() as int).take(k.len() as int)[j - a.len()] == k[j - a.len()]);
            }
        }
        assert(q.take((a + k).len() as int) =~= a + k);
    }
}

/// A leaf or extension whose key is `a` followed by the key of `old`, and
/// which is otherwise the same: it holds what `old` holds, under `a`.
pub proof fn lemma_prefixed_lookup(old: TrieNode, new: TrieNode, a: Seq<u8>)
    requires
        (old matches TrieNode::Leaf { key: k1, value: v1 } && new matches TrieNode::Leaf { key: k2, value: v2 }
            && values(k2@) == a + values(k1@) && v1 == v2) || (old matches TrieNode::Extension {
            key: k1,
            child: c1,
        } && new matches TrieNode::Extension { key: k2, child: c2 } && values(k2@) == a + values(k1@)
            && c1 == c2),
    ensures
        forall|q: Seq<u8>|
            #[trigger] lookup(new, q) == if starts_with(q, a) {
                lookup(old, q.skip(a.len() as int))
            } else {
                None
            },
{
    assert forall|q: Seq<u8>|
        #[trigger] lookup(new, q) == if starts_with(q, a) {
            lookup(old, q.skip(a.len() as int))
        } else {
            None
        } by {
        match old {
            TrieNode::Leaf { key: k1, .. } => {
                let k = values(k1@);
                if q == a + k {
                    assert(q.take(a.len() as int) =~= a);
                    assert(q.skip(a.len() as int) =~= k);
                } else if starts_with(q, a) {
                    lemma_take_skip(q, a.len() as int);
                    assert(q.skip(a.len() as int) != k);
                }
            },
            TrieNode::Extension { key: k1, .. } => {
                lemma_starts_with_concat(q, a, values(k1@));
            },
            _ => {},
        }
    }
}

/// Replaces a branch that has no value and a single child `child_ref` under
/// `idx` by a node that is not a branch: the child itself with `idx` put in
/// front of its key, or an extension of `idx` leading to it.
pub fn drop_single_child_branch(idx: Nibble, child_ref: ChildRef) -> (r: TrieNode)
    requires
        child_ref is Owned,
        child_wf(child_ref),
    ensures
        wf(r),
        !(r is Branch),
        forall|q: Seq<u8>|
            #[trigger] lookup(r, q) == if starts_with(q, seq![idx.value()]) {
                child_lookup(child_ref, q.skip(1))
            } else {
                None
            },
{
    let ghost a = seq![idx.value()];
    let ghost old_ref = child_ref;
    match child_ref {
        ChildRef::Owned(b) => {
            let ghost old = *b;
            proof {
                assert forall|t: Seq<u8>| #[trigger] child_lookup(old_ref, t) == lookup(old, t) by {}
            }
            match *b {
                TrieNode::Leaf { key, value } => {
                    let mut key = key;
                    let ghost k1 = key@;
                    add_prefix(&mut key, &[idx]);
                    let r = TrieNode::Leaf { key, value };
                    proof {
                        assert(values(key@) =~= a + values(k1));
                        lemma_prefixed_lookup(old, r, a);
                        assert(a.len() == 1);
                    }
                    r
                },
                TrieNode::Extension { key, child } => {
                    let mut key = key;
                    let ghost k1 = key@;
                    add_prefix(&mut key, &[idx]);
                    let r = TrieNode::Extension { key, child };
                    proof {
                        assert(values(key@) =~= a + values(k1));
                        lemma_prefixed_lookup(old, r, a);
                        assert(a.len() == 1);
                    }
                    r
                },
                TrieNode::Branch { children, value } => {
                    let nb = TrieNode::Branch { children, value };
                    let mut k: Vec<Nibble> = Vec::new();
                    k.push(idx);
                    let r = TrieNode::Extension { key: k, child: ChildRef::Owned(Box::new(nb)) };
                    proof {
                        assert(values(k@) =~= a);
                        assert(nb == old);
                        assert forall|q: Seq<u8>|
                            #[trigger] lookup(r, q) == if starts_with(q, a) {
                                child_lookup(old_ref, q.skip(1))
                            } else {
                                None
                            } by {
                            if starts_with(q, a) {
                                assert(lookup(r, q) == child_lookup(ChildRef::Owned(Box::new(nb)), q.skip(1)));
                            }
                        }
                    }
                    r
                },
            }
        },
        _ => TrieNode::Leaf { key: Vec::new(), value: vec![0u8] },
    }
}

/// Inserts `val` at the nibble path `path[pos..]` below the leaf
/// `Leaf { key, value }` whose key differs from that path: the leaf becomes a
/// branch holding both entries, behind an extension for their common prefix
/// when there is one.
pub fn insert_on_leaf(key: Vec<Nibble>, value: Vec<u8>, path: &[Nibble], pos: usize, val: Vec<u8>) -> (r: TrieNode)
    requires
        value@.len() > 0,
        val@.len() > 0,
        pos <= path@.len(),
        values(key@) != values(path@).skip(pos as int),
    ensures
        wf(r),
        forall|q: Seq<u8>|
            #[trigger] lookup(r, q) == if q == values(path@).skip(pos as int) {
                Some(val@)
            } else {
                leaf_child(key@, value@, q)
            },
{
    let ghost kk = values(key@);
    let ghost pp = values(path@).skip(pos as int);
    let ghost old_value = value@;
    let ghost new_value = val@;
    let rest = sub_nibbles(path, pos, path.len());
    assert(values(rest@) =~= pp);
    let intersection = common_prefix_iter(rest.as_slice(), key.as_slice());
    let c = intersection.len();
    let ghost ci = c as int;
    proof {
        assert(pp.take(ci) =~= values(intersection@));
        assert(kk.take(ci) =~= values(intersection@));
        lemma_take_skip(pp, ci);
        lemma_take_skip(kk, ci);
        assert(pp.skip(ci) != kk.skip(ci));
    }
    let mut children = empty_children();
    let mut branch_value: Vec<u8> = Vec::new();
    if c < rest.len() {
        let idx = rest[c].inner() as usize;
        let leaf_key = sub_nibbles(rest.as_slice(), c + 1, rest.len());
        proof {
            assert(pp.skip(ci)[0] == idx);
            assert(values(leaf_key@) =~= pp.skip(ci).drop_first());
        }
        let leaf = TrieNode::Leaf { key: leaf_key, value: val };
        let ghost before = children.0@;
        let child = ChildRef::Owned(Box::new(leaf));
        proof {
            lemma_count_update(before, idx as int, child);
            lemma_children_wf_update(before, idx as int, child);
        }
        children.0.set(idx, child);
    } else {
        branch_value = val;
    }
    let ghost after_first = children.0@;
    if c < key.len() {
        let idx = key[c].inner() as usize;
        let leaf_key = sub_nibbles(key.as_slice(), c + 1, key.len());
        proof {
            assert(kk.skip(ci)[0] == idx);
            assert(values(leaf_key@) =~= kk.skip(ci).drop_first());
            if c < rest@.len() {
                crate::nibble::lemma_value_injective(rest@[ci], key@[ci]);
                assert(pp.skip(ci)[0] != kk.skip(ci)[0]);
            }
        }
        let leaf = TrieNode::Leaf { key: leaf_key, value };
        let ghost before = children.0@;
        let child = ChildRef::Owned(Box::new(leaf));
        proof {
            lemma_count_update(before, idx as int, child);
            lemma_children_wf_update(before, idx as int, child);
        }
        children.0.set(idx, child);
    } else {
        branch_value = value;
    }
    let branch = TrieNode::Branch { children, value: branch_value };
    proof {
        lemma_branch_of_two(branch, pp.skip(ci), kk.skip(ci), new_value, old_value);
        assert(wf(branch));
    }
    if c > 0 {
        let r = TrieNode::Extension { key: intersection, child: ChildRef::Owned(Box::new(branch)) };
        proof {
            assert forall|q: Seq<u8>|
                #[trigger] lookup(r, q) == if q == pp {
                    Some(new_value)
                } else {
                    leaf_child(key@, old_value, q)
                } by {
                let kc = values(intersection@);
                if starts_with(q, kc) {
                    lemma_take_skip(q, ci);
                    assert(child_lookup(ChildRef::Owned(Box::new(branch)), q.skip(ci)) == lookup(branch, q.skip(ci)));
                    if q.skip(ci) == pp.skip(ci) {
                        assert(q == pp);
                    } else if q.skip(ci) == kk.skip(ci) {
                        assert(q == kk);
                    } else {
                        assert(q != pp);
                        assert(q != kk);
                    }
                } else {
                    assert(q != pp);
                    assert(q != kk);
                }
            }
        }
        r
    } else {
        proof {
            assert(pp.skip(0) =~= pp);
            assert(kk.skip(0) =~= kk);
        }
        branch
    }
}

/// Inserts `val` at the nibble path `path[pos..]` below the extension
/// `Extension { key, child }` when that path does not begin with the
/// extension's key: a branch at the first differing nibble holds the rest of
/// the extension and the new entry, behind an extension for their common
/// prefix when there is one.
#[verifier::spinoff_prover]
pub fn insert_on_extension(key: Vec<Nibble>, child: ChildRef, path: &[Nibble], pos: usize, val: Vec<u8>) -> (r: TrieNode)
    requires
        wf((TrieNode::Extension { key, child })),
        val@.len() > 0,
        pos <= path@.len(),
        !starts_with(values(path@).skip(pos as int), values(key@)),
    ensures
        wf(r),
        forall|q: Seq<u8>|
            #[trigger] lookup(r, q) == if q == values(path@).skip(pos as int) {
                Some(val@)
            } else {
                lookup((TrieNode::Extension { key, child }), q)
            },
{
    let ghost kk = values(key@);
    let ghost pp = values(path@).skip(pos as int);
    let ghost old_node = TrieNode::Extension { key, child };
    let ghost old_child = child;
    let ghost new_value = val@;
    let rest = sub_nibbles(path, pos, path.len());
    assert(values(rest@) =~= pp);
    let intersection = common_prefix_iter(rest.as_slice(), key.as_slice());
    let c = intersection.len();
    let ghost ci = c as int;
    proof {
        assert(pp.take(ci) =~= values(intersection@));
        assert(kk.take(ci) =~= values(intersection@));
        if ci == kk.len() {
            assert(pp.take(kk.len() as int) =~= kk);
        }
        assert(ci < kk.len());
    }
    let klen = key.len();
    assert(c < klen);
    let ext_next = key[c].inner() as usize;
    let c1: usize = c + 1;
    let ext_rest = sub_nibbles(key.as_slice(), c1, klen);
    let ghost kr = values(ext_rest@);
    proof {
        assert(kr =~= kk.skip(ci + 1));
        assert(kk[ci] == ext_next);
    }
    let moved = if ext_rest.len() > 0 {
        ChildRef::Owned(Box::new(TrieNode::Extension { key: ext_rest, child }))
    } else {
        child
    };
    proof {
        assert(child_wf(moved));
        assert forall|t: Seq<u8>| #[trigger] child_lookup(moved, t) == if starts_with(t, kr) {
            child_lookup(old_child, t.skip(kr.len() as int))
        } else {
            None
        } by {
            if ext_rest@.len() == 0 {
                assert(t.take(0) =~= kr);
                assert(t.skip(0) =~= t);
            }
        }
    }
    let mut children = empty_children();
    let mut branch_value: Vec<u8> = Vec::new();
    let ghost before = children.0@;
    proof {
        lemma_count_update(before, ext_next as int, moved);
        lemma_children_wf_update(before, ext_next as int, moved);
    }
    children.0.set(ext_next, moved);
    let ghost pa = pp.skip(ci);
    if c < rest.len() {
        let idx = rest[c].inner() as usize;
        let leaf_key = sub_nibbles(rest.as_slice(), c + 1, rest.len());
        proof {
            assert(pa[0] == idx);
            assert(values(leaf_key@) =~= pa.drop_first());
            crate::nibble::lemma_value_injective(rest@[ci], key@[ci]);
            assert(idx != ext_next);
        }
        let leaf = TrieNode::Leaf { key: leaf_key, value: val };
        let ghost before2 = children.0@;
        let leaf_ref = ChildRef::Owned(Box::new(leaf));
        proof {
            lemma_count_update(before2, idx as int, leaf_ref);
            lemma_children_wf_update(before2, idx as int, leaf_ref);
        }
        children.0.set(idx, leaf_ref);
    } else {
        branch_value = val;
    }
    let branch = TrieNode::Branch { children, value: branch_value };
    proof {
        lemma_branch_entry_and_child(branch, pa, new_value, ext_next as int);
        assert(wf(branch));
        assert forall|q: Seq<u8>| starts_with(q, kk.take(ci)) implies
            #[trigger] lookup(branch, q.skip(ci)) == if q == pp {
                Some(new_value)
            } else {
                lookup(old_node, q)
            } by {
            lemma_take_skip(q, ci);
            lemma_take_skip(pp, ci);
            lemma_starts_with_split(q, kk, ci);
            let s = q.skip(ci);
            if s == pa {
                assert(q == pp);
            } else {
                assert(q != pp);
                if s.len() > 0 && s[0] == ext_next {
                    assert(q.skip(ci + 1) =~= s.drop_first());
                } else {
                    assert(!starts_with(q, kk));
                }
            }
        }
    }
    if c > 0 {
        let r = TrieNode::Extension { key: intersection, child: ChildRef::Owned(Box::new(branch)) };
        proof {
            assert forall|q: Seq<u8>|
                #[trigger] lookup(r, q) == if q == pp {
                    Some(new_value)
                } else {
                    lookup(old_node, q)
                } by {
                let kc = values(intersection@);
                assert(kc == kk.take(ci));
                if starts_with(q, kc) {
                    assert(child_lookup(ChildRef::Owned(Box::new(branch)), q.skip(ci)) == lookup(branch, q.skip(ci)));
                } else {
                    assert(q != pp);
                    lemma_starts_with_split(q, kk, ci);
                }
            }
        }
        r
    } else {
        proof {
            assert forall|q: Seq<u8>|
                #[trigger] lookup(branch, q) == if q == pp {
                    Some(new_value)
                } else {
                    lookup(old_node, q)
                } by {
                assert(q.take(0) =~= kk.take(0));
                assert(q.skip(0) =~= q);
            }
        }
        branch
    }
}

/// A branch built from two distinct entries, each either the branch's own
/// value (empty path) or a leaf child under the first nibble of its path,
/// holds exactly these two entries.
pub proof fn lemma_branch_of_two(b: TrieNode, pa: Seq<u8>, pb: Seq<u8>, va: Seq<u8>, vb: Seq<u8>)
    requires
        b is Branch,
        b->Branch_children.0@.len() == 16,
        pa != pb,
        va.len() > 0,
        vb.len() > 0,
        pa.len() == 0 ==> b->Branch_value@ == va,
        pb.len() == 0 ==> b->Branch_value@ == vb,
        pa.len() > 0 && pb.len() > 0 ==> b->Branch_value@.len() == 0 && pa[0] != pb[0],
        pa.len() > 0 ==> pa[0] < 16 && is_leaf_child(b->Branch_children.0@[pa[0] as int], pa.drop_first(), va),
        pb.len() > 0 ==> pb[0] < 16 && is_leaf_child(b->Branch_children.0@[pb[0] as int], pb.drop_first(), vb),
        forall|i: int|
            0 <= i < 16 && !(pa.len() > 0 && i == pa[0]) && !(pb.len() > 0 && i == pb[0])
                ==> (#[trigger] b->Branch_children.0@[i]) is Null,
    ensures
        forall|s: Seq<u8>|
            #[trigger] lookup(b, s) == if s == pa {
                Some(va)
            } else if s == pb {
                Some(vb)
            } else {
                None
            },
{
    let cs = b->Branch_children.0@;
    assert forall|s: Seq<u8>|
        #[trigger] lookup(b, s) == if s == pa {
            Some(va)
        } else if s == pb {
            Some(vb)
        } else {
            None
        } by {
        if s.len() > 0 && s[0] < 16 {
            let i = s[0] as int;
            let t = s.drop_first();
            if pa.len() > 0 && i == pa[0] {
                lemma_leaf_child_lookup(cs[i], pa.drop_first(), va, t);
                if t == pa.drop_first() {
                    lemma_cons_eq(s, pa);
                } else {
                    assert(s != pa);
                    if pb.len() > 0 && pb[0] == i {
                    } else {
                        assert(s != pb);
                    }
                }
            } else if pb.len() > 0 && i == pb[0] {
                lemma_leaf_child_lookup(cs[i], pb.drop_first(), vb, t);
                if t == pb.drop_first() {
                    lemma_cons_eq(s, pb);
                } else {
                    assert(s != pb);
                    assert(s != pa);
                }
            } else {
                assert(cs[i] is Null);
                assert(s != pa);
                assert(s != pb);
            }
        } else if s.len() > 0 {
            assert(s != pa);
            assert(s != pb);
        } else {
            if pa.len() == 0 {
                assert(s =~= pa);
            } else if pb.len() == 0 {
                assert(s =~= pb);
            }
        }
    }
}

/// Two non-empty sequences with the same first element and the same rest are
/// equal.
pub proof fn lemma_cons_eq(s: Seq<u8>, p: Seq<u8>)
    requires
        s.len() > 0,
        p.len() > 0,
        s[0] == p[0],
        s.drop_first() == p.drop_first(),
    ensures
        s == p,
{
    assert(s.len() == s.drop_first().len() + 1);
    assert(p.len() == p.drop_first().len() + 1);
    assert forall|j: int| 0 <= j < s.len() implies s[j] == p[j] by {
        if j > 0 {
            assert(s[j] == s.drop_first()[j - 1]);
            assert(p[j] == p.drop_first()[j - 1]);
        }
    }
    assert(s.len() == s.drop_first().len() + 1);
    assert(s =~= p);
}

/// A sequence is its first `c` elements followed by the rest.
pub proof fn lemma_take_skip(s: Seq<u8>, c: int)
    requires
        0 <= c <= s.len(),
    ensures
        s == s.take(c) + s.skip(c),
{
    assert(s =~= s.take(c) + s.skip(c));
}

/// A branch built from one entry (its own value, or a leaf child under the
/// first nibble of the entry's path) and one further child at `k0`: what it
/// holds is that entry and what the further child holds under `k0`.
pub proof fn lemma_branch_entry_and_child(b: TrieNode, pa: Seq<u8>, va: Seq<u8>, k0: int)
    requires
        b is Branch,
        b->Branch_children.0@.len() == 16,
        va.len() > 0,
        0 <= k0 < 16,
        pa.len() == 0 ==> b->Branch_value@ == va,
        pa.len() > 0 ==> b->Branch_value@.len() == 0 && pa[0] < 16 && pa[0] != k0
            && is_leaf_child(b->Branch_children.0@[pa[0] as int], pa.drop_first(), va),
        forall|i: int|
            0 <= i < 16 && i != k0 && !(pa.len() > 0 && i == pa[0])
                ==> (#[trigger] b->Branch_children.0@[i]) is Null,
    ensures
        forall|s: Seq<u8>|
            #[trigger] lookup(b, s) == if s == pa {
                Some(va)
            } else if s.len() > 0 && s[0] == k0 {
                child_lookup(b->Branch_children.0@[k0], s.drop_first())
            } else {
                None
            },
{
    let cs = b->Branch_children.0@;
    assert forall|s: Seq<u8>|
        #[trigger] lookup(b, s) == if s == pa {
            Some(va)
        } else if s.len() > 0 && s[0] == k0 {
            child_lookup(cs[k0], s.drop_first())
        } else {
            None
        } by {
        if s.len() > 0 && s[0] < 16 {
            let i = s[0] as int;
            let t = s.drop_first();
            if pa.len() > 0 && i == pa[0] {
                lemma_leaf_child_lookup(cs[i], pa.drop_first(), va, t);
                if t == pa.drop_first() {
                    lemma_cons_eq(s, pa);
                }
            } else if i == k0 {
                assert(s != pa);
            } else {
                assert(cs[i] is Null);
                assert(s != pa);
            }
        } else if s.len() > 0 {
            assert(s != pa);
        } else {
            if pa.len() == 0 {
                assert(s =~= pa);
            }
        }
    }
}

/// `q` begins with `k` exactly when it begins with the first `c` elements of
/// `k`, then the element `k[c]`, then the rest of `k`.
pub proof fn lemma_starts_with_split(q: Seq<u8>, k: Seq<u8>, c: int)
    requires
        0 <= c < k.len(),
    ensures
        starts_with(q, k) <==> (starts_with(q, k.take(c)) && q.len() > c && q[c] == k[c]
            && starts_with(q.skip(c + 1), k.skip(c + 1))),
        starts_with(q, k) ==> q.skip(k.len() as int) == q.skip(c + 1).skip(k.len() - c - 1),
{
    if starts_with(q, k) {
        assert(q.take(c) =~= k.take(c));
        assert(q[c] == q.take(k.len() as int)[c]);
        assert(q.skip(c + 1).take(k.len() - c - 1) =~= k.skip(c + 1));
        assert(q.skip(k.len() as int) =~= q.skip(c + 1).skip(k.len() - c - 1));
    }
    if starts_with(q, k.take(c)) && q.len() > c && q[c] == k[c] && starts_with(q.skip(c + 1), k.skip(c + 1)) {
        assert forall|j: int| 0 <= j < k.len() implies q.take(k.len() as int)[j] == k[j] by {
            if j < c {
                assert(q.take(c)[j] == k.take(c)[j]);
            } else if j > c {
                assert(q.skip(c + 1).take(k.len() - c - 1)[j - c - 1] == k.skip(c + 1)[j - c - 1]);
            }
        }
        assert(q.take(k.len() as int) =~= k);
    }
}

/// `c` holds in memory the leaf whose key has the nibble values `k` and whose
/// value is `v`.
pub open spec fn is_leaf_child(c: ChildRef, k: Seq<u8>, v: Seq<u8>) -> bool {
    c matches ChildRef::Owned(b) && *b matches TrieNode::Leaf { key, value } && values(key@) == k
        && value@ == v
}

/// What a leaf child holds.
pub proof fn lemma_leaf_child_lookup(c: ChildRef, k: Seq<u8>, v: Seq<u8>, t: Seq<u8>)
    requires
        is_leaf_child(c, k, v),
    ensures
        child_lookup(c, t) == if t == k {
            Some(v)
        } else {
            None
        },
{
    let b = c->Owned_0;
    assert(child_lookup(c, t) == lookup(*b, t));
}

} // verus!