//! What a Merkle Patricia trie writes to its key-value store: the nodes that
//! are stored under their hash, which of them a commit adds or removes, and
//! the key under which the root hash is kept.

use crate::kv::apply_ops;
use crate::serde::HashBytes;
use crate::trie_node::stored_view;
use vstd::prelude::*;

verus! {

broadcast use vstd::std_specs::vec::group_vec_axioms;

/// The key under which the root hash is stored.
pub open spec fn root_key() -> Seq<u8> {
    seq![0x80u8]
}

/// The hashes of a list of stored nodes.
pub open spec fn stored_hashes(s: Seq<(Seq<u8>, Seq<u8>, bool)>) -> Seq<Seq<u8>> {
    s.map_values(|e: (Seq<u8>, Seq<u8>, bool)| e.0)
}

/// Hashes as plain byte sequences.
pub open spec fn hashes_view(v: Seq<HashBytes>) -> Seq<Seq<u8>> {
    v.map_values(|h: HashBytes| h@)
}

/// The written hashes that `cur` no longer holds, in order.
pub open spec fn stale(written: Seq<Seq<u8>>, cur: Seq<Seq<u8>>) -> Seq<Seq<u8>>
    decreases written.len(),
{
    if written.len() == 0 {
        Seq::empty()
    } else {
        let r = stale(written.drop_last(), cur);
        if cur.contains(written.last()) {
            r
        } else {
            r.push(written.last())
        }
    }
}

/// The written hashes that `cur` still holds, in order.
pub open spec fn kept(written: Seq<Seq<u8>>, cur: Seq<Seq<u8>>) -> Seq<Seq<u8>>
    decreases written.len(),
{
    if written.len() == 0 {
        Seq::empty()
    } else {
        let r = kept(written.drop_last(), cur);
        if cur.contains(written.last()) {
            r.push(written.last())
        } else {
            r
        }
    }
}

/// The stored nodes of one layer (`top`: above the layer depth, or not) whose
/// hash has not been written, in order.
pub open spec fn fresh(cur: Seq<(Seq<u8>, Seq<u8>, bool)>, written: Seq<Seq<u8>>, top: bool) -> Seq<
    (Seq<u8>, Seq<u8>, bool),
>
    decreases cur.len(),
{
    if cur.len() == 0 {
        Seq::empty()
    } else {
        let r = fresh(cur.drop_last(), written, top);
        let e = cur.last();
        if e.2 == top && !written.contains(e.0) {
            r.push(e)
        } else {
            r
        }
    }
}

/// The stored nodes above the layer depth, in order.
pub open spec fn top_layer(cur: Seq<(Seq<u8>, Seq<u8>, bool)>) -> Seq<(Seq<u8>, Seq<u8>, bool)>
    decreases cur.len(),
{
    if cur.len() == 0 {
        Seq::empty()
    } else {
        let r = top_layer(cur.drop_last());
        if cur.last().2 {
            r.push(cur.last())
        } else {
            r
        }
    }
}

/// Removals of the keys `hs` from column 0.
pub open spec fn delete_ops(hs: Seq<Seq<u8>>) -> Seq<(u32, Seq<u8>, Option<Seq<u8>>)> {
    hs.map_values(|h: Seq<u8>| (0u32, h, None::<Seq<u8>>))
}

/// Insertions of nodes under their hash in column 0.
pub open spec fn insert_ops(es: Seq<(Seq<u8>, Seq<u8>, bool)>) -> Seq<(u32, Seq<u8>, Option<Seq<u8>>)> {
    es.map_values(|e: (Seq<u8>, Seq<u8>, bool)| (0u32, e.0, Some(e.1)))
}

/// The writes of a commit: for an empty trie the removal of the root key
/// first; then the removal of every written node the trie no longer holds,
/// the insertion of every node below the layer depth not yet written, and,
/// for a trie that holds something, the root hash under the root key.
pub open spec fn commit_ops(
    root_hash: Option<Seq<u8>>,
    written: Seq<Seq<u8>>,
    cur: Seq<(Seq<u8>, Seq<u8>, bool)>,
) -> Seq<(u32, Seq<u8>, Option<Seq<u8>>)> {
    let body = delete_ops(stale(written, stored_hashes(cur))) + insert_ops(fresh(cur, written, false));
    match root_hash {
        None => seq![(0u32, root_key(), None::<Seq<u8>>)] + body,
        Some(h) => body + seq![(0u32, root_key(), Some(h))],
    }
}

/// The written hashes after a commit: those the trie still holds, then the
/// newly written ones.
pub open spec fn written_after_commit(written: Seq<Seq<u8>>, cur: Seq<(Seq<u8>, Seq<u8>, bool)>) -> Seq<
    Seq<u8>,
> {
    kept(written, stored_hashes(cur)) + stored_hashes(fresh(cur, written, false))
}

/// The store's keys other than the root key are exactly the hashes in
/// `written`.
pub open spec fn keys_agree(db: Map<Seq<u8>, Seq<u8>>, written: Seq<Seq<u8>>) -> bool {
    forall|k: Seq<u8>|
        #![trigger db.dom().contains(k)]
        #![trigger written.contains(k)]
        k != root_key() ==> (db.dom().contains(k) <==> written.contains(k))
}

/// Every hash in `hs` is 32 bytes long.
pub open spec fn all_hashes(hs: Seq<Seq<u8>>) -> bool {
    forall|i: int| 0 <= i < hs.len() ==> (#[trigger] hs[i]).len() == 32
}

/// Applying writes one batch after another is applying them together.
pub proof fn lemma_apply_concat(
    db: Map<Seq<u8>, Seq<u8>>,
    col: u32,
    a: Seq<(u32, Seq<u8>, Option<Seq<u8>>)>,
    b: Seq<(u32, Seq<u8>, Option<Seq<u8>>)>,
)
    ensures
        apply_ops(db, col, a + b) == apply_ops(apply_ops(db, col, a), col, b),
    decreases b.len(),
{
    if b.len() == 0 {
        assert(a + b =~= a);
    } else {
        assert((a + b).drop_last() =~= a + b.drop_last());
        assert((a + b).last() == b.last());
        lemma_apply_concat(db, col, a, b.drop_last());
    }
}

/// Removing the keys `hs` removes exactly them.
pub proof fn lemma_apply_deletes(db: Map<Seq<u8>, Seq<u8>>, hs: Seq<Seq<u8>>)
    ensures
        forall|k: Seq<u8>|
            #[trigger] apply_ops(db, 0, delete_ops(hs)).dom().contains(k) <==> (db.dom().contains(k)
                && !hs.contains(k)),
        forall|k: Seq<u8>|
            !hs.contains(k) ==> #[trigger] apply_ops(db, 0, delete_ops(hs))[k] == db[k],
    decreases hs.len(),
{
    if hs.len() > 0 {
        let d = hs.drop_last();
        let ops = delete_ops(hs);
        assert(ops.drop_last() =~= delete_ops(d));
        assert(ops.last() == (0u32, hs.last(), None::<Seq<u8>>));
        lemma_apply_deletes(db, d);
        let before = apply_ops(db, 0, delete_ops(d));
        assert(apply_ops(db, 0, ops) == before.remove(hs.last()));
        assert forall|k: Seq<u8>| #[trigger] hs.contains(k) <==> (d.contains(k) || k == hs.last()) by {
            if hs.contains(k) {
                let i = choose|i: int| 0 <= i < hs.len() && hs[i] == k;
                if i < hs.len() - 1 {
                    assert(d[i] == k);
                }
            }
            if d.contains(k) {
                let i = choose|i: int| 0 <= i < d.len() && d[i] == k;
                assert(hs[i] == k);
            }
            if k == hs.last() {
                assert(hs[hs.len() - 1] == k);
            }
        }
    } else {
        assert(apply_ops(db, 0, delete_ops(hs)) == db);
        assert forall|k: Seq<u8>| !(#[trigger] hs.contains(k)) by {}
    }
}

/// Inserting nodes under their hashes adds exactly those keys.
pub proof fn lemma_apply_inserts(db: Map<Seq<u8>, Seq<u8>>, es: Seq<(Seq<u8>, Seq<u8>, bool)>)
    ensures
        forall|k: Seq<u8>|
            #[trigger] apply_ops(db, 0, insert_ops(es)).dom().contains(k) <==> (db.dom().contains(k)
                || stored_hashes(es).contains(k)),
        forall|k: Seq<u8>|
            !stored_hashes(es).contains(k) ==> #[trigger] apply_ops(db, 0, insert_ops(es))[k] == db[k],
    decreases es.len(),
{
    let hs = stored_hashes(es);
    if es.len() > 0 {
        let d = es.drop_last();
        let hd = stored_hashes(d);
        let ops = insert_ops(es);
        assert(ops.drop_last() =~= insert_ops(d));
        assert(ops.last() == (0u32, es.last().0, Some(es.last().1)));
        lemma_apply_inserts(db, d);
        let before = apply_ops(db, 0, insert_ops(d));
        assert(apply_ops(db, 0, ops) == before.insert(es.last().0, es.last().1));
        assert forall|k: Seq<u8>| #[trigger] hs.contains(k) <==> (hd.contains(k) || k == es.last().0) by {
            if hs.contains(k) {
                let i = choose|i: int| 0 <= i < hs.len() && hs[i] == k;
                if i < hs.len() - 1 {
                    assert(hd[i] == k);
                }
            }
            if hd.contains(k) {
                let i = choose|i: int| 0 <= i < hd.len() && hd[i] == k;
                assert(hs[i] == k);
            }
            if k == es.last().0 {
                assert(hs[hs.len() - 1] == k);
            }
        }
    } else {
        assert(apply_ops(db, 0, insert_ops(es)) == db);
        assert forall|k: Seq<u8>| !(#[trigger] hs.contains(k)) by {}
    }
}

/// What `stale` and `kept` hold.
pub proof fn lemma_stale_kept(w: Seq<Seq<u8>>, c: Seq<Seq<u8>>)
    ensures
        forall|x: Seq<u8>| #[trigger] stale(w, c).contains(x) <==> (w.contains(x) && !c.contains(x)),
        forall|x: Seq<u8>| #[trigger] kept(w, c).contains(x) <==> (w.contains(x) && c.contains(x)),
    decreases w.len(),
{
    broadcast use vstd::seq_lib::lemma_seq_contains_after_push;

    if w.len() > 0 {
        let d = w.drop_last();
        lemma_stale_kept(d, c);
        assert forall|k: Seq<u8>| #[trigger] w.contains(k) <==> (d.contains(k) || k == w.last()) by {
            if w.contains(k) {
                let i = choose|i: int| 0 <= i < w.len() && w[i] == k;
                if i < w.len() - 1 {
                    assert(d[i] == k);
                }
            }
            if d.contains(k) {
                let i = choose|i: int| 0 <= i < d.len() && d[i] == k;
                assert(w[i] == k);
            }
            if k == w.last() {
                assert(w[w.len() - 1] == k);
            }
        }
        let rs = stale(d, c);
        let rk = kept(d, c);
        assert forall|x: Seq<u8>| #[trigger] stale(w, c).contains(x) <==> (w.contains(x) && !c.contains(x)) by {
            if c.contains(w.last()) {
                assert(stale(w, c) == rs);
            } else {
                assert(stale(w, c) == rs.push(w.last()));
                assert(rs.push(w.last()).contains(x) <==> (rs.contains(x) || x == w.last()));
            }
        }
        assert forall|x: Seq<u8>| #[trigger] kept(w, c).contains(x) <==> (w.contains(x) && c.contains(x)) by {
            if c.contains(w.last()) {
                assert(kept(w, c) == rk.push(w.last()));
                assert(rk.push(w.last()).contains(x) <==> (rk.contains(x) || x == w.last()));
            } else {
                assert(kept(w, c) == rk);
            }
        }
    } else {
        assert forall|k: Seq<u8>| !(#[trigger] w.contains(k)) by {}
        assert forall|k: Seq<u8>| !(#[trigger] stale(w, c).contains(k)) by {}
        assert forall|k: Seq<u8>| !(#[trigger] kept(w, c).contains(k)) by {}
    }
}

/// The hashes of the nodes that `fresh` picks.
pub proof fn lemma_fresh(cur: Seq<(Seq<u8>, Seq<u8>, bool)>, w: Seq<Seq<u8>>, top: bool)
    ensures
        forall|x: Seq<u8>|
            #[trigger] stored_hashes(fresh(cur, w, top)).contains(x) <==> (!w.contains(x) && exists|i: int|
                0 <= i < cur.len() && cur[i].0 == x && cur[i].2 == top),
    decreases cur.len(),
{
    broadcast use vstd::seq_lib::lemma_seq_contains_after_push;

    if cur.len() > 0 {
        let d = cur.drop_last();
        lemma_fresh(d, w, top);
        let f = fresh(d, w, top);
        assert(stored_hashes(f.push(cur.last())) =~= stored_hashes(f).push(cur.last().0));
        assert forall|x: Seq<u8>| #[trigger] stored_hashes(fresh(cur, w, top)).contains(x) <==> (!w.contains(x)
            && exists|i: int| 0 <= i < cur.len() && cur[i].0 == x && cur[i].2 == top) by {
            if exists|i: int| 0 <= i < cur.len() && cur[i].0 == x && cur[i].2 == top {
                let i = choose|i: int| 0 <= i < cur.len() && cur[i].0 == x && cur[i].2 == top;
                if i < cur.len() - 1 {
                    assert(d[i] == cur[i]);
                }
            }
            if exists|i: int| 0 <= i < d.len() && d[i].0 == x && d[i].2 == top {
                let i = choose|i: int| 0 <= i < d.len() && d[i].0 == x && d[i].2 == top;
                assert(cur[i] == d[i]);
            }
        }
    } else {
        assert(stored_hashes(fresh(cur, w, top)) =~= Seq::<Seq<u8>>::empty());
    }
}

/// The hashes of the nodes of the top layers.
pub proof fn lemma_top_layer(cur: Seq<(Seq<u8>, Seq<u8>, bool)>)
    ensures
        forall|x: Seq<u8>|
            #[trigger] stored_hashes(top_layer(cur)).contains(x) <==> exists|i: int|
                0 <= i < cur.len() && cur[i].0 == x && cur[i].2,
    decreases cur.len(),
{
    broadcast use vstd::seq_lib::lemma_seq_contains_after_push;

    if cur.len() > 0 {
        let d = cur.drop_last();
        lemma_top_layer(d);
        let t = top_layer(d);
        assert(stored_hashes(t.push(cur.last())) =~= stored_hashes(t).push(cur.last().0));
        assert forall|x: Seq<u8>| #[trigger] stored_hashes(top_layer(cur)).contains(x) <==> exists|i: int|
            0 <= i < cur.len() && cur[i].0 == x && cur[i].2 by {
            if exists|i: int| 0 <= i < cur.len() && cur[i].0 == x && cur[i].2 {
                let i = choose|i: int| 0 <= i < cur.len() && cur[i].0 == x && cur[i].2;
                if i < cur.len() - 1 {
                    assert(d[i] == cur[i]);
                }
            }
            if exists|i: int| 0 <= i < d.len() && d[i].0 == x && d[i].2 {
                let i = choose|i: int| 0 <= i < d.len() && d[i].0 == x && d[i].2;
                assert(cur[i] == d[i]);
            }
        }
    } else {
        assert(stored_hashes(top_layer(cur)) =~= Seq::<Seq<u8>>::empty());
    }
}

/// A commit keeps the store in step with the trie: if the store's keys,
/// besides the root key, were the written hashes, then after the commit's
/// writes they are the hashes written after the commit; these include every
/// node below the top layers and nothing the trie no longer holds; and the
/// root key holds the root hash, or is gone for an empty trie.
pub proof fn lemma_commit_keeps_store(
    db: Map<Seq<u8>, Seq<u8>>,
    written: Seq<Seq<u8>>,
    cur: Seq<(Seq<u8>, Seq<u8>, bool)>,
    rh: Option<Seq<u8>>,
)
    requires
        keys_agree(db, written),
        all_hashes(written),
        all_hashes(stored_hashes(cur)),
    ensures
        ({
            let after = apply_ops(db, 0, commit_ops(rh, written, cur));
            let w2 = written_after_commit(written, cur);
            &&& keys_agree(after, w2)
            &&& after.dom().contains(root_key()) == (rh is Some)
            &&& (rh matches Some(h) ==> after[root_key()] == h)
            &&& forall|i: int| 0 <= i < cur.len() && !cur[i].2 ==> w2.contains(#[trigger] cur[i].0)
            &&& forall|x: Seq<u8>| #[trigger] w2.contains(x) ==> stored_hashes(cur).contains(x)
        }),
{
    broadcast use vstd::seq_lib::lemma_seq_concat_contains_all_elements;

    let hs = stored_hashes(cur);
    let st = stale(written, hs);
    let fr = fresh(cur, written, false);
    let dels = delete_ops(st);
    let ins = insert_ops(fr);
    let rdel = seq![(0u32, root_key(), None::<Seq<u8>>)];
    lemma_stale_kept(written, hs);
    lemma_fresh(cur, written, false);
    let w2 = written_after_commit(written, cur);
    assert forall|k: Seq<u8>| #[trigger] hs.contains(k) implies k.len() == 32 by {
        let i = choose|i: int| 0 <= i < hs.len() && hs[i] == k;
        assert(hs[i] == k);
    }
    assert forall|k: Seq<u8>| #[trigger] written.contains(k) implies k.len() == 32 by {
        let i = choose|i: int| 0 <= i < written.len() && written[i] == k;
        assert(written[i] == k);
    }
    assert(root_key().len() == 1);
    let base = match rh {
        None => {
            lemma_apply_concat(db, 0, rdel, dels + ins);
            apply_ops(db, 0, rdel)
        },
        Some(h) => db,
    };
    assert(rdel.drop_last() =~= Seq::<(u32, Seq<u8>, Option<Seq<u8>>)>::empty());
    lemma_apply_concat(base, 0, dels, ins);
    lemma_apply_deletes(base, st);
    let a1 = apply_ops(base, 0, dels);
    lemma_apply_inserts(a1, fr);
    let a2 = apply_ops(a1, 0, ins);
    assert(!st.contains(root_key()));
    assert(!stored_hashes(fr).contains(root_key())) by {
        if stored_hashes(fr).contains(root_key()) {
            let i = choose|i: int| 0 <= i < cur.len() && cur[i].0 == root_key() && cur[i].2 == false;
            assert(hs[i] == root_key());
            assert(hs.contains(root_key()));
        }
    }
    let after = apply_ops(db, 0, commit_ops(rh, written, cur));
    match rh {
        None => {
            assert(commit_ops(rh, written, cur) == rdel + (dels + ins));
            assert(apply_ops(db, 0, rdel.drop_last()) == db);
            assert(base == db.remove(root_key()));
            assert(after == a2);
            assert(!base.dom().contains(root_key()));
        },
        Some(h) => {
            let rins = seq![(0u32, root_key(), Some(h))];
            assert(commit_ops(rh, written, cur) == (dels + ins) + rins);
            lemma_apply_concat(db, 0, dels + ins, rins);
            assert(rins.drop_last() =~= Seq::<(u32, Seq<u8>, Option<Seq<u8>>)>::empty());
            assert(apply_ops(a2, 0, rins.drop_last()) == a2);
            assert(apply_ops(a2, 0, rins) == a2.insert(root_key(), h));
            assert(after == a2.insert(root_key(), h));
        },
    }
    assert forall|k: Seq<u8>|
        #![trigger after.dom().contains(k)]
        #![trigger w2.contains(k)]
        k != root_key() implies (after.dom().contains(k) <==> w2.contains(k)) by {
        assert(db.dom().contains(k) <==> written.contains(k));
        assert(base.dom().contains(k) == db.dom().contains(k));
    }
    assert forall|i: int| 0 <= i < cur.len() && !cur[i].2 implies w2.contains(#[trigger] cur[i].0) by {
        assert(hs[i] == cur[i].0);
        assert(hs.contains(cur[i].0));
    }
    assert forall|x: Seq<u8>| #[trigger] w2.contains(x) implies hs.contains(x) by {
        if stored_hashes(fr).contains(x) {
            let i = choose|i: int| 0 <= i < cur.len() && cur[i].0 == x && cur[i].2 == false;
            assert(hs[i] == x);
        }
    }
}

/// No written hash is kept by a trie that holds nothing.
proof fn lemma_kept_none(written: Seq<Seq<u8>>)
    ensures
        kept(written, Seq::empty()) == Seq::<Seq<u8>>::empty(),
    decreases written.len(),
{
    if written.len() > 0 {
        lemma_kept_none(written.drop_last());
    }
}

/// Committing an emptied trie empties the store: when the store's keys were
/// the written hashes (and perhaps the root key), the commit leaves no key at
/// all.
pub proof fn lemma_empty_commit_empties_store(db: Map<Seq<u8>, Seq<u8>>, written: Seq<Seq<u8>>)
    requires
        keys_agree(db, written),
        all_hashes(written),
    ensures
        apply_ops(db, 0, commit_ops(None, written, Seq::empty())).dom() == Set::<Seq<u8>>::empty(),
{
    let cur = Seq::<(Seq<u8>, Seq<u8>, bool)>::empty();
    assert(stored_hashes(cur) =~= Seq::<Seq<u8>>::empty());
    lemma_commit_keeps_store(db, written, cur, None);
    lemma_kept_none(written);
    let after = apply_ops(db, 0, commit_ops(None, written, cur));
    let w2 = written_after_commit(written, cur);
    assert(w2 =~= Seq::<Seq<u8>>::empty());
    assert forall|k: Seq<u8>| !after.dom().contains(k) by {
        if k != root_key() {
            assert(after.dom().contains(k) <==> w2.contains(k));
        }
    }
    assert(after.dom() =~= Set::<Seq<u8>>::empty());
}

/// Writing out the top layers keeps the store in step with the trie: the
/// store's keys besides the root key become the written hashes together with
/// those of the top-layer nodes, and the root key is left as it was.
pub proof fn lemma_flush_keeps_store(
    db: Map<Seq<u8>, Seq<u8>>,
    written: Seq<Seq<u8>>,
    cur: Seq<(Seq<u8>, Seq<u8>, bool)>,
)
    requires
        keys_agree(db, written),
        all_hashes(stored_hashes(cur)),
    ensures
        ({
            let after = apply_ops(db, 0, insert_ops(top_layer(cur)));
            let w2 = written + stored_hashes(fresh(cur, written, true));
            &&& keys_agree(after, w2)
            &&& after.dom().contains(root_key()) == db.dom().contains(root_key())
            &&& after[root_key()] == db[root_key()]
            &&& forall|i: int| 0 <= i < cur.len() && cur[i].2 ==> w2.contains(#[trigger] cur[i].0)
        }),
{
    broadcast use vstd::seq_lib::lemma_seq_concat_contains_all_elements;

    let hs = stored_hashes(cur);
    let t = top_layer(cur);
    lemma_top_layer(cur);
    lemma_fresh(cur, written, true);
    lemma_apply_inserts(db, t);
    let after = apply_ops(db, 0, insert_ops(t));
    let w2 = written + stored_hashes(fresh(cur, written, true));
    assert forall|k: Seq<u8>| #[trigger] hs.contains(k) implies k.len() == 32 by {
        let i = choose|i: int| 0 <= i < hs.len() && hs[i] == k;
        assert(hs[i] == k);
    }
    assert(root_key().len() == 1);
    assert(!stored_hashes(t).contains(root_key())) by {
        if stored_hashes(t).contains(root_key()) {
            let i = choose|i: int| 0 <= i < cur.len() && cur[i].0 == root_key() && cur[i].2;
            assert(hs[i] == root_key());
            assert(hs.contains(root_key()));
        }
    }
    assert forall|k: Seq<u8>|
        #![trigger after.dom().contains(k)]
        #![trigger w2.contains(k)]
        k != root_key() implies (after.dom().contains(k) <==> w2.contains(k)) by {
        assert(db.dom().contains(k) <==> written.contains(k));
    }
    assert forall|i: int| 0 <= i < cur.len() && cur[i].2 implies w2.contains(#[trigger] cur[i].0) by {
        let x = cur[i].0;
        if !written.contains(x) {
            assert(stored_hashes(fresh(cur, written, true)).contains(x));
        }
    }
}

/// `a` and `b` hold the same bytes.
pub fn same_bytes(a: &[u8], b: &[u8]) -> (r: bool)
    ensures
        r == (a@ == b@),
{
    if a.len() != b.len() {
        return false;
    }
    let mut i: usize = 0;
    while i < a.len()
        invariant
            i <= a@.len(),
            a@.len() == b@.len(),
            forall|j: int| 0 <= j < i ==> a@[j] == b@[j],
        decreases a@.len() - i,
    {
        if a[i] != b[i] {
            return false;
        }
        i = i + 1;
    }
    assert(a@ =~= b@);
    true
}

/// `true` when `h` is one of the hashes in `v`.
pub fn hashes_contain(v: &Vec<HashBytes>, h: &[u8]) -> (r: bool)
    ensures
        r == hashes_view(v@).contains(h@),
{
    let mut i: usize = 0;
    while i < v.len()
        invariant
            i <= v@.len(),
            forall|j: int| 0 <= j < i ==> v@[j]@ != h@,
        decreases v@.len() - i,
    {
        if same_bytes(v[i].as_slice(), h) {
            assert(hashes_view(v@)[i as int] == h@);
            return true;
        }
        i = i + 1;
    }
    proof {
        if hashes_view(v@).contains(h@) {
            let j = choose|j: int| 0 <= j < hashes_view(v@).len() && hashes_view(v@)[j] == h@;
            assert(v@[j]@ == h@);
        }
    }
    false
}

/// `true` when `h` is the hash of one of the stored nodes in `v`.
pub fn stored_contain(v: &Vec<(HashBytes, Vec<u8>, bool)>, h: &[u8]) -> (r: bool)
    ensures
        r == stored_hashes(stored_view(v@)).contains(h@),
{
    let mut i: usize = 0;
    while i < v.len()
        invariant
            i <= v@.len(),
            forall|j: int| 0 <= j < i ==> v@[j].0@ != h@,
        decreases v@.len() - i,
    {
        if same_bytes(v[i].0.as_slice(), h) {
            assert(stored_hashes(stored_view(v@))[i as int] == h@);
            return true;
        }
        i = i + 1;
    }
    proof {
        if stored_hashes(stored_view(v@)).contains(h@) {
            let j = choose|j: int|
                0 <= j < stored_hashes(stored_view(v@)).len() && stored_hashes(stored_view(v@))[j] == h@;
            assert(v@[j].0@ == h@);
        }
    }
    false
}

} // verus!
