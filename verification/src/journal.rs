//! A journaling overlay over a key-value store whose removals take effect
//! only after some eras: the changes of each committed block are journaled,
//! kept in a history overlay, and written to the store or dropped once the
//! block's era is marked canonical.

use crate::kv::DBTransaction;
use crate::memory_db::{
    spec_contains, spec_emplace, spec_get, spec_purge, spec_raw, spec_remove, MemoryDB,
    distinct_keys, entries_map, entry_keys, touched_keys, hashed_null_node, null_node_data,
};
use crate::rlp_codec::{append_bytes, append_string, be_bytes, encode_list, rlp_list, rlp_string};
use crate::serde::HashBytes;
use crate::trie_store::{hashes_view, same_bytes};
use std::collections::HashMap;
use vstd::prelude::*;

verus! {

broadcast use {vstd::std_specs::vec::group_vec_axioms, vstd::std_specs::hash::group_hash_axioms};

/// The key under which the overlay keeps a value: the first twelve bytes of
/// its hash, then zeros.
pub open spec fn short_key(k: Seq<u8>) -> Seq<u8> {
    k.take(12) + Seq::new(20, |i: int| 0u8)
}

/// The store key of the latest era: `last` and eight zero bytes.
pub open spec fn latest_era_key() -> Seq<u8> {
    seq![108u8, 97, 115, 116, 0, 0, 0, 0, 0, 0, 0, 0]
}

/// The encoding of an unsigned number: its minimal big-endian bytes as a
/// string.
pub open spec fn rlp_number(n: nat) -> Seq<u8> {
    rlp_string(be_bytes(n))
}

/// The store key of the `index`-th journal record of `era`: the list of the
/// era, the index and ten zero bytes.
pub open spec fn record_key(era: u64, index: nat) -> Seq<u8> {
    rlp_list(rlp_number(era as nat) + rlp_number(index) + rlp_string(Seq::new(10, |i: int| 0u8)))
}

/// The encodings of inserted pairs, each a list of key and value.
pub open spec fn inserts_payload(ins: Seq<(Seq<u8>, Seq<u8>)>) -> Seq<u8>
    decreases ins.len(),
{
    if ins.len() == 0 {
        Seq::empty()
    } else {
        inserts_payload(ins.drop_last()) + rlp_list(rlp_string(ins.last().0) + rlp_string(ins.last().1))
    }
}

/// The encodings of byte strings, one after another.
pub open spec fn strings_payload(ds: Seq<Seq<u8>>) -> Seq<u8>
    decreases ds.len(),
{
    if ds.len() == 0 {
        Seq::empty()
    } else {
        strings_payload(ds.drop_last()) + rlp_string(ds.last())
    }
}

/// The stored form of a journal record: the list of the block's id, its
/// inserted pairs and its removed keys.
pub open spec fn record_value(id: Seq<u8>, ins: Seq<(Seq<u8>, Seq<u8>)>, dels: Seq<Seq<u8>>) -> Seq<u8> {
    rlp_list(rlp_string(id) + rlp_list(inserts_payload(ins)) + rlp_list(strings_payload(dels)))
}

/// The changes of one committed block: its id, the keys it inserted and
/// the keys it removed.
pub struct JournalEntry {
    pub id: HashBytes,
    pub insertions: Vec<HashBytes>,
    pub deletions: Vec<HashBytes>,
}

/// A journal record as plain values.
pub open spec fn entry_view(e: JournalEntry) -> (Seq<u8>, Seq<Seq<u8>>, Seq<Seq<u8>>) {
    (e.id@, hashes_view(e.insertions@), hashes_view(e.deletions@))
}

/// The journal records of an era as plain values.
pub open spec fn records_view(v: Seq<JournalEntry>) -> Seq<(Seq<u8>, Seq<Seq<u8>>, Seq<Seq<u8>>)> {
    v.map_values(|e: JournalEntry| entry_view(e))
}

/// The pairs with positive count among overlay entries, in order.
pub open spec fn tx_insertions(es: Seq<(HashBytes, Vec<u8>, i32)>) -> Seq<(Seq<u8>, Seq<u8>)>
    decreases es.len(),
{
    if es.len() == 0 {
        Seq::empty()
    } else {
        let r = tx_insertions(es.drop_last());
        if es.last().2 > 0 {
            r.push((es.last().0@, es.last().1@))
        } else {
            r
        }
    }
}

/// The keys with negative count among overlay entries, in order.
pub open spec fn tx_removals(es: Seq<(HashBytes, Vec<u8>, i32)>) -> Seq<Seq<u8>>
    decreases es.len(),
{
    if es.len() == 0 {
        Seq::empty()
    } else {
        let r = tx_removals(es.drop_last());
        if es.last().2 < 0 {
            r.push(es.last().0@)
        } else {
            r
        }
    }
}

/// Entries alike in their keys, values and counts, position by position,
/// journal alike.
proof fn lemma_alike_entries_journal(a: Seq<(HashBytes, Vec<u8>, i32)>, b: Seq<(HashBytes, Vec<u8>, i32)>)
    requires
        a.len() == b.len(),
        forall|i: int| 0 <= i < a.len() ==> #[trigger] a[i].0@ == b[i].0@ && a[i].1@ == b[i].1@ && a[i].2 == b[i].2,
    ensures
        tx_insertions(a) == tx_insertions(b),
        tx_removals(a) == tx_removals(b),
    decreases a.len(),
{
    if a.len() > 0 {
        let n = a.len() - 1;
        assert(a[n].0@ == b[n].0@);
        lemma_alike_entries_journal(a.drop_last(), b.drop_last());
    }
}

/// What a committed block journals is fixed by the uncommitted changes: two
/// sets of uncommitted entries (each with distinct keys) that touched the
/// same keys in the same order and give the same map of values and counts
/// journal the same insertions and removals. The keys' order is what
/// `insert`, `emplace` and `remove` state, and the map what they change.
pub proof fn lemma_changes_fix_journal(a: Seq<(HashBytes, Vec<u8>, i32)>, b: Seq<(HashBytes, Vec<u8>, i32)>)
    requires
        distinct_keys(a),
        distinct_keys(b),
        entry_keys(a) == entry_keys(b),
        entries_map(a) == entries_map(b),
    ensures
        tx_insertions(a) == tx_insertions(b),
        tx_removals(a) == tx_removals(b),
{
    assert(a.len() == entry_keys(a).len());
    assert forall|i: int| 0 <= i < a.len() implies #[trigger] a[i].0@ == b[i].0@ && a[i].1@ == b[i].1@ && a[i].2 == b[i].2 by {
        assert(entry_keys(a)[i] == entry_keys(b)[i]);
        crate::memory_db::lemma_entries_at(a, i);
        crate::memory_db::lemma_entries_at(b, i);
    }
    lemma_alike_entries_journal(a, b);
}

/// The history overlay and the journal size after the inserted pairs `ins`
/// are added one by one: the size grows by a value's length when its key was
/// not live in the overlay.
pub open spec fn absorb(
    m: Map<Seq<u8>, (Seq<u8>, int)>,
    size: usize,
    ins: Seq<(Seq<u8>, Seq<u8>)>,
) -> (Map<Seq<u8>, (Seq<u8>, int)>, usize)
    decreases ins.len(),
{
    if ins.len() == 0 {
        (m, size)
    } else {
        let (m1, s1) = absorb(m, size, ins.drop_last());
        let (k, v) = ins.last();
        let sk = short_key(k);
        let s2 = if spec_contains(m1, sk) {
            s1
        } else {
            s1.wrapping_add(v.len() as usize)
        };
        (spec_emplace(m1, sk, v), s2)
    }
}

/// How many of the inserted pairs `ins` with a stored value fall under the
/// short key `sk`.
pub open spec fn occurrences(ins: Seq<(Seq<u8>, Seq<u8>)>, sk: Seq<u8>) -> nat
    decreases ins.len(),
{
    if ins.len() == 0 {
        0
    } else {
        occurrences(ins.drop_last(), sk) + if short_key(ins.last().0) == sk && ins.last().1 != null_node_data() {
            1nat
        } else {
            0nat
        }
    }
}

/// Absorbing insertions counts them: a short key the history overlay did not
/// hold ends up with one count per insertion under it, and so is visible
/// exactly when some insertion falls under it.
pub proof fn lemma_absorb_counts(
    m: Map<Seq<u8>, (Seq<u8>, int)>,
    size: usize,
    ins: Seq<(Seq<u8>, Seq<u8>)>,
    sk: Seq<u8>,
)
    requires
        !m.contains_key(sk),
        sk != hashed_null_node(),
        ins.len() < i32::MAX,
    ensures
        absorb(m, size, ins).0.contains_key(sk) <==> occurrences(ins, sk) > 0,
        occurrences(ins, sk) > 0 ==> absorb(m, size, ins).0[sk].1 == occurrences(ins, sk),
        spec_contains(absorb(m, size, ins).0, sk) <==> occurrences(ins, sk) > 0,
    decreases ins.len(),
{
    if ins.len() > 0 {
        let d = ins.drop_last();
        lemma_absorb_counts(m, size, d, sk);
        lemma_occurrences_bound(d, sk);
        let m1 = absorb(m, size, d).0;
        let (k, v) = ins.last();
        if short_key(k) == sk && v != null_node_data() && m1.contains_key(sk) {
            let c = m1[sk].1;
            assert(0 < c < i32::MAX);
            assert((c as i32).wrapping_add(1) as int == c + 1);
        }
    }
}

/// There are no more occurrences than insertions.
proof fn lemma_occurrences_bound(ins: Seq<(Seq<u8>, Seq<u8>)>, sk: Seq<u8>)
    ensures
        occurrences(ins, sk) <= ins.len(),
    decreases ins.len(),
{
    if ins.len() > 0 {
        lemma_occurrences_bound(ins.drop_last(), sk);
    }
}

/// How many of the keys `hs` fall under the short key `sk`.
pub open spec fn key_occurrences(hs: Seq<Seq<u8>>, sk: Seq<u8>) -> nat
    decreases hs.len(),
{
    if hs.len() == 0 {
        0
    } else {
        key_occurrences(hs.drop_last(), sk) + if short_key(hs.last()) == sk {
            1nat
        } else {
            0nat
        }
    }
}

/// Purging takes one count per key under a short key, and removes the short
/// key at its last count: a short key held with as many counts as keys fall
/// under it is gone afterwards, and one held with more keeps the rest.
pub proof fn lemma_purge_counts(m: Map<Seq<u8>, (Seq<u8>, int)>, size: usize, hs: Seq<Seq<u8>>, sk: Seq<u8>)
    requires
        m.contains_key(sk),
        sk != hashed_null_node(),
        key_occurrences(hs, sk) <= m[sk].1 <= i32::MAX,
        m[sk].1 > 0,
    ensures
        key_occurrences(hs, sk) == m[sk].1 ==> !purge_all(m, size, hs).0.contains_key(sk),
        key_occurrences(hs, sk) < m[sk].1 ==> purge_all(m, size, hs).0.contains_key(sk) && purge_all(m, size, hs).0[sk].1
            == m[sk].1 - key_occurrences(hs, sk),
    decreases hs.len(),
{
    if hs.len() > 0 {
        let d = hs.drop_last();
        lemma_purge_counts(m, size, d, sk);
        let m1 = purge_all(m, size, d).0;
        if short_key(hs.last()) == sk {
            let c = m1[sk].1;
            assert(c > 1 ==> (c as i32).wrapping_sub(1) as int == c - 1);
        }
    }
}

/// The keys of inserted pairs whose values are all stored fall under a short
/// key as often as the pairs do.
pub proof fn lemma_key_occurrences_of_pairs(ins: Seq<(Seq<u8>, Seq<u8>)>, sk: Seq<u8>)
    requires
        forall|i: int| 0 <= i < ins.len() ==> (#[trigger] ins[i]).1 != null_node_data(),
    ensures
        key_occurrences(pair_keys(ins), sk) == occurrences(ins, sk),
    decreases ins.len(),
{
    if ins.len() > 0 {
        let d = ins.drop_last();
        assert(pair_keys(ins).drop_last() =~= pair_keys(d));
        assert(forall|i: int| 0 <= i < d.len() ==> (#[trigger] d[i]) == ins[i]);
        lemma_key_occurrences_of_pairs(d, sk);
        assert(ins.last() == ins[ins.len() - 1]);
    }
}

/// Journaling a block and then retiring it takes its insertions out of the
/// history overlay again: a short key the overlay did not hold before is
/// held after absorbing the block's insertions exactly when one falls under
/// it, and gone after purging their keys.
pub proof fn lemma_absorb_then_purge(
    m: Map<Seq<u8>, (Seq<u8>, int)>,
    size: usize,
    size2: usize,
    ins: Seq<(Seq<u8>, Seq<u8>)>,
    sk: Seq<u8>,
)
    requires
        !m.contains_key(sk),
        sk != hashed_null_node(),
        ins.len() < i32::MAX,
        forall|i: int| 0 <= i < ins.len() ==> (#[trigger] ins[i]).1 != null_node_data(),
    ensures
        !purge_all(absorb(m, size, ins).0, size2, pair_keys(ins)).0.contains_key(sk),
{
    lemma_absorb_counts(m, size, ins, sk);
    lemma_key_occurrences_of_pairs(ins, sk);
    lemma_occurrences_bound(ins, sk);
    let m1 = absorb(m, size, ins).0;
    if occurrences(ins, sk) > 0 {
        lemma_purge_counts(m1, size2, pair_keys(ins), sk);
    } else {
        lemma_purge_untouched(m1, size2, pair_keys(ins), sk);
    }
}

/// Purging keys none of which falls under `sk` leaves `sk` as it was.
proof fn lemma_purge_untouched(m: Map<Seq<u8>, (Seq<u8>, int)>, size: usize, hs: Seq<Seq<u8>>, sk: Seq<u8>)
    requires
        key_occurrences(hs, sk) == 0,
    ensures
        purge_all(m, size, hs).0.contains_key(sk) == m.contains_key(sk),
        m.contains_key(sk) ==> purge_all(m, size, hs).0[sk] == m[sk],
    decreases hs.len(),
{
    if hs.len() > 0 {
        lemma_purge_untouched(m, size, hs.drop_last(), sk);
    }
}

/// The pending values after `kvs` are put one by one (later ones win).
pub open spec fn pairs_map(kvs: Seq<(HashBytes, Vec<u8>)>) -> Map<Seq<u8>, Seq<u8>>
    decreases kvs.len(),
{
    if kvs.len() == 0 {
        Map::empty()
    } else {
        pairs_map(kvs.drop_last()).insert(kvs.last().0@, kvs.last().1@)
    }
}

/// The history overlay of committed blocks, with the journal of their
/// changes.
pub struct JournalOverlay {
    backing_overlay: MemoryDB,
    pending_overlay: Vec<(HashBytes, Vec<u8>)>,
    journal: HashMap<u64, Vec<JournalEntry>>,
    latest_era: Option<u64>,
    earliest_era: Option<u64>,
    cumulative_size: usize,
}

/// A journaling database: uncommitted changes, the history overlay, and the
/// column of the store it writes to.
pub struct OverlayRecentDB {
    transaction_overlay: MemoryDB,
    journal_overlay: JournalOverlay,
    column: u32,
}

impl JournalOverlay {
    /// The history overlay: each short key with its value and count.
    pub closed spec fn spec_backing(&self) -> Map<Seq<u8>, (Seq<u8>, int)> {
        self.backing_overlay@
    }

    /// The values being moved from the history overlay to the store.
    pub closed spec fn spec_pending(&self) -> Map<Seq<u8>, Seq<u8>> {
        pairs_map(self.pending_overlay@)
    }

    /// The journal: the records of each era.
    pub closed spec fn spec_journal(&self) -> Map<u64, Seq<(Seq<u8>, Seq<Seq<u8>>, Seq<Seq<u8>>)>> {
        Map::new(|e: u64| self.journal@.contains_key(e), |e: u64| records_view(self.journal@[e]@))
    }

    /// The latest era journaled.
    pub closed spec fn spec_latest_era(&self) -> Option<u64> {
        self.latest_era
    }

    /// The earliest era still journaled.
    pub closed spec fn spec_earliest_era(&self) -> Option<u64> {
        self.earliest_era
    }

    /// The total size of the values in the history overlay, as counted.
    pub closed spec fn spec_journal_size(&self) -> usize {
        self.cumulative_size
    }

    /// An empty history.
    pub fn new() -> (r: Self)
        ensures
            r.spec_backing() == Map::<Seq<u8>, (Seq<u8>, int)>::empty(),
            r.spec_pending() == Map::<Seq<u8>, Seq<u8>>::empty(),
            r.spec_journal() == Map::<u64, Seq<(Seq<u8>, Seq<Seq<u8>>, Seq<Seq<u8>>)>>::empty(),
            r.spec_latest_era() is None,
            r.spec_earliest_era() is None,
            r.spec_journal_size() == 0,
    {
        let r = JournalOverlay {
            backing_overlay: MemoryDB::new(),
            pending_overlay: Vec::new(),
            journal: HashMap::new(),
            latest_era: None,
            earliest_era: None,
            cumulative_size: 0,
        };
        assert(r.spec_pending() =~= Map::<Seq<u8>, Seq<u8>>::empty());
        assert(r.spec_journal() =~= Map::<u64, Seq<(Seq<u8>, Seq<Seq<u8>>, Seq<Seq<u8>>)>>::empty());
        r
    }
}

impl OverlayRecentDB {
    /// The uncommitted changes: each key with its value and count, as the
    /// entries give them.
    pub open spec fn spec_transaction(&self) -> Map<Seq<u8>, (Seq<u8>, int)> {
        entries_map(self.spec_transaction_entries())
    }

    /// The uncommitted changes in the order they were first made.
    pub closed spec fn spec_transaction_entries(&self) -> Seq<(HashBytes, Vec<u8>, i32)> {
        self.transaction_overlay.entries()
    }

    /// The history overlay: each short key with its value and count.
    pub closed spec fn spec_backing(&self) -> Map<Seq<u8>, (Seq<u8>, int)> {
        self.journal_overlay.spec_backing()
    }

    /// The values being moved from the history overlay to the store.
    pub closed spec fn spec_pending(&self) -> Map<Seq<u8>, Seq<u8>> {
        self.journal_overlay.spec_pending()
    }

    /// The journal: the records of each era.
    pub closed spec fn spec_journal(&self) -> Map<u64, Seq<(Seq<u8>, Seq<Seq<u8>>, Seq<Seq<u8>>)>> {
        self.journal_overlay.spec_journal()
    }

    /// The latest era journaled.
    pub closed spec fn spec_latest_era(&self) -> Option<u64> {
        self.journal_overlay.spec_latest_era()
    }

    /// The earliest era still journaled.
    pub closed spec fn spec_earliest_era(&self) -> Option<u64> {
        self.journal_overlay.spec_earliest_era()
    }

    /// The total size of the values in the history overlay, as counted.
    pub closed spec fn spec_journal_size(&self) -> usize {
        self.journal_overlay.spec_journal_size()
    }

    /// The store column written to.
    pub closed spec fn spec_column(&self) -> u32 {
        self.column
    }

    /// A journaling database over column `col`, with the history read back
    /// from the store.
    pub fn new(overlay: JournalOverlay, col: u32) -> (r: Self)
        ensures
            r.spec_transaction() == Map::<Seq<u8>, (Seq<u8>, int)>::empty(),
            r.spec_transaction_entries().len() == 0,
            r.spec_column() == col,
            r.spec_backing() == overlay.spec_backing(),
            r.spec_pending() == overlay.spec_pending(),
            r.spec_journal() == overlay.spec_journal(),
            r.spec_latest_era() == overlay.spec_latest_era(),
            r.spec_earliest_era() == overlay.spec_earliest_era(),
            r.spec_journal_size() == overlay.spec_journal_size(),
    {
        OverlayRecentDB { transaction_overlay: MemoryDB::new(), journal_overlay: overlay, column: col }
    }

    /// The latest era journaled.
    pub fn latest_era(&self) -> (r: Option<u64>)
        ensures
            r == self.spec_latest_era(),
    {
        self.journal_overlay.latest_era
    }

    /// The earliest era still journaled.
    pub fn earliest_era(&self) -> (r: Option<u64>)
        ensures
            r == self.spec_earliest_era(),
    {
        self.journal_overlay.earliest_era
    }

    /// The total size of the values in the history overlay.
    pub fn journal_size(&self) -> (r: usize)
        ensures
            r == self.spec_journal_size(),
    {
        self.journal_overlay.cumulative_size
    }

    /// Inserts `value` under its hash among the uncommitted changes.
    pub fn insert(&mut self, value: &[u8]) -> (r: HashBytes)
        ensures
            final(self).spec_transaction() == spec_emplace(old(self).spec_transaction(), r@, value@),
            value@ == null_node_data() ==> r@ == hashed_null_node(),
            value@ != null_node_data() ==> r@ == crate::hasher::keccak256(value@),
            entry_keys(final(self).spec_transaction_entries()) == if value@ == null_node_data() {
                entry_keys(old(self).spec_transaction_entries())
            } else {
                touched_keys(entry_keys(old(self).spec_transaction_entries()), r@)
            },
            final(self).spec_backing() == old(self).spec_backing(),
            final(self).spec_pending() == old(self).spec_pending(),
            final(self).spec_journal() == old(self).spec_journal(),
            final(self).spec_latest_era() == old(self).spec_latest_era(),
            final(self).spec_earliest_era() == old(self).spec_earliest_era(),
            final(self).spec_journal_size() == old(self).spec_journal_size(),
            final(self).spec_column() == old(self).spec_column(),
            distinct_keys(final(self).spec_transaction_entries()),
    {
        self.transaction_overlay.insert(value)
    }

    /// Inserts `value` under `key` among the uncommitted changes.
    pub fn emplace(&mut self, key: HashBytes, value: Vec<u8>)
        ensures
            final(self).spec_transaction() == spec_emplace(old(self).spec_transaction(), key@, value@),
            entry_keys(final(self).spec_transaction_entries()) == if value@ == null_node_data() {
                entry_keys(old(self).spec_transaction_entries())
            } else {
                touched_keys(entry_keys(old(self).spec_transaction_entries()), key@)
            },
            final(self).spec_backing() == old(self).spec_backing(),
            final(self).spec_pending() == old(self).spec_pending(),
            final(self).spec_journal() == old(self).spec_journal(),
            final(self).spec_latest_era() == old(self).spec_latest_era(),
            final(self).spec_earliest_era() == old(self).spec_earliest_era(),
            final(self).spec_journal_size() == old(self).spec_journal_size(),
            final(self).spec_column() == old(self).spec_column(),
            distinct_keys(final(self).spec_transaction_entries()),
    {
        self.transaction_overlay.emplace(key, value)
    }

    /// Removes `key` among the uncommitted changes.
    pub fn remove(&mut self, key: &HashBytes)
        ensures
            final(self).spec_transaction() == spec_remove(old(self).spec_transaction(), key@),
            entry_keys(final(self).spec_transaction_entries()) == if key@ == hashed_null_node() {
                entry_keys(old(self).spec_transaction_entries())
            } else {
                touched_keys(entry_keys(old(self).spec_transaction_entries()), key@)
            },
            final(self).spec_backing() == old(self).spec_backing(),
            final(self).spec_pending() == old(self).spec_pending(),
            final(self).spec_journal() == old(self).spec_journal(),
            final(self).spec_latest_era() == old(self).spec_latest_era(),
            final(self).spec_earliest_era() == old(self).spec_earliest_era(),
            final(self).spec_journal_size() == old(self).spec_journal_size(),
            final(self).spec_column() == old(self).spec_column(),
            distinct_keys(final(self).spec_transaction_entries()),
    {
        self.transaction_overlay.remove(key)
    }
}

/// The value that the pairs `kvs` give `k`, the latest pair winning.
fn pending_get(kvs: &Vec<(HashBytes, Vec<u8>)>, k: &[u8]) -> (r: Option<Vec<u8>>)
    ensures
        match r {
            Some(v) => pairs_map(kvs@).contains_key(k@) && pairs_map(kvs@)[k@] == v@,
            None => !pairs_map(kvs@).contains_key(k@),
        },
{
    let mut i = kvs.len();
    assert(kvs@.take(i as int) =~= kvs@);
    while i > 0
        invariant
            i <= kvs@.len(),
            pairs_map(kvs@).contains_key(k@) == pairs_map(kvs@.take(i as int)).contains_key(k@),
            pairs_map(kvs@).contains_key(k@) ==> pairs_map(kvs@)[k@] == pairs_map(kvs@.take(i as int))[k@],
        decreases i,
    {
        i = i - 1;
        let ghost t = kvs@.take(i + 1);
        assert(t.drop_last() =~= kvs@.take(i as int));
        assert(t.last() == kvs@[i as int]);
        if same_bytes(kvs[i].0.as_slice(), k) {
            let v = kvs[i].1.clone();
            assert(v@ =~= kvs@[i as int].1@);
            return Some(v);
        }
    }
    assert(pairs_map(kvs@.take(0)) =~= Map::<Seq<u8>, Seq<u8>>::empty());
    None
}

/// A copy of the first twelve bytes of `key` followed by zeros (see
/// `short_key`).
pub fn to_short_key(key: &HashBytes) -> (r: HashBytes)
    ensures
        r@ == short_key(key@),
{
    let mut r: [u8; 32] = [0u8; 32];
    let mut i: usize = 0;
    while i < 12
        invariant
            i <= 12,
            key@.len() == 32,
            forall|j: int| 0 <= j < i ==> r@[j] == key@[j],
            forall|j: int| i <= j < 32 ==> r@[j] == 0,
        decreases 12 - i,
    {
        r[i] = key[i];
        i = i + 1;
    }
    assert(r@ =~= short_key(key@));
    r
}

/// What the history says of `key`: its value in the history overlay, or the
/// value being moved to the store, by the key's first twelve bytes.
pub open spec fn history_value(
    backing: Map<Seq<u8>, (Seq<u8>, int)>,
    pending: Map<Seq<u8>, Seq<u8>>,
    key: Seq<u8>,
) -> Option<Seq<u8>> {
    let sk = short_key(key);
    match spec_get(backing, sk) {
        Some(v) => Some(v),
        None => if pending.contains_key(sk) {
            Some(pending[sk])
        } else {
            None
        },
    }
}

/// The view of an optional byte vector.
pub open spec fn opt_view(o: Option<Vec<u8>>) -> Option<Seq<u8>> {
    match o {
        Some(v) => Some(v@),
        None => None,
    }
}

impl OverlayRecentDB {
    /// The value of `key` as the history keeps it (see `history_value`);
    /// nothing means that the store itself must be asked.
    pub fn state(&self, key: &HashBytes) -> (r: Option<Vec<u8>>)
        ensures
            opt_view(r) == history_value(self.spec_backing(), self.spec_pending(), key@),
    {
        let sk = to_short_key(key);
        match self.journal_overlay.backing_overlay.get(sk.as_slice()) {
            Some(v) => Some(v),
            None => pending_get(&self.journal_overlay.pending_overlay, sk.as_slice()),
        }
    }

    /// The value of `key`: an uncommitted insertion first, then the history
    /// (see `state`); nothing means that the store itself must be asked.
    pub fn get(&self, key: &HashBytes) -> (r: Option<Vec<u8>>)
        ensures
            opt_view(r) == match spec_raw(self.spec_transaction(), key@) {
                Some(p) if p.1 > 0 => Some(p.0),
                _ => history_value(self.spec_backing(), self.spec_pending(), key@),
            },
    {
        match self.transaction_overlay.raw(key.as_slice()) {
            Some((d, rc)) => if rc > 0 {
                return Some(d);
            },
            None => {},
        }
        self.state(key)
    }

    /// `true` when `get` finds a value in the overlays.
    pub fn contains(&self, key: &HashBytes) -> (r: bool)
        ensures
            r == (match spec_raw(self.spec_transaction(), key@) {
                Some(p) if p.1 > 0 => Some(p.0),
                _ => history_value(self.spec_backing(), self.spec_pending(), key@),
            } is Some),
    {
        self.get(key).is_some()
    }
}

/// The writes that applying uncommitted changes directly gives: each key
/// with a positive count is stored, each with count -1 removed.
pub open spec fn inject_ops(es: Seq<(HashBytes, Vec<u8>, i32)>, col: u32) -> Seq<(u32, Seq<u8>, Option<Seq<u8>>)>
    decreases es.len(),
{
    if es.len() == 0 {
        Seq::empty()
    } else {
        let r = inject_ops(es.drop_last(), col);
        let (k, v, c) = es.last();
        if c > 0 {
            r.push((col, k@, Some(v@)))
        } else if c == -1 {
            r.push((col, k@, None))
        } else {
            r
        }
    }
}

/// `inject` writes every uncommitted key with a positive count to the store
/// with its value, whatever the count, and removes every key with count -1;
/// every write it makes is one of these.
pub proof fn lemma_inject_writes(es: Seq<(HashBytes, Vec<u8>, i32)>, col: u32)
    ensures
        forall|i: int| 0 <= i < es.len() && es[i].2 > 0 ==> inject_ops(es, col).contains((col, #[trigger] es[i].0@, Some(es[i].1@))),
        forall|i: int| 0 <= i < es.len() && es[i].2 == -1 ==> inject_ops(es, col).contains((col, #[trigger] es[i].0@, None::<Seq<u8>>)),
        forall|j: int| #![trigger inject_ops(es, col)[j]] 0 <= j < inject_ops(es, col).len() ==> exists|i: int| #![trigger es[i]] 0 <= i < es.len() && (
            (es[i].2 > 0 && inject_ops(es, col)[j] == (col, es[i].0@, Some(es[i].1@))) || (es[i].2 == -1
                && inject_ops(es, col)[j] == (col, es[i].0@, None::<Seq<u8>>))),
    decreases es.len(),
{
    if es.len() > 0 {
        let d = es.drop_last();
        lemma_inject_writes(d, col);
        let r = inject_ops(d, col);
        let n = es.len() - 1;
        assert forall|i: int| 0 <= i < es.len() && es[i].2 > 0 implies inject_ops(es, col).contains(
            (col, #[trigger] es[i].0@, Some(es[i].1@)),
        ) by {
            if i < n {
                assert(d[i] == es[i]);
                let j = choose|j: int| 0 <= j < r.len() && r[j] == (col, d[i].0@, Some(d[i].1@));
                assert(inject_ops(es, col)[j] == r[j]);
            } else {
                assert(inject_ops(es, col).last() == (col, es[i].0@, Some(es[i].1@)));
            }
        }
        assert forall|i: int| 0 <= i < es.len() && es[i].2 == -1 implies inject_ops(es, col).contains(
            (col, #[trigger] es[i].0@, None::<Seq<u8>>),
        ) by {
            if i < n {
                assert(d[i] == es[i]);
                let j = choose|j: int| 0 <= j < r.len() && r[j] == (col, d[i].0@, None::<Seq<u8>>);
                assert(inject_ops(es, col)[j] == r[j]);
            } else {
                assert(inject_ops(es, col).last() == (col, es[i].0@, None::<Seq<u8>>));
            }
        }
        assert forall|j: int| #![trigger inject_ops(es, col)[j]] 0 <= j < inject_ops(es, col).len() implies exists|i: int| #![trigger es[i]] 0 <= i < es.len() && (
            (es[i].2 > 0 && inject_ops(es, col)[j] == (col, es[i].0@, Some(es[i].1@))) || (es[i].2 == -1
                && inject_ops(es, col)[j] == (col, es[i].0@, None::<Seq<u8>>))) by {
            if j < r.len() {
                assert(inject_ops(es, col)[j] == r[j]);
                let i = choose|i: int| #![trigger d[i]] 0 <= i < d.len() && (
                    (d[i].2 > 0 && r[j] == (col, d[i].0@, Some(d[i].1@))) || (d[i].2 == -1
                        && r[j] == (col, d[i].0@, None::<Seq<u8>>)));
                assert(d[i] == es[i]);
            } else {
                assert(es[n] == es.last());
                assert(inject_ops(es, col)[j] == inject_ops(es, col).last());
                assert(inject_ops(es, col).len() > r.len());
                if es[n].2 > 0 {
                    assert(inject_ops(es, col)[j] == (col, es[n].0@, Some(es[n].1@)));
                } else {
                    assert(es[n].2 == -1);
                    assert(inject_ops(es, col)[j] == (col, es[n].0@, None::<Seq<u8>>));
                }
            }
        }
    }
}

/// A block journals as insertions exactly the uncommitted entries with a
/// positive count, whatever the count, each with its value, and as removals
/// exactly the keys with a negative count.
pub proof fn lemma_journaled_changes(es: Seq<(HashBytes, Vec<u8>, i32)>)
    ensures
        forall|i: int| 0 <= i < es.len() && es[i].2 > 0 ==> tx_insertions(es).contains((#[trigger] es[i].0@, es[i].1@)),
        forall|j: int| 0 <= j < tx_insertions(es).len() ==> exists|i: int| 0 <= i < es.len() && es[i].2 > 0 && #[trigger] tx_insertions(es)[j] == (es[i].0@, es[i].1@),
        forall|i: int| 0 <= i < es.len() && es[i].2 < 0 ==> tx_removals(es).contains(#[trigger] es[i].0@),
        forall|j: int| 0 <= j < tx_removals(es).len() ==> exists|i: int| 0 <= i < es.len() && es[i].2 < 0 && #[trigger] tx_removals(es)[j] == es[i].0@,
    decreases es.len(),
{
    if es.len() > 0 {
        let d = es.drop_last();
        lemma_journaled_changes(d);
        let a = tx_insertions(d);
        let rm = tx_removals(d);
        let n = es.len() - 1;
        assert forall|i: int| 0 <= i < es.len() && es[i].2 > 0 implies tx_insertions(es).contains((#[trigger] es[i].0@, es[i].1@)) by {
            if i < n {
                assert(d[i] == es[i]);
                let j = choose|j: int| 0 <= j < a.len() && a[j] == (d[i].0@, d[i].1@);
                assert(tx_insertions(es)[j] == a[j]);
            } else {
                assert(tx_insertions(es).last() == (es[i].0@, es[i].1@));
            }
        }
        assert forall|j: int| 0 <= j < tx_insertions(es).len() implies exists|i: int| 0 <= i < es.len() && es[i].2 > 0 && #[trigger] tx_insertions(es)[j] == (es[i].0@, es[i].1@) by {
            if j < a.len() {
                assert(tx_insertions(es)[j] == a[j]);
                let i = choose|i: int| 0 <= i < d.len() && d[i].2 > 0 && #[trigger] a[j] == (d[i].0@, d[i].1@);
                assert(d[i] == es[i]);
            } else {
                assert(es[n] == es.last());
            }
        }
        assert forall|i: int| 0 <= i < es.len() && es[i].2 < 0 implies tx_removals(es).contains(#[trigger] es[i].0@) by {
            if i < n {
                assert(d[i] == es[i]);
                let j = choose|j: int| 0 <= j < rm.len() && rm[j] == d[i].0@;
                assert(tx_removals(es)[j] == rm[j]);
            } else {
                assert(tx_removals(es).last() == es[i].0@);
            }
        }
        assert forall|j: int| 0 <= j < tx_removals(es).len() implies exists|i: int| 0 <= i < es.len() && es[i].2 < 0 && #[trigger] tx_removals(es)[j] == es[i].0@ by {
            if j < rm.len() {
                assert(tx_removals(es)[j] == rm[j]);
                let i = choose|i: int| 0 <= i < d.len() && d[i].2 < 0 && #[trigger] rm[j] == d[i].0@;
                assert(d[i] == es[i]);
            } else {
                assert(es[n] == es.last());
            }
        }
    }
}

/// The number of entries whose count is not zero.
pub open spec fn nonzero_count(es: Seq<(HashBytes, Vec<u8>, i32)>) -> nat
    decreases es.len(),
{
    if es.len() == 0 {
        0
    } else {
        nonzero_count(es.drop_last()) + if es.last().2 != 0 {
            1nat
        } else {
            0nat
        }
    }
}

impl OverlayRecentDB {
    /// Writes the uncommitted changes straight to the store, bypassing the
    /// journal, and returns how many keys changed. Every count must be at
    /// least -1.
    pub fn inject(&mut self, batch: &mut DBTransaction) -> (r: u32)
        requires
            forall|i: int| 0 <= i < old(self).spec_transaction_entries().len() ==> (#[trigger] old(self).spec_transaction_entries()[i]).2 >= -1,
        ensures
            final(batch).view() == old(batch).view() + inject_ops(old(self).spec_transaction_entries(), old(self).spec_column()),
            r == nonzero_count(old(self).spec_transaction_entries()) as u32,
            final(self).spec_transaction() == Map::<Seq<u8>, (Seq<u8>, int)>::empty(),
            final(self).spec_transaction_entries().len() == 0,
            final(self).spec_backing() == old(self).spec_backing(),
            final(self).spec_pending() == old(self).spec_pending(),
            final(self).spec_journal() == old(self).spec_journal(),
            final(self).spec_latest_era() == old(self).spec_latest_era(),
            final(self).spec_earliest_era() == old(self).spec_earliest_era(),
            final(self).spec_journal_size() == old(self).spec_journal_size(),
            final(self).spec_column() == old(self).spec_column(),
    {
        let es = self.transaction_overlay.drain();
        assert(es@ == old(self).spec_transaction_entries());
        assert forall|j: int| 0 <= j < es@.len() implies (#[trigger] es@[j]).2 >= -1 by {
            assert(es@[j] == old(self).spec_transaction_entries()[j]);
        }
        let ghost start = batch.view();
        let mut ops: usize = 0;
        let mut i: usize = 0;
        while i < es.len()
            invariant
                i <= es@.len(),
                forall|j: int| 0 <= j < es@.len() ==> (#[trigger] es@[j]).2 >= -1,
                batch.view() == start + inject_ops(es@.take(i as int), self.column),
                ops == nonzero_count(es@.take(i as int)),
                ops <= i,
            decreases es@.len() - i,
        {
            proof {
                assert(es@.take(i + 1).drop_last() =~= es@.take(i as int));
                assert(es@.take(i + 1).last() == es@[i as int]);
            }
            let (k, v, c) = (&es[i].0, &es[i].1, es[i].2);
            if c != 0 {
                ops = ops + 1;
            }
            if c > 0 {
                batch.put(self.column, k.as_slice(), v.as_slice());
            } else if c == -1 {
                batch.delete(self.column, k.as_slice());
            }
            proof {
                assert(batch.view() =~= start + inject_ops(es@.take(i + 1), self.column));
            }
            i = i + 1;
        }
        assert(es@.take(es@.len() as int) =~= es@);
        #[verifier::truncate] (ops as u32)
    }
}

/// The minimal big-endian bytes of `n`.
pub fn be_encode_u64(n: u64) -> (r: Vec<u8>)
    ensures
        r@ == be_bytes(n as nat),
    decreases n,
{
    if n == 0 {
        Vec::new()
    } else {
        let mut v = be_encode_u64(n / 256);
        v.push((n % 256) as u8);
        v
    }
}

/// The store key of the `index`-th journal record of `era` (see
/// `record_key`).
pub fn encode_record_key(era: u64, index: usize) -> (r: Vec<u8>)
    ensures
        r@ == record_key(era, index as nat),
{
    let mut payload: Vec<u8> = Vec::new();
    let e = be_encode_u64(era);
    append_string(&mut payload, e.as_slice());
    let ix = crate::rlp_codec::be_encode(index);
    append_string(&mut payload, ix.as_slice());
    let mut pad: Vec<u8> = Vec::new();
    let mut i: usize = 0;
    while i < 10
        invariant
            i <= 10,
            pad@ == Seq::new(i as nat, |j: int| 0u8),
        decreases 10 - i,
    {
        pad.push(0u8);
        assert(pad@ =~= Seq::new((i + 1) as nat, |j: int| 0u8));
        i = i + 1;
    }
    append_string(&mut payload, pad.as_slice());
    assert(payload@ =~= rlp_number(era as nat) + rlp_number(index as nat) + rlp_string(Seq::new(10, |j: int| 0u8)));
    encode_list(payload.as_slice())
}

/// The stored form of a journal record (see `record_value`).
pub fn encode_record(id: &HashBytes, ins: &Vec<(HashBytes, Vec<u8>)>, dels: &Vec<HashBytes>) -> (r: Vec<u8>)
    ensures
        r@ == record_value(id@, pairs_view(ins@), hashes_view(dels@)),
{
    let mut payload: Vec<u8> = Vec::new();
    append_string(&mut payload, id.as_slice());
    let mut ip: Vec<u8> = Vec::new();
    let mut i: usize = 0;
    while i < ins.len()
        invariant
            i <= ins@.len(),
            ip@ == inserts_payload(pairs_view(ins@).take(i as int)),
        decreases ins@.len() - i,
    {
        let mut item: Vec<u8> = Vec::new();
        append_string(&mut item, ins[i].0.as_slice());
        append_string(&mut item, ins[i].1.as_slice());
        let enc = encode_list(item.as_slice());
        append_bytes(&mut ip, enc.as_slice());
        proof {
            let t = pairs_view(ins@).take(i + 1);
            assert(t.drop_last() =~= pairs_view(ins@).take(i as int));
            assert(t.last() == (ins@[i as int].0@, ins@[i as int].1@));
        }
        i = i + 1;
    }
    assert(pairs_view(ins@).take(ins@.len() as int) =~= pairs_view(ins@));
    let enc_ins = encode_list(ip.as_slice());
    append_bytes(&mut payload, enc_ins.as_slice());
    let mut dp: Vec<u8> = Vec::new();
    let mut j: usize = 0;
    while j < dels.len()
        invariant
            j <= dels@.len(),
            dp@ == strings_payload(hashes_view(dels@).take(j as int)),
        decreases dels@.len() - j,
    {
        append_string(&mut dp, dels[j].as_slice());
        proof {
            let t = hashes_view(dels@).take(j + 1);
            assert(t.drop_last() =~= hashes_view(dels@).take(j as int));
            assert(t.last() == dels@[j as int]@);
        }
        j = j + 1;
    }
    assert(hashes_view(dels@).take(dels@.len() as int) =~= hashes_view(dels@));
    let enc_dels = encode_list(dp.as_slice());
    append_bytes(&mut payload, enc_dels.as_slice());
    assert(payload@ =~= rlp_string(id@) + rlp_list(inserts_payload(pairs_view(ins@))) + rlp_list(
        strings_payload(hashes_view(dels@)),
    ));
    encode_list(payload.as_slice())
}

/// Pairs of hashes and values as plain values.
pub open spec fn pairs_view(v: Seq<(HashBytes, Vec<u8>)>) -> Seq<(Seq<u8>, Seq<u8>)> {
    v.map_values(|p: (HashBytes, Vec<u8>)| (p.0@, p.1@))
}

/// The keys of pairs.
pub open spec fn pair_keys(v: Seq<(Seq<u8>, Seq<u8>)>) -> Seq<Seq<u8>> {
    v.map_values(|p: (Seq<u8>, Seq<u8>)| p.0)
}

/// The records of `era` in the journal `j`, none if it has none.
pub open spec fn era_records(
    j: Map<u64, Seq<(Seq<u8>, Seq<Seq<u8>>, Seq<Seq<u8>>)>>,
    era: u64,
) -> Seq<(Seq<u8>, Seq<Seq<u8>>, Seq<Seq<u8>>)> {
    if j.contains_key(era) {
        j[era]
    } else {
        Seq::empty()
    }
}

/// `true` when `now` is later than every era journaled so far.
pub open spec fn is_new_latest(latest: Option<u64>, now: u64) -> bool {
    match latest {
        None => true,
        Some(e) => now > e,
    }
}

/// The writes of `journal_under`: the record under its key, and the latest
/// era when it moves forward.
pub open spec fn journal_ops(
    col: u32,
    now: u64,
    index: nat,
    id: Seq<u8>,
    es: Seq<(HashBytes, Vec<u8>, i32)>,
    latest: Option<u64>,
) -> Seq<(u32, Seq<u8>, Option<Seq<u8>>)> {
    let rec = seq![(col, record_key(now, index), Some(record_value(id, tx_insertions(es), tx_removals(es))))];
    if is_new_latest(latest, now) {
        rec.push((col, latest_era_key(), Some(rlp_number(now as nat))))
    } else {
        rec
    }
}

impl OverlayRecentDB {
    /// Journals the uncommitted changes as a block with `id` in era `now`:
    /// the block's record goes to `batch` (with the latest era when it moves
    /// forward), the inserted values join the history overlay, and the
    /// journal gains the block's record. Returns how many keys changed.
    pub fn journal_under(&mut self, batch: &mut DBTransaction, now: u64, id: &HashBytes) -> (r: u32)
        ensures
            ({
                let es = old(self).spec_transaction_entries();
                let ins = tx_insertions(es);
                let rem = tx_removals(es);
                let recs = era_records(old(self).spec_journal(), now);
                let absorbed = absorb(old(self).spec_backing(), old(self).spec_journal_size(), ins);
                &&& final(batch).view() == old(batch).view() + journal_ops(
                    old(self).spec_column(),
                    now,
                    recs.len(),
                    id@,
                    es,
                    old(self).spec_latest_era(),
                )
                &&& final(self).spec_transaction() == Map::<Seq<u8>, (Seq<u8>, int)>::empty()
                &&& final(self).spec_transaction_entries().len() == 0
                &&& final(self).spec_backing() == absorbed.0
                &&& final(self).spec_journal_size() == absorbed.1
                &&& final(self).spec_pending() == Map::<Seq<u8>, Seq<u8>>::empty()
                &&& final(self).spec_journal() == old(self).spec_journal().insert(
                    now,
                    recs.push((id@, pair_keys(ins), rem)),
                )
                &&& final(self).spec_latest_era() == if is_new_latest(old(self).spec_latest_era(), now) {
                    Some(now)
                } else {
                    old(self).spec_latest_era()
                }
                &&& final(self).spec_earliest_era() == match old(self).spec_earliest_era() {
                    Some(e) if e <= now => Some(e),
                    _ => Some(now),
                }
                &&& final(self).spec_column() == old(self).spec_column()
                &&& r == (ins.len() + rem.len()) as u32
            }),
    {
        self.journal_overlay.pending_overlay = Vec::new();
        assert(self.spec_pending() =~= Map::<Seq<u8>, Seq<u8>>::empty());
        let es = self.transaction_overlay.drain();
        let ghost esv = es@;
        let mut inserted_keys: Vec<HashBytes> = Vec::new();
        let mut removed_keys: Vec<HashBytes> = Vec::new();
        let mut insertions: Vec<(HashBytes, Vec<u8>)> = Vec::new();
        let mut i: usize = 0;
        while i < es.len()
            invariant
                i <= es@.len(),
                pairs_view(insertions@) == tx_insertions(es@.take(i as int)),
                hashes_view(inserted_keys@) == pair_keys(tx_insertions(es@.take(i as int))),
                hashes_view(removed_keys@) == tx_removals(es@.take(i as int)),
                insertions@.len() + removed_keys@.len() <= i,
            decreases es@.len() - i,
        {
            proof {
                assert(es@.take(i + 1).drop_last() =~= es@.take(i as int));
                assert(es@.take(i + 1).last() == es@[i as int]);
            }
            let c = es[i].2;
            if c > 0 {
                let k = es[i].0;
                let v = es[i].1.clone();
                assert(v@ =~= es@[i as int].1@);
                let ghost before = pairs_view(insertions@);
                let ghost kb = hashes_view(inserted_keys@);
                inserted_keys.push(k);
                insertions.push((k, v));
                proof {
                    assert(pairs_view(insertions@) =~= before.push((k@, v@)));
                    assert(hashes_view(inserted_keys@) =~= kb.push(k@));
                    assert(pair_keys(before.push((k@, v@))) =~= pair_keys(before).push(k@));
                }
            } else if c < 0 {
                let ghost kb = hashes_view(removed_keys@);
                removed_keys.push(es[i].0);
                assert(hashes_view(removed_keys@) =~= kb.push(es@[i as int].0@));
            }
            i = i + 1;
        }
        assert(es@.take(es@.len() as int) =~= es@);
        let ops = insertions.len() + removed_keys.len();
        let encoded_value = encode_record(id, &insertions, &removed_keys);
        let ghost b0 = self.spec_backing();
        let ghost s0 = self.spec_journal_size();
        let mut j: usize = 0;
        while j < insertions.len()
            invariant
                j <= insertions@.len(),
                (self.spec_backing(), self.spec_journal_size()) == absorb(b0, s0, pairs_view(insertions@).take(j as int)),
                self.journal_overlay.journal@ == old(self).journal_overlay.journal@,
                self.journal_overlay.latest_era == old(self).journal_overlay.latest_era,
                self.journal_overlay.earliest_era == old(self).journal_overlay.earliest_era,
                self.journal_overlay.pending_overlay@.len() == 0,
                self.column == old(self).column,
                self.spec_transaction() == Map::<Seq<u8>, (Seq<u8>, int)>::empty(),
                self.spec_transaction_entries().len() == 0,
            decreases insertions@.len() - j,
        {
            proof {
                let t = pairs_view(insertions@).take(j + 1);
                assert(t.drop_last() =~= pairs_view(insertions@).take(j as int));
                assert(t.last() == (insertions@[j as int].0@, insertions@[j as int].1@));
            }
            let sk = to_short_key(&insertions[j].0);
            let v = insertions[j].1.clone();
            assert(v@ =~= insertions@[j as int].1@);
            if !self.journal_overlay.backing_overlay.contains(sk.as_slice()) {
                self.journal_overlay.cumulative_size = self.journal_overlay.cumulative_size.wrapping_add(v.len());
            }
            self.journal_overlay.backing_overlay.emplace(sk, v);
            j = j + 1;
        }
        assert(pairs_view(insertions@).take(insertions@.len() as int) =~= pairs_view(insertions@));
        let mut recs: Vec<JournalEntry> = match self.journal_overlay.journal.remove(&now) {
            Some(v) => v,
            None => Vec::new(),
        };
        let ghost old_recs = era_records(old(self).spec_journal(), now);
        assert(records_view(recs@) =~= old_recs);
        let index = recs.len();
        let key = encode_record_key(now, index);
        let ghost bstart = batch.view();
        let ghost ev_bytes = encoded_value@;
        assert(ev_bytes == record_value(id@, tx_insertions(esv), tx_removals(esv)));
        batch.put_vec(self.column, key.as_slice(), encoded_value);
        assert(batch.view() == bstart.push((self.column, record_key(now, index as nat), Some(ev_bytes))));
        let new_latest = match self.journal_overlay.latest_era {
            None => true,
            Some(e) => now > e,
        };
        if new_latest {
            let lk: [u8; 12] = [108, 97, 115, 116, 0, 0, 0, 0, 0, 0, 0, 0];
            assert(lk@ =~= latest_era_key());
            let mut nv: Vec<u8> = Vec::new();
            let nb = be_encode_u64(now);
            append_string(&mut nv, nb.as_slice());
            assert(nv@ =~= rlp_number(now as nat));
            batch.put_vec(self.column, lk.as_slice(), nv);
            self.journal_overlay.latest_era = Some(now);
        }
        assert(batch.view() =~= bstart + journal_ops(self.column, now, index as nat, id@, esv, old(self).spec_latest_era()));
        let new_earliest = match self.journal_overlay.earliest_era {
            None => true,
            Some(e) => e > now,
        };
        if new_earliest {
            self.journal_overlay.earliest_era = Some(now);
        }
        let entry = JournalEntry { id: *id, insertions: inserted_keys, deletions: removed_keys };
        let ghost ev = entry_view(entry);
        recs.push(entry);
        assert(records_view(recs@) =~= old_recs.push(ev));
        self.journal_overlay.journal.insert(now, recs);
        assert(self.spec_journal() =~= old(self).spec_journal().insert(now, old_recs.push(ev)));
        assert(self.spec_transaction_entries().len() == 0);
        assert(self.spec_transaction() =~= Map::<Seq<u8>, (Seq<u8>, int)>::empty());
        #[verifier::truncate] (ops as u32)
    }
}

/// The inserted keys `hs` that are live in the overlay `m`, each with its
/// value there, in order.
pub open spec fn live_inserts(hs: Seq<Seq<u8>>, m: Map<Seq<u8>, (Seq<u8>, int)>) -> Seq<(Seq<u8>, Seq<u8>)>
    decreases hs.len(),
{
    if hs.len() == 0 {
        Seq::empty()
    } else {
        let r = live_inserts(hs.drop_last(), m);
        match spec_raw(m, short_key(hs.last())) {
            Some(p) => if p.1 > 0 {
                r.push((hs.last(), p.0))
            } else {
                r
            },
            None => r,
        }
    }
}

/// The live insertions of the records with the canonical id, in order.
pub open spec fn canon_inserts(
    rv: Seq<(Seq<u8>, Seq<Seq<u8>>, Seq<Seq<u8>>)>,
    canon: Seq<u8>,
    m: Map<Seq<u8>, (Seq<u8>, int)>,
) -> Seq<(Seq<u8>, Seq<u8>)>
    decreases rv.len(),
{
    if rv.len() == 0 {
        Seq::empty()
    } else {
        let r = canon_inserts(rv.drop_last(), canon, m);
        if rv.last().0 == canon {
            r + live_inserts(rv.last().1, m)
        } else {
            r
        }
    }
}

/// The removals of the last record with the canonical id.
pub open spec fn canon_deletes(rv: Seq<(Seq<u8>, Seq<Seq<u8>>, Seq<Seq<u8>>)>, canon: Seq<u8>) -> Seq<Seq<u8>>
    decreases rv.len(),
{
    if rv.len() == 0 {
        Seq::empty()
    } else if rv.last().0 == canon {
        rv.last().2
    } else {
        canon_deletes(rv.drop_last(), canon)
    }
}

/// The live insertions of a record are exactly its inserted keys that the
/// history overlay holds with a positive count, each with the value held.
pub proof fn lemma_live_inserts(hs: Seq<Seq<u8>>, m: Map<Seq<u8>, (Seq<u8>, int)>)
    ensures
        forall|j: int| 0 <= j < live_inserts(hs, m).len() ==> exists|t: int| #![trigger hs[t]] 0 <= t < hs.len()
            && hs[t] == (#[trigger] live_inserts(hs, m)[j]).0 && spec_get(m, short_key(hs[t])) == Some(live_inserts(hs, m)[j].1),
        forall|t: int| 0 <= t < hs.len() && spec_contains(m, short_key(#[trigger] hs[t])) ==> live_inserts(hs, m).contains(
            (hs[t], spec_get(m, short_key(hs[t])).unwrap()),
        ),
    decreases hs.len(),
{
    if hs.len() > 0 {
        let d = hs.drop_last();
        lemma_live_inserts(d, m);
        let r = live_inserts(d, m);
        let l = live_inserts(hs, m);
        let n = hs.len() - 1;
        assert forall|j: int| 0 <= j < l.len() implies exists|t: int| #![trigger hs[t]] 0 <= t < hs.len()
            && hs[t] == (#[trigger] l[j]).0 && spec_get(m, short_key(hs[t])) == Some(l[j].1) by {
            if j < r.len() {
                assert(l[j] == r[j]);
                let t = choose|t: int| #![trigger d[t]] 0 <= t < d.len() && d[t] == r[j].0 && spec_get(m, short_key(d[t])) == Some(r[j].1);
                assert(hs[t] == d[t]);
            } else {
                assert(hs[n] == hs.last());
            }
        }
        assert forall|t: int| 0 <= t < hs.len() && spec_contains(m, short_key(#[trigger] hs[t])) implies l.contains(
            (hs[t], spec_get(m, short_key(hs[t])).unwrap()),
        ) by {
            if t < n {
                assert(hs[t] == d[t]);
                let j = choose|j: int| 0 <= j < r.len() && r[j] == (d[t], spec_get(m, short_key(d[t])).unwrap());
                assert(l[j] == r[j]);
            } else {
                assert(hs[t] == hs.last());
                assert(l.last() == (hs[t], spec_get(m, short_key(hs[t])).unwrap()));
            }
        }
    }
}

/// Whether `x` is the live insertion of a key inserted by some record with
/// the canonical id: the key is one of that record's insertions and the
/// history overlay holds it with a positive count and the value `x.1`.
pub open spec fn is_canon_insert(
    rv: Seq<(Seq<u8>, Seq<Seq<u8>>, Seq<Seq<u8>>)>,
    canon: Seq<u8>,
    m: Map<Seq<u8>, (Seq<u8>, int)>,
    x: (Seq<u8>, Seq<u8>),
) -> bool {
    exists|i: int, t: int| #![trigger rv[i].1[t]]
        0 <= i < rv.len() && rv[i].0 == canon && 0 <= t < rv[i].1.len() && rv[i].1[t] == x.0
            && spec_get(m, short_key(x.0)) == Some(x.1)
}

/// Marking a block canonical writes exactly the live insertions of the
/// records with the canonical id: every written pair is a live insertion of
/// such a record, and every live insertion of such a record is written.
pub proof fn lemma_canon_inserts(
    rv: Seq<(Seq<u8>, Seq<Seq<u8>>, Seq<Seq<u8>>)>,
    canon: Seq<u8>,
    m: Map<Seq<u8>, (Seq<u8>, int)>,
)
    ensures
        forall|j: int| 0 <= j < canon_inserts(rv, canon, m).len() ==> is_canon_insert(
            rv,
            canon,
            m,
            #[trigger] canon_inserts(rv, canon, m)[j],
        ),
        forall|i: int, t: int|
            0 <= i < rv.len() && rv[i].0 == canon && 0 <= t < rv[i].1.len() && spec_contains(m, short_key(#[trigger] rv[i].1[t]))
                ==> canon_inserts(rv, canon, m).contains((rv[i].1[t], spec_get(m, short_key(rv[i].1[t])).unwrap())),
    decreases rv.len(),
{
    if rv.len() > 0 {
        let d = rv.drop_last();
        lemma_canon_inserts(d, canon, m);
        let n = rv.len() - 1;
        let r = canon_inserts(d, canon, m);
        let c = canon_inserts(rv, canon, m);
        let last = rv.last();
        lemma_live_inserts(last.1, m);
        let li = live_inserts(last.1, m);
        assert(rv[n] == last);
        assert forall|j: int| 0 <= j < c.len() implies is_canon_insert(rv, canon, m, #[trigger] c[j]) by {
            if j < r.len() {
                assert(c[j] == r[j]);
                assert(is_canon_insert(d, canon, m, r[j]));
                let (i, t) = choose|i: int, t: int| #![trigger d[i].1[t]] 0 <= i < d.len() && d[i].0 == canon && 0 <= t < d[i].1.len()
                    && d[i].1[t] == r[j].0 && spec_get(m, short_key(r[j].0)) == Some(r[j].1);
                assert(rv[i] == d[i]);
                assert(rv[i].1[t] == d[i].1[t]);
            } else {
                assert(last.0 == canon);
                assert(c[j] == li[j - r.len()]);
                let t = choose|t: int| #![trigger last.1[t]] 0 <= t < last.1.len() && last.1[t] == li[j - r.len()].0
                    && spec_get(m, short_key(last.1[t])) == Some(li[j - r.len()].1);
                assert(rv[n].1[t] == last.1[t]);
            }
        }
        assert forall|i: int, t: int|
            0 <= i < rv.len() && rv[i].0 == canon && 0 <= t < rv[i].1.len() && spec_contains(m, short_key(#[trigger] rv[i].1[t]))
            implies c.contains((rv[i].1[t], spec_get(m, short_key(rv[i].1[t])).unwrap())) by {
            let x = (rv[i].1[t], spec_get(m, short_key(rv[i].1[t])).unwrap());
            if i < n {
                assert(rv[i] == d[i]);
                assert(d[i].1[t] == rv[i].1[t]);
                let j = choose|j: int| 0 <= j < r.len() && r[j] == x;
                assert(c[j] == r[j]);
            } else {
                assert(rv[i] == last);
                assert(last.1[t] == rv[i].1[t]);
                let j = choose|j: int| 0 <= j < li.len() && li[j] == x;
                assert(c[r.len() + j] == li[j]);
            }
        }
    }
}

/// The removals that marking a block canonical carries out are those of the
/// last record with the canonical id, or none when no record has it.
pub proof fn lemma_canon_deletes(rv: Seq<(Seq<u8>, Seq<Seq<u8>>, Seq<Seq<u8>>)>, canon: Seq<u8>)
    ensures
        (forall|i: int| 0 <= i < rv.len() ==> (#[trigger] rv[i]).0 != canon) ==> canon_deletes(rv, canon) == Seq::<
            Seq<u8>,
        >::empty(),
        forall|i: int|
            0 <= i < rv.len() && (#[trigger] rv[i]).0 == canon && (forall|l: int| i < l < rv.len() ==> (#[trigger] rv[l]).0
                != canon) ==> canon_deletes(rv, canon) == rv[i].2,
    decreases rv.len(),
{
    if rv.len() > 0 {
        let d = rv.drop_last();
        lemma_canon_deletes(d, canon);
        let n = rv.len() - 1;
        assert(rv[n] == rv.last());
        assert forall|i: int|
            0 <= i < rv.len() && (#[trigger] rv[i]).0 == canon && (forall|l: int| i < l < rv.len() ==> (#[trigger] rv[l]).0
                != canon) implies canon_deletes(rv, canon) == rv[i].2 by {
            if i < n {
                assert(rv[n].0 != canon);
                assert(d[i] == rv[i]);
                assert forall|l: int| i < l < d.len() implies (#[trigger] d[l]).0 != canon by {
                    assert(d[l] == rv[l]);
                }
            }
        }
        if forall|i: int| 0 <= i < rv.len() ==> (#[trigger] rv[i]).0 != canon {
            assert forall|i: int| 0 <= i < d.len() implies (#[trigger] d[i]).0 != canon by {
                assert(d[i] == rv[i]);
            }
        }
    }
}

/// The insertions of all the records, in order.
pub open spec fn all_inserts(rv: Seq<(Seq<u8>, Seq<Seq<u8>>, Seq<Seq<u8>>)>) -> Seq<Seq<u8>>
    decreases rv.len(),
{
    if rv.len() == 0 {
        Seq::empty()
    } else {
        all_inserts(rv.drop_last()) + rv.last().1
    }
}

/// The overlay and the journal size after each key of `hs` is removed once
/// and purged at count 1, the size shrinking by each purged value's length.
pub open spec fn purge_all(
    m: Map<Seq<u8>, (Seq<u8>, int)>,
    size: usize,
    hs: Seq<Seq<u8>>,
) -> (Map<Seq<u8>, (Seq<u8>, int)>, usize)
    decreases hs.len(),
{
    if hs.len() == 0 {
        (m, size)
    } else {
        let (m1, s1) = purge_all(m, size, hs.drop_last());
        let (m2, v) = spec_purge(m1, short_key(hs.last()));
        (m2, match v {
            Some(x) => s1.wrapping_sub(x.len() as usize),
            None => s1,
        })
    }
}

/// The pending values after the pairs `kvs` are put under their short keys.
pub open spec fn put_pending(p: Map<Seq<u8>, Seq<u8>>, kvs: Seq<(Seq<u8>, Seq<u8>)>) -> Map<Seq<u8>, Seq<u8>>
    decreases kvs.len(),
{
    if kvs.len() == 0 {
        p
    } else {
        put_pending(p, kvs.drop_last()).insert(short_key(kvs.last().0), kvs.last().1)
    }
}

/// Removals of the first `n` record keys of `era`.
pub open spec fn record_deletes(col: u32, era: u64, n: nat) -> Seq<(u32, Seq<u8>, Option<Seq<u8>>)> {
    Seq::new(n, |i: int| (col, record_key(era, i as nat), None::<Seq<u8>>))
}

/// Insertions of the pairs `kvs` under their full keys.
pub open spec fn pair_insert_ops(col: u32, kvs: Seq<(Seq<u8>, Seq<u8>)>) -> Seq<(u32, Seq<u8>, Option<Seq<u8>>)> {
    kvs.map_values(|p: (Seq<u8>, Seq<u8>)| (col, p.0, Some(p.1)))
}

/// Removals of the keys `ds` that are not live in the overlay `m`.
pub open spec fn canon_delete_ops(col: u32, ds: Seq<Seq<u8>>, m: Map<Seq<u8>, (Seq<u8>, int)>) -> Seq<
    (u32, Seq<u8>, Option<Seq<u8>>),
>
    decreases ds.len(),
{
    if ds.len() == 0 {
        Seq::empty()
    } else {
        let r = canon_delete_ops(col, ds.drop_last(), m);
        if spec_contains(m, short_key(ds.last())) {
            r
        } else {
            r.push((col, ds.last(), None))
        }
    }
}

/// A copy of a list of hashes.
fn copy_hashes(v: &Vec<HashBytes>) -> (r: Vec<HashBytes>)
    ensures
        r@ == v@,
{
    let mut r: Vec<HashBytes> = Vec::new();
    let mut i: usize = 0;
    while i < v.len()
        invariant
            i <= v@.len(),
            r@ == v@.subrange(0, i as int),
        decreases v@.len() - i,
    {
        r.push(v[i]);
        i = i + 1;
    }
    assert(r@ =~= v@);
    r
}

impl OverlayRecentDB {
    /// Marks the block `canon_id` of era `end_era` canonical and retires the
    /// era: its records are removed from the store and the journal; the
    /// canonical block's insertions still live in the history overlay are
    /// written to the store (and kept as pending until the next block); every
    /// record's insertions leave the history overlay; the canonical block's
    /// removals that no record keeps alive are removed from the store.
    /// Returns how many keys the store changes.
    pub fn mark_canonical(&mut self, batch: &mut DBTransaction, end_era: u64, canon_id: &HashBytes) -> (r: u32)
        requires
            !old(self).spec_journal().remove(end_era).is_empty() ==> end_era < u64::MAX,
        ensures
            ({
                let j0 = old(self).spec_journal();
                let col = old(self).spec_column();
                &&& final(self).spec_journal() == j0.remove(end_era)
                &&& final(self).spec_earliest_era() == if j0.remove(end_era).is_empty() {
                    old(self).spec_earliest_era()
                } else {
                    Some((end_era + 1) as u64)
                }
                &&& final(self).spec_latest_era() == old(self).spec_latest_era()
                &&& final(self).spec_transaction() == old(self).spec_transaction()
                &&& final(self).spec_transaction_entries() == old(self).spec_transaction_entries()
                &&& final(self).spec_column() == col
                &&& if j0.contains_key(end_era) {
                    let rv = j0[end_era];
                    let ci = canon_inserts(rv, canon_id@, old(self).spec_backing());
                    let cd = canon_deletes(rv, canon_id@);
                    let purged = purge_all(old(self).spec_backing(), old(self).spec_journal_size(), all_inserts(rv));
                    &&& final(batch).view() == old(batch).view() + record_deletes(col, end_era, rv.len())
                        + pair_insert_ops(col, ci) + canon_delete_ops(col, cd, purged.0)
                    &&& final(self).spec_backing() == purged.0
                    &&& final(self).spec_journal_size() == purged.1
                    &&& final(self).spec_pending() == put_pending(old(self).spec_pending(), ci)
                    &&& r == (ci.len() + cd.len()) as u32
                } else {
                    &&& final(batch).view() == old(batch).view()
                    &&& final(self).spec_backing() == old(self).spec_backing()
                    &&& final(self).spec_journal_size() == old(self).spec_journal_size()
                    &&& final(self).spec_pending() == old(self).spec_pending()
                    &&& r == 0
                }
            }),
    {
        let col = self.column;
        let ghost j0 = self.spec_journal();
        let ghost b0 = self.spec_backing();
        let ghost s0 = self.spec_journal_size();
        let ghost p0 = self.spec_pending();
        let ghost start = batch.view();
        let mut ops: u32 = 0;
        let removed = self.journal_overlay.journal.remove(&end_era);
        assert(self.spec_journal() =~= j0.remove(end_era));
        let ghost jr = self.journal_overlay.journal@;
        match removed {
            None => {},
            Some(records) => {
                let ghost rv = records_view(records@);
                assert(j0.contains_key(end_era) && j0[end_era] == rv);
                let mut canon_insertions: Vec<(HashBytes, Vec<u8>)> = Vec::new();
                let mut canon_deletions: Vec<HashBytes> = Vec::new();
                let mut overlay_deletions: Vec<HashBytes> = Vec::new();
                let mut index: usize = 0;
                while index < records.len()
                    invariant
                        index <= records@.len(),
                        rv == records_view(records@),
                        col == self.column,
                        self.journal_overlay.journal@ == jr,
                        self.journal_overlay.latest_era == old(self).journal_overlay.latest_era,
                        self.journal_overlay.earliest_era == old(self).journal_overlay.earliest_era,
                        self.transaction_overlay.entries() == old(self).transaction_overlay.entries(),
                        self.column == old(self).column,
                        b0 == self.spec_backing(),
                        batch.view() == start + record_deletes(col, end_era, index as nat),
                        pairs_view(canon_insertions@) == canon_inserts(rv.take(index as int), canon_id@, b0),
                        hashes_view(canon_deletions@) == canon_deletes(rv.take(index as int), canon_id@),
                        hashes_view(overlay_deletions@) == all_inserts(rv.take(index as int)),
                    decreases records@.len() - index,
                {
                    proof {
                        assert(rv.take(index + 1).drop_last() =~= rv.take(index as int));
                        assert(rv.take(index + 1).last() == entry_view(records@[index as int]));
                    }
                    let key = encode_record_key(end_era, index);
                    batch.delete(col, key.as_slice());
                    assert(batch.view() =~= start + record_deletes(col, end_era, (index + 1) as nat));
                    let rec = &records[index];
                    let ghost hs = hashes_view(rec.insertions@);
                    if same_bytes(canon_id.as_slice(), rec.id.as_slice()) {
                        let ghost ci0 = pairs_view(canon_insertions@);
                        let mut t: usize = 0;
                        while t < rec.insertions.len()
                            invariant
                                t <= rec.insertions@.len(),
                                hs == hashes_view(rec.insertions@),
                                b0 == self.spec_backing(),
                                pairs_view(canon_insertions@) == ci0 + live_inserts(hs.take(t as int), b0),
                                self.journal_overlay.journal@ == jr,
                                self.journal_overlay.latest_era == old(self).journal_overlay.latest_era,
                                self.journal_overlay.earliest_era == old(self).journal_overlay.earliest_era,
                                self.transaction_overlay.entries() == old(self).transaction_overlay.entries(),
                                self.column == old(self).column,
                            decreases rec.insertions@.len() - t,
                        {
                            proof {
                                assert(hs.take(t + 1).drop_last() =~= hs.take(t as int));
                                assert(hs.take(t + 1).last() == rec.insertions@[t as int]@);
                            }
                            let h = rec.insertions[t];
                            let sk = to_short_key(&h);
                            match self.journal_overlay.backing_overlay.raw(sk.as_slice()) {
                                Some((d, rc)) => {
                                    if rc > 0 {
                                        let ghost before = pairs_view(canon_insertions@);
                                        canon_insertions.push((h, d));
                                        assert(pairs_view(canon_insertions@) =~= before.push((h@, d@)));
                                    }
                                },
                                None => {},
                            }
                            proof {
                                assert(pairs_view(canon_insertions@) =~= ci0 + live_inserts(hs.take(t + 1), b0));
                            }
                            t = t + 1;
                        }
                        assert(hs.take(rec.insertions@.len() as int) =~= hs);
                        canon_deletions = copy_hashes(&rec.deletions);
                    }
                    let mut ins_copy = copy_hashes(&rec.insertions);
                    let ghost od = hashes_view(overlay_deletions@);
                    overlay_deletions.append(&mut ins_copy);
                    proof {
                        assert(hashes_view(overlay_deletions@) =~= od + hs);
                    }
                    index = index + 1;
                }
                assert(rv.take(records@.len() as int) =~= rv);
                let total: u128 = canon_insertions.len() as u128 + canon_deletions.len() as u128;
                let ghost ci = pairs_view(canon_insertions@);
                let ghost mid = batch.view();
                let mut k: usize = 0;
                while k < canon_insertions.len()
                    invariant
                        k <= canon_insertions@.len(),
                        ci == pairs_view(canon_insertions@),
                        col == self.column,
                        b0 == self.spec_backing(),
                        self.journal_overlay.journal@ == jr,
                        self.journal_overlay.latest_era == old(self).journal_overlay.latest_era,
                        self.journal_overlay.earliest_era == old(self).journal_overlay.earliest_era,
                        self.transaction_overlay.entries() == old(self).transaction_overlay.entries(),
                        self.column == old(self).column,
                        s0 == self.spec_journal_size(),
                        batch.view() == mid + pair_insert_ops(col, ci.take(k as int)),
                        self.spec_pending() == put_pending(p0, ci.take(k as int)),
                    decreases canon_insertions@.len() - k,
                {
                    proof {
                        assert(ci.take(k + 1).drop_last() =~= ci.take(k as int));
                        assert(ci.take(k + 1).last() == (canon_insertions@[k as int].0@, canon_insertions@[k as int].1@));
                    }
                    let (key, val) = (&canon_insertions[k].0, &canon_insertions[k].1);
                    batch.put(col, key.as_slice(), val.as_slice());
                    let sk = to_short_key(key);
                    let v2 = val.clone();
                    assert(v2@ =~= val@);
                    let ghost pb = self.journal_overlay.pending_overlay@;
                    self.journal_overlay.pending_overlay.push((sk, v2));
                    proof {
                        assert(pair_insert_ops(col, ci.take(k + 1)) =~= pair_insert_ops(col, ci.take(k as int)).push(
                            (col, key@, Some(val@)),
                        ));
                        assert(self.journal_overlay.pending_overlay@.drop_last() =~= pb);
                    }
                    k = k + 1;
                }
                assert(ci.take(canon_insertions@.len() as int) =~= ci);
                let ghost od = hashes_view(overlay_deletions@);
                let mut q: usize = 0;
                while q < overlay_deletions.len()
                    invariant
                        q <= overlay_deletions@.len(),
                        od == hashes_view(overlay_deletions@),
                        col == self.column,
                        self.journal_overlay.journal@ == jr,
                        self.journal_overlay.latest_era == old(self).journal_overlay.latest_era,
                        self.journal_overlay.earliest_era == old(self).journal_overlay.earliest_era,
                        self.transaction_overlay.entries() == old(self).transaction_overlay.entries(),
                        self.column == old(self).column,
                        (self.spec_backing(), self.spec_journal_size()) == purge_all(b0, s0, od.take(q as int)),
                        self.spec_pending() == put_pending(p0, ci),
                    decreases overlay_deletions@.len() - q,
                {
                    proof {
                        assert(od.take(q + 1).drop_last() =~= od.take(q as int));
                        assert(od.take(q + 1).last() == overlay_deletions@[q as int]@);
                    }
                    let sk = to_short_key(&overlay_deletions[q]);
                    match self.journal_overlay.backing_overlay.remove_and_purge(&sk) {
                        Some(val) => {
                            self.journal_overlay.cumulative_size = self.journal_overlay.cumulative_size.wrapping_sub(val.len());
                        },
                        None => {},
                    }
                    q = q + 1;
                }
                assert(od.take(overlay_deletions@.len() as int) =~= od);
                let ghost b2 = self.spec_backing();
                let ghost cd = hashes_view(canon_deletions@);
                let ghost mid2 = batch.view();
                let mut d: usize = 0;
                while d < canon_deletions.len()
                    invariant
                        d <= canon_deletions@.len(),
                        cd == hashes_view(canon_deletions@),
                        col == self.column,
                        self.journal_overlay.journal@ == jr,
                        self.journal_overlay.latest_era == old(self).journal_overlay.latest_era,
                        self.journal_overlay.earliest_era == old(self).journal_overlay.earliest_era,
                        self.transaction_overlay.entries() == old(self).transaction_overlay.entries(),
                        self.column == old(self).column,
                        b2 == self.spec_backing(),
                        batch.view() == mid2 + canon_delete_ops(col, cd.take(d as int), b2),
                    decreases canon_deletions@.len() - d,
                {
                    proof {
                        assert(cd.take(d + 1).drop_last() =~= cd.take(d as int));
                        assert(cd.take(d + 1).last() == canon_deletions@[d as int]@);
                    }
                    let key = canon_deletions[d];
                    let sk = to_short_key(&key);
                    if !self.journal_overlay.backing_overlay.contains(sk.as_slice()) {
                        batch.delete(col, key.as_slice());
                    }
                    proof {
                        assert(batch.view() =~= mid2 + canon_delete_ops(col, cd.take(d + 1), b2));
                    }
                    d = d + 1;
                }
                assert(cd.take(canon_deletions@.len() as int) =~= cd);
                ops = #[verifier::truncate] (total as u32);
            },
        }
        if !self.journal_overlay.journal.is_empty() {
            self.journal_overlay.earliest_era = Some(end_era + 1);
        }
        assert(self.spec_journal().dom() =~= self.journal_overlay.journal@.dom());
        ops
    }
}

/// The store key of the latest era (see `latest_era_key`).
pub fn latest_era_key_bytes() -> (r: Vec<u8>)
    ensures
        r@ == latest_era_key(),
{
    let k: [u8; 12] = [108, 97, 115, 116, 0, 0, 0, 0, 0, 0, 0, 0];
    let mut v: Vec<u8> = Vec::new();
    let mut i: usize = 0;
    while i < 12
        invariant
            i <= 12,
            k@ == latest_era_key(),
            v@ == k@.subrange(0, i as int),
        decreases 12 - i,
    {
        v.push(k[i]);
        i = i + 1;
    }
    assert(k@ =~= latest_era_key());
    assert(v@ =~= k@);
    v
}

/// Rebuilds the history overlay from the journal records in the store,
/// one read at a time: from the latest era down, the records of each era
/// in order, until an era without records or era 0.
pub struct OverlayReader {
    overlay: JournalOverlay,
    era: u64,
    index: usize,
    done: bool,
}

impl OverlayReader {
    /// The history rebuilt so far.
    pub closed spec fn spec_overlay(&self) -> JournalOverlay {
        self.overlay
    }

    /// The era being read.
    pub closed spec fn spec_era(&self) -> u64 {
        self.era
    }

    /// The number of records of the era read so far.
    pub closed spec fn spec_index(&self) -> usize {
        self.index
    }

    /// `true` once every record has been read.
    pub closed spec fn spec_done(&self) -> bool {
        self.done
    }

    /// A reader that has read nothing.
    pub fn new() -> (r: Self)
        ensures
            r.spec_overlay().spec_backing() == Map::<Seq<u8>, (Seq<u8>, int)>::empty(),
            r.spec_overlay().spec_pending() == Map::<Seq<u8>, Seq<u8>>::empty(),
            r.spec_overlay().spec_journal() == Map::<u64, Seq<(Seq<u8>, Seq<Seq<u8>>, Seq<Seq<u8>>)>>::empty(),
            r.spec_overlay().spec_latest_era() is None,
            r.spec_overlay().spec_earliest_era() is None,
            r.spec_overlay().spec_journal_size() == 0,
            !r.spec_done(),
    {
        OverlayReader { overlay: JournalOverlay::new(), era: 0, index: 0, done: false }
    }

    /// Takes what is stored under the latest era key and gives the key to
    /// read next: the first record of the latest era, or nothing when the
    /// store holds no journal (the reader is then done).
    pub fn start(&mut self, latest: Option<Vec<u8>>) -> (r: Option<Vec<u8>>)
        requires
            latest matches Some(v) ==> exists|n: u64| v@ == rlp_number(n as nat),
        ensures
            final(self).spec_overlay().spec_backing() == old(self).spec_overlay().spec_backing(),
            final(self).spec_overlay().spec_journal() == old(self).spec_overlay().spec_journal(),
            final(self).spec_overlay().spec_earliest_era() == old(self).spec_overlay().spec_earliest_era(),
            final(self).spec_overlay().spec_journal_size() == old(self).spec_overlay().spec_journal_size(),
            final(self).spec_overlay().spec_pending() == old(self).spec_overlay().spec_pending(),
            match latest {
                None => r is None && final(self).spec_done() && final(self).spec_overlay().spec_latest_era()
                    == old(self).spec_overlay().spec_latest_era(),
                Some(v) => {
                    &&& v@ == rlp_number(final(self).spec_era() as nat)
                    &&& final(self).spec_overlay().spec_latest_era() == Some(final(self).spec_era())
                    &&& final(self).spec_index() == 0
                    &&& !final(self).spec_done()
                    &&& r matches Some(k) && k@ == record_key(final(self).spec_era(), 0)
                },
            },
    {
        match latest {
            None => {
                self.done = true;
                None
            },
            Some(v) => {
                let era = match crate::rlp_decode::decode_u64(v.as_slice()) {
                    Some(e) => e,
                    None => {
                        self.done = true;
                        return None;
                    },
                };
                self.era = era;
                self.index = 0;
                self.done = false;
                self.overlay.latest_era = Some(era);
                Some(encode_record_key(era, 0))
            },
        }
    }

    /// Takes what is stored under the key asked for last and gives the key
    /// to read next. A record joins the history (its insertions the overlay,
    /// the record the journal of its era) and the next record of the era is
    /// asked for; a missing record ends the era, and the reading when it was
    /// the era's first or era 0, else the previous era is read.
    pub fn step(&mut self, record: Option<Vec<u8>>) -> (r: Option<Vec<u8>>)
        requires
            !old(self).spec_done(),
            record is Some ==> old(self).spec_index() < usize::MAX,
            record matches Some(d) ==> exists|id: Seq<u8>, ins: Seq<(Seq<u8>, Seq<u8>)>, dels: Seq<Seq<u8>>|
                crate::rlp_decode::is_record(d@, id, ins, dels),
        ensures
            final(self).spec_overlay().spec_latest_era() == old(self).spec_overlay().spec_latest_era(),
            final(self).spec_overlay().spec_pending() == old(self).spec_overlay().spec_pending(),
            match record {
                None => {
                    &&& final(self).spec_overlay().spec_backing() == old(self).spec_overlay().spec_backing()
                    &&& final(self).spec_overlay().spec_journal() == old(self).spec_overlay().spec_journal()
                    &&& final(self).spec_overlay().spec_earliest_era() == old(self).spec_overlay().spec_earliest_era()
                    &&& final(self).spec_overlay().spec_journal_size() == old(self).spec_overlay().spec_journal_size()
                    &&& if old(self).spec_index() == 0 || old(self).spec_era() == 0 {
                        r is None && final(self).spec_done()
                    } else {
                        &&& final(self).spec_era() == old(self).spec_era() - 1
                        &&& final(self).spec_index() == 0
                        &&& !final(self).spec_done()
                        &&& r matches Some(k) && k@ == record_key(final(self).spec_era(), 0)
                    }
                },
                Some(d) => exists|id: Seq<u8>, ins: Seq<(Seq<u8>, Seq<u8>)>, dels: Seq<Seq<u8>>|
                    #![trigger record_value(id, ins, dels)]
                {
                    let era = old(self).spec_era();
                    let absorbed = absorb(old(self).spec_overlay().spec_backing(), old(self).spec_overlay().spec_journal_size(), ins);
                    &&& d@ == record_value(id, ins, dels)
                    &&& final(self).spec_overlay().spec_backing() == absorbed.0
                    &&& final(self).spec_overlay().spec_journal_size() == absorbed.1
                    &&& final(self).spec_overlay().spec_journal() == old(self).spec_overlay().spec_journal().insert(
                        era,
                        era_records(old(self).spec_overlay().spec_journal(), era).push((id, pair_keys(ins), dels)),
                    )
                    &&& final(self).spec_overlay().spec_earliest_era() == Some(era)
                    &&& final(self).spec_era() == era
                    &&& final(self).spec_index() == old(self).spec_index() + 1
                    &&& !final(self).spec_done()
                    &&& r matches Some(k) && k@ == record_key(era, final(self).spec_index() as nat)
                },
            },
    {
        match record {
            None => {
                if self.index == 0 || self.era == 0 {
                    self.done = true;
                    None
                } else {
                    self.era = self.era - 1;
                    self.index = 0;
                    Some(encode_record_key(self.era, 0))
                }
            },
            Some(d) => {
                let (id, ins, dels) = match crate::rlp_decode::decode_record(d.as_slice()) {
                    Some(t) => t,
                    None => {
                        self.done = true;
                        return None;
                    },
                };
                let ghost b0 = self.overlay.spec_backing();
                let ghost s0 = self.overlay.spec_journal_size();
                let mut keys: Vec<HashBytes> = Vec::new();
                let mut j: usize = 0;
                while j < ins.len()
                    invariant
                        j <= ins@.len(),
                        (self.overlay.spec_backing(), self.overlay.spec_journal_size()) == absorb(b0, s0, pairs_view(ins@).take(j as int)),
                        hashes_view(keys@) == pair_keys(pairs_view(ins@).take(j as int)),
                        self.overlay.journal@ == old(self).overlay.journal@,
                        self.overlay.latest_era == old(self).overlay.latest_era,
                        self.overlay.earliest_era == old(self).overlay.earliest_era,
                        self.overlay.pending_overlay@ == old(self).overlay.pending_overlay@,
                        self.era == old(self).era,
                        self.index == old(self).index,
                        self.done == old(self).done,
                    decreases ins@.len() - j,
                {
                    proof {
                        let t = pairs_view(ins@).take(j + 1);
                        assert(t.drop_last() =~= pairs_view(ins@).take(j as int));
                        assert(t.last() == (ins@[j as int].0@, ins@[j as int].1@));
                    }
                    let sk = to_short_key(&ins[j].0);
                    let v = ins[j].1.clone();
                    assert(v@ =~= ins@[j as int].1@);
                    if !self.overlay.backing_overlay.contains(sk.as_slice()) {
                        self.overlay.cumulative_size = self.overlay.cumulative_size.wrapping_add(v.len());
                    }
                    self.overlay.backing_overlay.emplace(sk, v);
                    let ghost kb = hashes_view(keys@);
                    keys.push(ins[j].0);
                    proof {
                        assert(hashes_view(keys@) =~= kb.push(ins@[j as int].0@));
                        assert(pair_keys(pairs_view(ins@).take(j + 1)) =~= pair_keys(pairs_view(ins@).take(j as int)).push(
                            ins@[j as int].0@,
                        ));
                    }
                    j = j + 1;
                }
                assert(pairs_view(ins@).take(ins@.len() as int) =~= pairs_view(ins@));
                let era = self.era;
                let mut recs: Vec<JournalEntry> = match self.overlay.journal.remove(&era) {
                    Some(v) => v,
                    None => Vec::new(),
                };
                let ghost old_recs = era_records(old(self).overlay.spec_journal(), era);
                assert(records_view(recs@) =~= old_recs);
                let entry = JournalEntry { id, insertions: keys, deletions: dels };
                let ghost ev = entry_view(entry);
                recs.push(entry);
                assert(records_view(recs@) =~= old_recs.push(ev));
                self.overlay.journal.insert(era, recs);
                assert(self.overlay.spec_journal() =~= old(self).overlay.spec_journal().insert(era, old_recs.push(ev)));
                self.overlay.earliest_era = Some(era);
                self.index = self.index + 1;
                let ghost wid = id@;
                let ghost wins = pairs_view(ins@);
                let ghost wdels = hashes_view(dels@);
                assert(d@ == record_value(wid, wins, wdels));
                Some(encode_record_key(era, self.index))
            },
        }
    }

    /// The history rebuilt.
    pub fn finish(self) -> (r: JournalOverlay)
        ensures
            r == self.spec_overlay(),
    {
        self.overlay
    }
}

impl OverlayRecentDB {
    /// Forgets the values that were being moved to the store, once the
    /// store has them.
    pub fn flush(&mut self)
        ensures
            final(self).spec_pending() == Map::<Seq<u8>, Seq<u8>>::empty(),
            final(self).spec_transaction() == old(self).spec_transaction(),
            final(self).spec_backing() == old(self).spec_backing(),
            final(self).spec_journal() == old(self).spec_journal(),
            final(self).spec_latest_era() == old(self).spec_latest_era(),
            final(self).spec_earliest_era() == old(self).spec_earliest_era(),
            final(self).spec_journal_size() == old(self).spec_journal_size(),
            final(self).spec_column() == old(self).spec_column(),
    {
        self.journal_overlay.pending_overlay = Vec::new();
        assert(self.spec_pending() =~= Map::<Seq<u8>, Seq<u8>>::empty());
    }
}

/// How many epochs a block stays in the journal before it is marked
/// canonical.
pub const JOURNAL_EPOCH: usize = 25;

/// The bytes of `n`, least significant first, as many as a `usize` has.
pub open spec fn usize_le(n: usize) -> Seq<u8> {
    crate::serde::le_bytes(n as nat, crate::serde::usize_bytes())
}

/// The id of the block of an epoch: the hash of the epoch's little-endian
/// bytes.
pub fn epoch_hash(epoch: usize) -> (r: HashBytes)
    ensures
        r@ == crate::hasher::keccak256(usize_le(epoch)),
{
    proof {
        crate::serde::lemma_usize_bytes();
    }
    let k: usize = if usize::BITS == 64 {
        8
    } else {
        4
    };
    let mut b: Vec<u8> = Vec::new();
    crate::serde::write_le(&mut b, epoch as u64, k);
    assert(b@ =~= usize_le(epoch));
    crate::hasher::keccak(b.as_slice())
}

/// The part of a journaling database that journaling and canonical marking
/// change: the history overlay, the pending values, the journal, the latest
/// and earliest eras, and the journal size.
pub type JournalState = (
    Map<Seq<u8>, (Seq<u8>, int)>,
    Map<Seq<u8>, Seq<u8>>,
    Map<u64, Seq<(Seq<u8>, Seq<Seq<u8>>, Seq<Seq<u8>>)>>,
    Option<u64>,
    Option<u64>,
    usize,
);

impl OverlayRecentDB {
    /// The database's journaling state.
    pub open spec fn spec_state(&self) -> JournalState {
        (
            self.spec_backing(),
            self.spec_pending(),
            self.spec_journal(),
            self.spec_latest_era(),
            self.spec_earliest_era(),
            self.spec_journal_size(),
        )
    }
}

/// The state after `journal_under` journals the uncommitted entries `es` as
/// a block with `id` in era `now`, and the writes it makes (see
/// `journal_under`).
pub open spec fn journal_effect(
    s: JournalState,
    es: Seq<(HashBytes, Vec<u8>, i32)>,
    col: u32,
    now: u64,
    id: Seq<u8>,
) -> (JournalState, Seq<(u32, Seq<u8>, Option<Seq<u8>>)>) {
    let ins = tx_insertions(es);
    let rem = tx_removals(es);
    let recs = era_records(s.2, now);
    let absorbed = absorb(s.0, s.5, ins);
    (
        (
            absorbed.0,
            Map::empty(),
            s.2.insert(now, recs.push((id, pair_keys(ins), rem))),
            if is_new_latest(s.3, now) {
                Some(now)
            } else {
                s.3
            },
            match s.4 {
                Some(e) if e <= now => Some(e),
                _ => Some(now),
            },
            absorbed.1,
        ),
        journal_ops(col, now, recs.len(), id, es, s.3),
    )
}

/// The state after `mark_canonical` marks the block `id` of era `era`
/// canonical, and the writes it makes (see `mark_canonical`).
pub open spec fn mark_effect(s: JournalState, col: u32, era: u64, id: Seq<u8>) -> (
    JournalState,
    Seq<(u32, Seq<u8>, Option<Seq<u8>>)>,
) {
    let j0 = s.2;
    let journal = j0.remove(era);
    let earliest = if journal.is_empty() {
        s.4
    } else {
        Some((era + 1) as u64)
    };
    if j0.contains_key(era) {
        let rv = j0[era];
        let ci = canon_inserts(rv, id, s.0);
        let cd = canon_deletes(rv, id);
        let purged = purge_all(s.0, s.5, all_inserts(rv));
        (
            (purged.0, put_pending(s.1, ci), journal, s.3, earliest, purged.1),
            record_deletes(col, era, rv.len()) + pair_insert_ops(col, ci) + canon_delete_ops(col, cd, purged.0),
        )
    } else {
        ((s.0, s.1, journal, s.3, earliest, s.5), Seq::empty())
    }
}

/// The id of epoch `e`: the hash of its number (see `epoch_hash`).
pub open spec fn epoch_id(e: usize) -> Seq<u8> {
    crate::hasher::keccak256(usize_le(e))
}

/// The state and writes after the epochs `first`, `first + 1`, ... (`count`
/// of them) are marked canonical in turn, each under its epoch id.
pub open spec fn marks_from(s: JournalState, col: u32, first: nat, count: nat) -> (
    JournalState,
    Seq<(u32, Seq<u8>, Option<Seq<u8>>)>,
)
    decreases count,
{
    if count == 0 {
        (s, Seq::empty())
    } else {
        let (s1, o1) = marks_from(s, col, first, (count - 1) as nat);
        let e = first + count - 1;
        let (s2, o2) = mark_effect(s1, col, e as u64, epoch_id(e as usize));
        (s2, o1 + o2)
    }
}

/// The eras that the journal holds after the epochs `0..n` were committed
/// one by one: the last `JOURNAL_EPOCH` of them.
pub open spec fn window(n: nat) -> Set<u64> {
    Set::new(|e: u64| e < n && e + JOURNAL_EPOCH >= n)
}

/// Committing epochs in turn keeps the journal to a window of the last
/// `JOURNAL_EPOCH` epochs: if it held the window of the epochs before
/// `index`, committing `index` leaves it holding the window up to `index`.
pub proof fn lemma_commit_keeps_window(
    s: JournalState,
    es: Seq<(HashBytes, Vec<u8>, i32)>,
    col: u32,
    index: usize,
)
    requires
        s.2.dom() == window(index as nat),
    ensures
        ({
            let (s1, o1) = journal_effect(s, es, col, index as u64, epoch_id(index));
            let after = if index >= JOURNAL_EPOCH {
                let old_index = (index - JOURNAL_EPOCH) as usize;
                mark_effect(s1, col, old_index as u64, epoch_id(old_index)).0
            } else {
                s1
            };
            after.2.dom() == window(index as nat + 1)
        }),
{
    let (s1, o1) = journal_effect(s, es, col, index as u64, epoch_id(index));
    assert(s1.2.dom() =~= window(index as nat).insert(index as u64));
    if index >= JOURNAL_EPOCH {
        let old_index = (index - JOURNAL_EPOCH) as usize;
        let s2 = mark_effect(s1, col, old_index as u64, epoch_id(old_index)).0;
        assert(s2.2.dom() =~= window(index as nat + 1));
    } else {
        assert(s1.2.dom() =~= window(index as nat + 1));
    }
}

/// Marking `count` epochs from `first` canonical removes exactly those eras
/// from the journal.
pub proof fn lemma_marks_remove_eras(s: JournalState, col: u32, first: nat, count: nat)
    requires
        first + count <= u64::MAX + 1,
    ensures
        forall|e: u64| #[trigger] marks_from(s, col, first, count).0.2.contains_key(e) <==> (s.2.contains_key(e)
            && !(first <= e < first + count)),
    decreases count,
{
    if count > 0 {
        lemma_marks_remove_eras(s, col, first, (count - 1) as nat);
        let prev = marks_from(s, col, first, (count - 1) as nat);
        let e = first + count - 1;
        let m = mark_effect(prev.0, col, e as u64, epoch_id(e as usize));
        assert(marks_from(s, col, first, count).0 == m.0);
        assert(m.0.2 == prev.0.2.remove(e as u64));
        assert((e as u64) as int == e);
    }
}

/// Flushing at the last committed epoch retires the whole window: after the
/// epochs `0..n` were committed (`n` at least `JOURNAL_EPOCH`), marking the
/// last `JOURNAL_EPOCH` of them canonical empties the journal.
pub proof fn lemma_flush_empties_window(s: JournalState, col: u32, n: nat)
    requires
        s.2.dom() == window(n),
        JOURNAL_EPOCH <= n <= u64::MAX,
    ensures
        marks_from(s, col, (n - JOURNAL_EPOCH) as nat, JOURNAL_EPOCH as nat).0.2.dom() == Set::<u64>::empty(),
{
    lemma_marks_remove_eras(s, col, (n - JOURNAL_EPOCH) as nat, JOURNAL_EPOCH as nat);
    assert(marks_from(s, col, (n - JOURNAL_EPOCH) as nat, JOURNAL_EPOCH as nat).0.2.dom() =~= Set::<u64>::empty());
}

/// The key under which a trie's root is stored at the end of a run: 256
/// zero bytes.
pub open spec fn final_root_key() -> Seq<u8> {
    Seq::new(256, |i: int| 0u8)
}

/// Commits epoch `index` of a trie's journal: the epoch's changes are
/// journaled under its id, and the epoch `JOURNAL_EPOCH` before it, if any,
/// is marked canonical. Returns the writes for the store.
pub fn commit_epoch(db: &mut OverlayRecentDB, index: usize) -> (r: DBTransaction)
    ensures
        final(db).spec_transaction() == Map::<Seq<u8>, (Seq<u8>, int)>::empty(),
        final(db).spec_transaction_entries().len() == 0,
        final(db).spec_column() == old(db).spec_column(),
        ({
            let col = old(db).spec_column();
            let (s1, o1) = journal_effect(
                old(db).spec_state(),
                old(db).spec_transaction_entries(),
                col,
                index as u64,
                epoch_id(index),
            );
            if index >= JOURNAL_EPOCH {
                let old_index = (index - JOURNAL_EPOCH) as usize;
                let (s2, o2) = mark_effect(s1, col, old_index as u64, epoch_id(old_index));
                final(db).spec_state() == s2 && r.view() == o1 + o2
            } else {
                final(db).spec_state() == s1 && r.view() == o1
            }
        }),
{
    let mut batch = DBTransaction::new();
    let id = epoch_hash(index);
    let ghost s0 = db.spec_state();
    let ghost es = db.spec_transaction_entries();
    let ghost col = db.spec_column();
    db.journal_under(&mut batch, index as u64, &id);
    assert(batch.view() =~= journal_effect(s0, es, col, index as u64, epoch_id(index)).1);
    if index >= JOURNAL_EPOCH {
        let old_index = index - JOURNAL_EPOCH;
        let canon = epoch_hash(old_index);
        db.mark_canonical(&mut batch, old_index as u64, &canon);
    }
    batch
}

/// Marks canonical the last `JOURNAL_EPOCH` epochs up to `epoch`, oldest
/// first, and stores `root` under the key of 256 zero bytes. Returns the
/// writes for the store.
pub fn flush_epochs(db: &mut OverlayRecentDB, epoch: usize, root: &HashBytes) -> (r: DBTransaction)
    requires
        JOURNAL_EPOCH - 1 <= epoch < usize::MAX,
    ensures
        final(db).spec_column() == old(db).spec_column(),
        final(db).spec_transaction() == old(db).spec_transaction(),
        ({
            let (s, ops) = marks_from(
                old(db).spec_state(),
                old(db).spec_column(),
                (epoch - (JOURNAL_EPOCH - 1)) as nat,
                JOURNAL_EPOCH as nat,
            );
            &&& final(db).spec_state() == s
            &&& r.view() == ops.push((0u32, final_root_key(), Some(root@)))
        }),
        forall|i: int| 0 <= i < JOURNAL_EPOCH ==> !#[trigger] final(db).spec_journal().contains_key((epoch - i) as u64),
{
    let mut batch = DBTransaction::new();
    let ghost s0 = db.spec_state();
    let ghost col = db.spec_column();
    let ghost first: nat = (epoch - (JOURNAL_EPOCH - 1)) as nat;
    let mut i: usize = JOURNAL_EPOCH;
    assert(batch.view() =~= marks_from(s0, col, first, 0).1);
    while i > 0
        invariant
            i <= JOURNAL_EPOCH,
            JOURNAL_EPOCH - 1 <= epoch < usize::MAX,
            first == epoch - (JOURNAL_EPOCH - 1),
            db.spec_column() == col,
            db.spec_transaction() == old(db).spec_transaction(),
            s0 == old(db).spec_state(),
            col == old(db).spec_column(),
            db.spec_state() == marks_from(s0, col, first, (JOURNAL_EPOCH - i) as nat).0,
            batch.view() == marks_from(s0, col, first, (JOURNAL_EPOCH - i) as nat).1,
            forall|j: int| i <= j < JOURNAL_EPOCH ==> !#[trigger] db.spec_journal().contains_key((epoch - j) as u64),
        decreases i,
    {
        i = i - 1;
        let index = epoch - i;
        let canon = epoch_hash(index);
        db.mark_canonical(&mut batch, index as u64, &canon);
        proof {
            let n = (JOURNAL_EPOCH - i) as nat;
            assert(first + n - 1 == index);
            let prev = marks_from(s0, col, first, (n - 1) as nat);
            assert(batch.view() =~= prev.1 + mark_effect(prev.0, col, index as u64, epoch_id(index)).1);
        }
    }
    let mut key: Vec<u8> = Vec::new();
    let mut k: usize = 0;
    while k < 256
        invariant
            k <= 256,
            key@ == Seq::new(k as nat, |j: int| 0u8),
        decreases 256 - k,
    {
        key.push(0u8);
        assert(key@ =~= Seq::new((k + 1) as nat, |j: int| 0u8));
        k = k + 1;
    }
    batch.put(0, key.as_slice(), root.as_slice());
    batch
}

impl JournalOverlay {
    /// `true` when both histories hold the same overlay values and counts.
    pub fn same_backing(&self, other: &JournalOverlay) -> (r: bool)
        ensures
            r == (self.spec_backing() == other.spec_backing()),
    {
        self.backing_overlay.same_contents(&other.backing_overlay)
    }

    /// `true` when no values are being moved to the store.
    pub fn pending_is_empty(&self) -> (r: bool)
        ensures
            r == (self.spec_pending() == Map::<Seq<u8>, Seq<u8>>::empty()),
    {
        let r = self.pending_overlay.len() == 0;
        proof {
            if r {
                assert(self.spec_pending() =~= Map::<Seq<u8>, Seq<u8>>::empty());
            } else {
                let kvs = self.pending_overlay@;
                assert(pairs_map(kvs).dom().contains(kvs.last().0@));
            }
        }
        r
    }

    /// The number of records of `era`.
    pub fn era_len(&self, era: u64) -> (r: usize)
        ensures
            r == era_records(self.spec_journal(), era).len(),
    {
        match self.journal.get(&era) {
            Some(v) => v.len(),
            None => 0,
        }
    }

    /// The `i`-th record of `era`: its id, insertions and removals.
    pub fn era_entry(&self, era: u64, i: usize) -> (r: (HashBytes, Vec<HashBytes>, Vec<HashBytes>))
        requires
            i < era_records(self.spec_journal(), era).len(),
        ensures
            (r.0@, hashes_view(r.1@), hashes_view(r.2@)) == era_records(self.spec_journal(), era)[i as int],
    {
        match self.journal.get(&era) {
            Some(v) => {
                let e = &v[i];
                assert(records_view(v@)[i as int] == entry_view(v@[i as int]));
                (e.id, copy_hashes(&e.insertions), copy_hashes(&e.deletions))
            },
            None => {
                assert(false);
                ([0u8; 32], Vec::new(), Vec::new())
            },
        }
    }

    /// The latest era journaled.
    pub fn latest_era(&self) -> (r: Option<u64>)
        ensures
            r == self.spec_latest_era(),
    {
        self.latest_era
    }

    /// The total size of the values in the history overlay.
    pub fn journal_size(&self) -> (r: usize)
        ensures
            r == self.spec_journal_size(),
    {
        self.cumulative_size
    }
}

impl OverlayRecentDB {
    /// The history.
    pub fn history(&self) -> (r: &JournalOverlay)
        ensures
            r.spec_backing() == self.spec_backing(),
            r.spec_pending() == self.spec_pending(),
            r.spec_journal() == self.spec_journal(),
            r.spec_latest_era() == self.spec_latest_era(),
            r.spec_earliest_era() == self.spec_earliest_era(),
            r.spec_journal_size() == self.spec_journal_size(),
    {
        &self.journal_overlay
    }
}

} // verus!
