//! A reference-counted overlay of hashed values: each key holds a value and a
//! count of insertions less removals, which may fall below zero when a key is
//! removed before it is inserted.

use crate::hasher::{keccak, keccak256};
use crate::serde::HashBytes;
use crate::trie_store::same_bytes;
use vstd::prelude::*;

verus! {

broadcast use vstd::std_specs::vec::group_vec_axioms;

/// An entry as plain values: the key, the value, and the count.
pub open spec fn entry_view(e: (HashBytes, Vec<u8>, i32)) -> (Seq<u8>, (Seq<u8>, int)) {
    (e.0@, (e.1@, e.2 as int))
}

/// The map that a list of entries with distinct keys stands for.
pub open spec fn entries_map(s: Seq<(HashBytes, Vec<u8>, i32)>) -> Map<Seq<u8>, (Seq<u8>, int)>
    decreases s.len(),
{
    if s.len() == 0 {
        Map::empty()
    } else {
        entries_map(s.drop_last()).insert(s.last().0@, (s.last().1@, s.last().2 as int))
    }
}

/// No two entries have the same key.
pub open spec fn distinct_keys(s: Seq<(HashBytes, Vec<u8>, i32)>) -> bool {
    forall|i: int, j: int| 0 <= i < s.len() && 0 <= j < s.len() && i != j ==> s[i].0@ != s[j].0@
}

/// A key is in the map exactly when an entry has it.
pub proof fn lemma_entries_dom(s: Seq<(HashBytes, Vec<u8>, i32)>, k: Seq<u8>)
    ensures
        entries_map(s).contains_key(k) <==> exists|i: int| 0 <= i < s.len() && s[i].0@ == k,
    decreases s.len(),
{
    if s.len() > 0 {
        let d = s.drop_last();
        lemma_entries_dom(d, k);
        if exists|i: int| 0 <= i < d.len() && d[i].0@ == k {
            let i = choose|i: int| 0 <= i < d.len() && d[i].0@ == k;
            assert(s[i].0@ == k);
        }
        if exists|i: int| 0 <= i < s.len() && s[i].0@ == k {
            let i = choose|i: int| 0 <= i < s.len() && s[i].0@ == k;
            if i < s.len() - 1 {
                assert(d[i].0@ == k);
            }
        }
    }
}

/// With distinct keys, the map gives each entry's value and count.
pub proof fn lemma_entries_at(s: Seq<(HashBytes, Vec<u8>, i32)>, i: int)
    requires
        distinct_keys(s),
        0 <= i < s.len(),
    ensures
        entries_map(s).contains_key(s[i].0@),
        entries_map(s)[s[i].0@] == (s[i].1@, s[i].2 as int),
    decreases s.len(),
{
    if i < s.len() - 1 {
        let d = s.drop_last();
        assert(distinct_keys(d)) by {
            assert forall|a: int, b: int| 0 <= a < d.len() && 0 <= b < d.len() && a != b implies d[a].0@ != d[b].0@ by {
                assert(d[a] == s[a] && d[b] == s[b]);
            }
        }
        lemma_entries_at(d, i);
        assert(s[i].0@ != s.last().0@);
    }
}

/// Changing an entry's value and count changes them in the map.
pub proof fn lemma_entries_update(s: Seq<(HashBytes, Vec<u8>, i32)>, i: int, e: (HashBytes, Vec<u8>, i32))
    requires
        distinct_keys(s),
        0 <= i < s.len(),
        e.0@ == s[i].0@,
    ensures
        distinct_keys(s.update(i, e)),
        entries_map(s.update(i, e)) == entries_map(s).insert(e.0@, (e.1@, e.2 as int)),
    decreases s.len(),
{
    let t = s.update(i, e);
    assert(distinct_keys(t)) by {
        assert forall|a: int, b: int| 0 <= a < t.len() && 0 <= b < t.len() && a != b implies t[a].0@ != t[b].0@ by {
            assert(t[a].0@ == s[a].0@ && t[b].0@ == s[b].0@);
        }
    }
    if i == s.len() - 1 {
        assert(t.drop_last() =~= s.drop_last());
        assert(!entries_map(s.drop_last()).contains_key(e.0@)) by {
            lemma_entries_dom(s.drop_last(), e.0@);
            if exists|j: int| 0 <= j < s.drop_last().len() && s.drop_last()[j].0@ == e.0@ {
                let j = choose|j: int| 0 <= j < s.drop_last().len() && s.drop_last()[j].0@ == e.0@;
                assert(s[j].0@ == s[i].0@);
            }
        }
        assert(entries_map(t) =~= entries_map(s).insert(e.0@, (e.1@, e.2 as int)));
    } else {
        let d = s.drop_last();
        assert(distinct_keys(d)) by {
            assert forall|a: int, b: int| 0 <= a < d.len() && 0 <= b < d.len() && a != b implies d[a].0@ != d[b].0@ by {
                assert(d[a] == s[a] && d[b] == s[b]);
            }
        }
        lemma_entries_update(d, i, e);
        assert(t.drop_last() =~= d.update(i, e));
        assert(s.last().0@ != e.0@);
        assert(entries_map(t) =~= entries_map(s).insert(e.0@, (e.1@, e.2 as int)));
    }
}

/// Removing an entry removes its key from the map.
pub proof fn lemma_entries_remove(s: Seq<(HashBytes, Vec<u8>, i32)>, i: int)
    requires
        distinct_keys(s),
        0 <= i < s.len(),
    ensures
        distinct_keys(s.remove(i)),
        entries_map(s.remove(i)) == entries_map(s).remove(s[i].0@),
    decreases s.len(),
{
    let t = s.remove(i);
    let k = s[i].0@;
    assert(distinct_keys(t)) by {
        assert forall|a: int, b: int| 0 <= a < t.len() && 0 <= b < t.len() && a != b implies t[a].0@ != t[b].0@ by {
            let sa = if a < i { a } else { a + 1 };
            let sb = if b < i { b } else { b + 1 };
            assert(t[a] == s[sa] && t[b] == s[sb]);
        }
    }
    let d = s.drop_last();
    assert(distinct_keys(d)) by {
        assert forall|a: int, b: int| 0 <= a < d.len() && 0 <= b < d.len() && a != b implies d[a].0@ != d[b].0@ by {
            assert(d[a] == s[a] && d[b] == s[b]);
        }
    }
    if i == s.len() - 1 {
        assert(t =~= d);
        assert(!entries_map(d).contains_key(k)) by {
            lemma_entries_dom(d, k);
            if exists|j: int| 0 <= j < d.len() && d[j].0@ == k {
                let j = choose|j: int| 0 <= j < d.len() && d[j].0@ == k;
                assert(s[j].0@ == s[i].0@);
            }
        }
        assert(entries_map(t) =~= entries_map(s).remove(k));
    } else {
        lemma_entries_remove(d, i);
        assert(t.drop_last() =~= d.remove(i));
        assert(t.last() == s.last());
        assert(s.last().0@ != k);
        assert(entries_map(t) =~= entries_map(s).remove(k));
    }
}

/// The value and count of `k` in the overlay `m`: the null node's data with
/// count 1 for the null node.
pub open spec fn spec_raw(m: Map<Seq<u8>, (Seq<u8>, int)>, k: Seq<u8>) -> Option<(Seq<u8>, int)> {
    if k == hashed_null_node() {
        Some((null_node_data(), 1))
    } else if m.contains_key(k) {
        Some(m[k])
    } else {
        None
    }
}

/// `true` when `k` has a positive count in `m` (always for the null node).
pub open spec fn spec_contains(m: Map<Seq<u8>, (Seq<u8>, int)>, k: Seq<u8>) -> bool {
    spec_raw(m, k) matches Some(p) && p.1 > 0
}

/// The value of `k` in `m` when its count is positive.
pub open spec fn spec_get(m: Map<Seq<u8>, (Seq<u8>, int)>, k: Seq<u8>) -> Option<Seq<u8>> {
    match spec_raw(m, k) {
        Some(p) => if p.1 > 0 {
            Some(p.0)
        } else {
            None
        },
        None => None,
    }
}

/// `m` after inserting `v` under `k` once more.
pub open spec fn spec_emplace(m: Map<Seq<u8>, (Seq<u8>, int)>, k: Seq<u8>, v: Seq<u8>) -> Map<Seq<u8>, (Seq<u8>, int)> {
    if v == null_node_data() {
        m
    } else if m.contains_key(k) {
        let (old_v, c) = m[k];
        m.insert(k, (if c <= 0 {
            v
        } else {
            old_v
        }, (c as i32).wrapping_add(1) as int))
    } else {
        m.insert(k, (v, 1))
    }
}

/// `m` after removing `k` once.
pub open spec fn spec_remove(m: Map<Seq<u8>, (Seq<u8>, int)>, k: Seq<u8>) -> Map<Seq<u8>, (Seq<u8>, int)> {
    if k == hashed_null_node() {
        m
    } else if m.contains_key(k) {
        let (v, c) = m[k];
        m.insert(k, (v, (c as i32).wrapping_sub(1) as int))
    } else {
        m.insert(k, (Seq::empty(), -1))
    }
}

/// A key is visible to `get` exactly while it is contained, that is while
/// its count is positive; and a value inserted once under a key the overlay
/// did not know is visible, but no longer once it has been removed again.
pub proof fn lemma_get_while_counted(m: Map<Seq<u8>, (Seq<u8>, int)>, k: Seq<u8>, v: Seq<u8>)
    ensures
        spec_get(m, k) is Some <==> spec_contains(m, k),
        spec_get(m, k) is Some ==> (spec_raw(m, k) matches Some(p) && p.1 > 0 && spec_get(m, k) == Some(p.0)),
        k != hashed_null_node() && !m.contains_key(k) && v != null_node_data() ==> spec_get(spec_emplace(m, k, v), k)
            == Some(v) && spec_get(spec_remove(spec_emplace(m, k, v), k), k) is None && !spec_contains(
            spec_remove(spec_emplace(m, k, v), k),
            k,
        ),
{
    if k != hashed_null_node() && !m.contains_key(k) && v != null_node_data() {
        let m1 = spec_emplace(m, k, v);
        assert(m1[k] == (v, 1int));
        let m2 = spec_remove(m1, k);
        assert((1i32).wrapping_sub(1) == 0i32);
        assert(m2[k].1 == 0);
    }
}

/// Inserting over a key that holds no live value stores the new value: a key
/// removed before it was ever inserted, then inserted twice, is visible with
/// the inserted value; inserting over a live key keeps its value and adds a
/// count.
pub proof fn lemma_emplace_value(m: Map<Seq<u8>, (Seq<u8>, int)>, k: Seq<u8>, v: Seq<u8>, w: Seq<u8>)
    requires
        k != hashed_null_node(),
        v != null_node_data(),
        w != null_node_data(),
    ensures
        !m.contains_key(k) ==> spec_get(spec_emplace(spec_emplace(spec_remove(m, k), k, v), k, v), k) == Some(v),
        spec_get(m, k) is Some && m[k].1 < i32::MAX ==> spec_get(spec_emplace(m, k, w), k) == spec_get(m, k)
            && spec_emplace(m, k, w)[k].1 == m[k].1 + 1,
{
    if !m.contains_key(k) {
        let m1 = spec_remove(m, k);
        assert(m1[k] == (Seq::<u8>::empty(), -1int));
        let m2 = spec_emplace(m1, k, v);
        assert(((-1int) as i32).wrapping_add(1) as int == 0);
        assert(m2[k] == (v, 0int));
        let m3 = spec_emplace(m2, k, v);
        assert((0i32).wrapping_add(1) as int == 1);
        assert(m3[k] == (v, 1int));
    }
    if spec_get(m, k) is Some && m[k].1 < i32::MAX {
        let c = m[k].1;
        assert((c as i32).wrapping_add(1) as int == c + 1);
    }
}

/// `m` after removing `k` once and purging it at count 1, with the value
/// purged.
pub open spec fn spec_purge(m: Map<Seq<u8>, (Seq<u8>, int)>, k: Seq<u8>) -> (Map<Seq<u8>, (Seq<u8>, int)>, Option<Seq<u8>>) {
    if k == hashed_null_node() {
        (m, None)
    } else if m.contains_key(k) {
        let (v, c) = m[k];
        if c == 1 {
            (m.remove(k), Some(v))
        } else {
            (m.insert(k, (v, (c as i32).wrapping_sub(1) as int)), None)
        }
    } else {
        (m.insert(k, (Seq::empty(), -1)), None)
    }
}

/// A reference-counted overlay of values under their 32-byte hashes. The
/// null node (the encoding of an empty string) is never stored: it is always
/// present, and inserting or removing it has no effect.
pub struct MemoryDB {
    data: Vec<(HashBytes, Vec<u8>, i32)>,
    hashed_null_node: HashBytes,
    null_node_data: Vec<u8>,
}

/// The keys of entries, in order.
pub open spec fn entry_keys(s: Seq<(HashBytes, Vec<u8>, i32)>) -> Seq<Seq<u8>> {
    s.map_values(|e: (HashBytes, Vec<u8>, i32)| e.0@)
}

/// The keys of entries after `k` is touched: a new key joins at the end, a
/// known key keeps its place.
pub open spec fn touched_keys(ks: Seq<Seq<u8>>, k: Seq<u8>) -> Seq<Seq<u8>> {
    if ks.contains(k) {
        ks
    } else {
        ks.push(k)
    }
}

/// The encoding of an empty string, the data of the null node.
pub open spec fn null_node_data() -> Seq<u8> {
    seq![0x80u8]
}

/// The hash of the null node.
pub open spec fn hashed_null_node() -> Seq<u8> {
    keccak256(null_node_data())
}

impl MemoryDB {
    #[verifier::type_invariant]
    spec fn inv(self) -> bool {
        &&& distinct_keys(self.data@)
        &&& self.hashed_null_node@ == hashed_null_node()
        &&& self.null_node_data@ == null_node_data()
    }

    /// The keys held, each with its value and count: the map of the
    /// entries.
    pub open spec fn view(&self) -> Map<Seq<u8>, (Seq<u8>, int)> {
        entries_map(self.entries())
    }

    /// The entries in the order they were first touched.
    pub closed spec fn entries(&self) -> Seq<(HashBytes, Vec<u8>, i32)> {
        self.data@
    }

    /// An empty overlay.
    pub fn new() -> (r: Self)
        ensures
            r.view() == Map::<Seq<u8>, (Seq<u8>, int)>::empty(),
            r.entries().len() == 0,
            distinct_keys(r.entries()),
    {
        let mut null_data: Vec<u8> = Vec::new();
        null_data.push(0x80u8);
        assert(null_data@ =~= null_node_data());
        let h = keccak(null_data.as_slice());
        MemoryDB { data: Vec::new(), hashed_null_node: h, null_node_data: null_data }
    }

    /// The position of `key` among the entries.
    fn find(&self, key: &[u8]) -> (r: Option<usize>)
        ensures
            match r {
                Some(i) => i < self.data@.len() && self.data@[i as int].0@ == key@,
                None => forall|i: int| 0 <= i < self.data@.len() ==> self.data@[i].0@ != key@,
            },
    {
        let mut i: usize = 0;
        while i < self.data.len()
            invariant
                i <= self.data@.len(),
                forall|j: int| 0 <= j < i ==> self.data@[j].0@ != key@,
            decreases self.data@.len() - i,
        {
            if same_bytes(self.data[i].0.as_slice(), key) {
                return Some(i);
            }
            i = i + 1;
        }
        None
    }

    /// `true` when `key` is the hash of the null node.
    fn is_null_key(&self, key: &[u8]) -> (r: bool)
        ensures
            r == (key@ == hashed_null_node()),
    {
        proof {
            use_type_invariant(self);
        }
        same_bytes(self.hashed_null_node.as_slice(), key)
    }

    /// The value and count of `key`: the null node's data with count 1 for
    /// the null node, else what the overlay holds.
    pub fn raw(&self, key: &[u8]) -> (r: Option<(Vec<u8>, i32)>)
        ensures
            match (r, spec_raw(self.view(), key@)) {
                (Some(p), Some(q)) => p.0@ == q.0 && p.1 == q.1,
                (None, None) => true,
                _ => false,
            },
    {
        proof {
            use_type_invariant(self);
        }
        if self.is_null_key(key) {
            return Some((self.null_node_data.clone(), 1));
        }
        match self.find(key) {
            Some(i) => {
                proof {
                    lemma_entries_at(self.data@, i as int);
                }
                Some((self.data[i].1.clone(), self.data[i].2))
            },
            None => {
                proof {
                    lemma_entries_dom(self.data@, key@);
                }
                None
            },
        }
    }

    /// The value of `key` when its count is positive (always for the null
    /// node).
    pub fn get(&self, key: &[u8]) -> (r: Option<Vec<u8>>)
        ensures
            match (r, spec_get(self.view(), key@)) {
                (Some(v), Some(w)) => v@ == w,
                (None, None) => true,
                _ => false,
            },
    {
        match self.raw(key) {
            Some((v, c)) => if c > 0 {
                Some(v)
            } else {
                None
            },
            None => None,
        }
    }

    /// `true` when `key` has a positive count (always for the null node).
    pub fn contains(&self, key: &[u8]) -> (r: bool)
        ensures
            r == spec_contains(self.view(), key@),
    {
        match self.raw(key) {
            Some((_, c)) => c > 0,
            None => false,
        }
    }

    /// Inserts `value` under `key` once more: a new key gets count 1; a known
    /// key's count grows by one (wrapping), and its value is replaced when
    /// the count was not positive. The null node's data is not stored.
    pub fn emplace(&mut self, key: HashBytes, value: Vec<u8>)
        ensures
            final(self).view() == spec_emplace(old(self).view(), key@, value@),
            distinct_keys(final(self).entries()),
            entry_keys(final(self).entries()) == if value@ == null_node_data() {
                entry_keys(old(self).entries())
            } else {
                touched_keys(entry_keys(old(self).entries()), key@)
            },
    {
        proof {
            use_type_invariant(&*self);
        }
        if same_bytes(value.as_slice(), self.null_node_data.as_slice()) {
            return;
        }
        match self.find(key.as_slice()) {
            Some(i) => {
                proof {
                    lemma_entries_at(self.data@, i as int);
                }
                let c = self.data[i].2;
                let v = if c <= 0 {
                    value
                } else {
                    let old_v = self.data[i].1.clone();
                    assert(old_v@ =~= self.data@[i as int].1@);
                    old_v
                };
                let e = (key, v, c.wrapping_add(1));
                proof {
                    lemma_entries_update(self.data@, i as int, e);
                }
                let ghost ks = entry_keys(self.data@);
                assert(ks[i as int] == key@);
                let mut data = Vec::new();
                std::mem::swap(&mut data, &mut self.data);
                data.set(i, e);
                self.data = data;
                assert(entry_keys(self.data@) =~= ks);
            },
            None => {
                proof {
                    lemma_entries_dom(self.data@, key@);
                }
                let ghost ks = entry_keys(self.data@);
                assert(!ks.contains(key@));
                let mut data = Vec::new();
                std::mem::swap(&mut data, &mut self.data);
                let ghost before = data@;
                data.push((key, value, 1));
                proof {
                    assert(data@.drop_last() =~= before);
                    assert(distinct_keys(data@));
                }
                self.data = data;
                assert(entry_keys(self.data@) =~= ks.push(key@));
            },
        }
    }

    /// Inserts `value` under its hash (see `emplace`) and returns the hash;
    /// the null node's data gives the null node's hash.
    pub fn insert(&mut self, value: &[u8]) -> (r: HashBytes)
        ensures
            value@ == null_node_data() ==> r@ == hashed_null_node(),
            value@ != null_node_data() ==> r@ == keccak256(value@),
            final(self).view() == spec_emplace(old(self).view(), r@, value@),
            distinct_keys(final(self).entries()),
            entry_keys(final(self).entries()) == if value@ == null_node_data() {
                entry_keys(old(self).entries())
            } else {
                touched_keys(entry_keys(old(self).entries()), r@)
            },
    {
        proof {
            use_type_invariant(&*self);
        }
        if same_bytes(value, self.null_node_data.as_slice()) {
            return self.hashed_null_node;
        }
        let key = keccak(value);
        let mut v: Vec<u8> = Vec::new();
        let mut i: usize = 0;
        while i < value.len()
            invariant
                i <= value@.len(),
                v@ == value@.subrange(0, i as int),
            decreases value@.len() - i,
        {
            v.push(value[i]);
            i = i + 1;
        }
        assert(v@ =~= value@);
        self.emplace(key, v);
        key
    }

    /// Removes `key` once: its count falls by one (wrapping); an unknown key
    /// is kept with count -1 and an empty value. The null node is never
    /// removed.
    pub fn remove(&mut self, key: &HashBytes)
        ensures
            final(self).view() == spec_remove(old(self).view(), key@),
            distinct_keys(final(self).entries()),
            entry_keys(final(self).entries()) == if key@ == hashed_null_node() {
                entry_keys(old(self).entries())
            } else {
                touched_keys(entry_keys(old(self).entries()), key@)
            },
    {
        proof {
            use_type_invariant(&*self);
        }
        if self.is_null_key(key.as_slice()) {
            return;
        }
        match self.find(key.as_slice()) {
            Some(i) => {
                proof {
                    lemma_entries_at(self.data@, i as int);
                }
                let c = self.data[i].2;
                let old_v = self.data[i].1.clone();
                assert(old_v@ =~= self.data@[i as int].1@);
                let e = (*key, old_v, c.wrapping_sub(1));
                proof {
                    lemma_entries_update(self.data@, i as int, e);
                }
                let ghost ks = entry_keys(self.data@);
                assert(ks[i as int] == key@);
                let mut data = Vec::new();
                std::mem::swap(&mut data, &mut self.data);
                data.set(i, e);
                self.data = data;
                assert(entry_keys(self.data@) =~= ks);
            },
            None => {
                proof {
                    lemma_entries_dom(self.data@, key@);
                }
                let ghost ks = entry_keys(self.data@);
                assert(!ks.contains(key@));
                let mut data = Vec::new();
                std::mem::swap(&mut data, &mut self.data);
                let ghost before = data@;
                data.push((*key, Vec::new(), -1));
                proof {
                    assert(data@.drop_last() =~= before);
                    assert(distinct_keys(data@));
                    assert(data@.last().1@ =~= Seq::<u8>::empty());
                }
                self.data = data;
                assert(entry_keys(self.data@) =~= ks.push(key@));
            },
        }
    }

    /// Removes `key` once and purges it when its count was 1, returning its
    /// value then; an unknown key is kept with count -1 and an empty value.
    /// The null node is never removed.
    pub fn remove_and_purge(&mut self, key: &HashBytes) -> (r: Option<Vec<u8>>)
        ensures
            final(self).view() == spec_purge(old(self).view(), key@).0,
            match (r, spec_purge(old(self).view(), key@).1) {
                (Some(v), Some(w)) => v@ == w,
                (None, None) => true,
                _ => false,
            },
    {
        proof {
            use_type_invariant(&*self);
        }
        if self.is_null_key(key.as_slice()) {
            return None;
        }
        match self.find(key.as_slice()) {
            Some(i) => {
                proof {
                    lemma_entries_at(self.data@, i as int);
                }
                let c = self.data[i].2;
                if c == 1 {
                    proof {
                        lemma_entries_remove(self.data@, i as int);
                    }
                    let mut data = Vec::new();
                    std::mem::swap(&mut data, &mut self.data);
                    let (_, v, _) = data.remove(i);
                    self.data = data;
                    Some(v)
                } else {
                    let old_v = self.data[i].1.clone();
                assert(old_v@ =~= self.data@[i as int].1@);
                let e = (*key, old_v, c.wrapping_sub(1));
                    proof {
                        lemma_entries_update(self.data@, i as int, e);
                    }
                    let mut data = Vec::new();
                    std::mem::swap(&mut data, &mut self.data);
                    data.set(i, e);
                    self.data = data;
                    None
                }
            },
            None => {
                proof {
                    lemma_entries_dom(self.data@, key@);
                }
                let mut data = Vec::new();
                std::mem::swap(&mut data, &mut self.data);
                let ghost before = data@;
                data.push((*key, Vec::new(), -1));
                proof {
                    assert(data@.drop_last() =~= before);
                    assert(distinct_keys(data@));
                    assert(data@.last().1@ =~= Seq::<u8>::empty());
                }
                self.data = data;
                None
            },
        }
    }

    /// Takes out every entry, in the order they were first touched, leaving
    /// the overlay empty.
    pub fn drain(&mut self) -> (r: Vec<(HashBytes, Vec<u8>, i32)>)
        ensures
            r@ == old(self).entries(),
            distinct_keys(r@),
            entries_map(r@) == old(self).view(),
            final(self).view() == Map::<Seq<u8>, (Seq<u8>, int)>::empty(),
            final(self).entries().len() == 0,
    {
        proof {
            use_type_invariant(&*self);
        }
        let mut data = Vec::new();
        std::mem::swap(&mut data, &mut self.data);
        data
    }

    /// The number of entries.
    pub fn len(&self) -> (r: usize)
        ensures
            r == self.entries().len(),
    {
        self.data.len()
    }
}

impl MemoryDB {
    /// `true` when every entry of `self` is in `other` with the same value
    /// and count.
    fn covered_by(&self, other: &MemoryDB) -> (r: bool)
        ensures
            r == (forall|k: Seq<u8>| #[trigger] self.view().contains_key(k) ==> other.view().contains_key(k)
                && other.view()[k] == self.view()[k]),
    {
        proof {
            use_type_invariant(self);
            use_type_invariant(other);
        }
        let mut i: usize = 0;
        while i < self.data.len()
            invariant
                i <= self.data@.len(),
                distinct_keys(self.data@),
                distinct_keys(other.data@),
                forall|j: int| 0 <= j < i ==> other.view().contains_key(#[trigger] self.data@[j].0@)
                    && other.view()[self.data@[j].0@] == (self.data@[j].1@, self.data@[j].2 as int),
            decreases self.data@.len() - i,
        {
            let key = &self.data[i].0;
            proof {
                lemma_entries_at(self.data@, i as int);
            }
            match other.find(key.as_slice()) {
                Some(j) => {
                    proof {
                        lemma_entries_at(other.data@, j as int);
                    }
                    if other.data[j].2 != self.data[i].2 || !same_bytes(other.data[j].1.as_slice(), self.data[i].1.as_slice()) {
                        assert(self.view().contains_key(key@));
                        return false;
                    }
                },
                None => {
                    proof {
                        lemma_entries_dom(other.data@, key@);
                    }
                    assert(self.view().contains_key(key@));
                    return false;
                },
            }
            i = i + 1;
        }
        proof {
            assert forall|k: Seq<u8>| #[trigger] self.view().contains_key(k) implies other.view().contains_key(k)
                && other.view()[k] == self.view()[k] by {
                lemma_entries_dom(self.data@, k);
                let j = choose|j: int| 0 <= j < self.data@.len() && self.data@[j].0@ == k;
                lemma_entries_at(self.data@, j);
            }
        }
        true
    }

    /// `true` when both overlays hold the same keys with the same values and
    /// counts, whatever the order of their entries.
    pub fn same_contents(&self, other: &MemoryDB) -> (r: bool)
        ensures
            r == (self.view() == other.view()),
    {
        let a = self.covered_by(other);
        let b = other.covered_by(self);
        proof {
            if a && b {
                assert(self.view() =~= other.view());
            }
        }
        a && b
    }
}

} // verus!
