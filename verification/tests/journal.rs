use asb::journal::{
    commit_epoch, epoch_hash, flush_epochs, latest_era_key_bytes, JournalOverlay, OverlayReader,
    OverlayRecentDB,
};
use asb::kv::{DBOp, DBTransaction};
use asb::rlp_decode::{decode_record, decode_u64};
use std::collections::HashMap;

type Store = HashMap<Vec<u8>, Vec<u8>>;
type H256 = [u8; 32];

fn keccak(b: &[u8]) -> H256 {
    keccak_hash::keccak(b).0
}

fn apply(store: &mut Store, tx: &DBTransaction) {
    for op in &tx.ops {
        match op {
            DBOp::Insert { key, value, .. } => {
                store.insert(key.clone(), value.clone());
            }
            DBOp::Delete { key, .. } => {
                store.remove(key);
            }
        }
    }
}

fn read_overlay(store: &Store) -> JournalOverlay {
    let mut reader = OverlayReader::new();
    let latest = store.get(&latest_era_key_bytes()).cloned();
    if let Some(v) = &latest {
        assert!(decode_u64(v).is_some(), "decoding db value failed");
    }
    let mut next = reader.start(latest);
    while let Some(key) = next {
        let record = store.get(&key).cloned();
        if let Some(d) = &record {
            assert!(decode_record(d).is_some(), "decoding journal record failed");
        }
        next = reader.step(record);
    }
    reader.finish()
}

fn open(store: &Store) -> OverlayRecentDB {
    OverlayRecentDB::new(read_overlay(store), 0)
}

fn commit_batch(
    jdb: &mut OverlayRecentDB,
    store: &mut Store,
    now: u64,
    id: &H256,
    end: Option<(u64, H256)>,
) -> u32 {
    let mut batch = DBTransaction::new();
    let mut ops = jdb.journal_under(&mut batch, now, id);
    if let Some((end_era, canon_id)) = end {
        ops += jdb.mark_canonical(&mut batch, end_era, &canon_id);
    }
    apply(store, &batch);
    jdb.flush();
    ops
}

fn contains(jdb: &OverlayRecentDB, store: &Store, key: &H256) -> bool {
    jdb.contains(key) || store.contains_key(&key.to_vec())
}

fn get(jdb: &OverlayRecentDB, store: &Store, key: &H256) -> Option<Vec<u8>> {
    jdb.get(key).or_else(|| store.get(&key.to_vec()).cloned())
}

fn can_reconstruct_refs(jdb: &OverlayRecentDB, store: &Store) -> bool {
    let rebuilt = read_overlay(store);
    let live = jdb.history();
    if !live.same_backing(&rebuilt) {
        return false;
    }
    if live.pending_is_empty() != rebuilt.pending_is_empty() {
        return false;
    }
    if live.latest_era() != rebuilt.latest_era() || live.journal_size() != rebuilt.journal_size() {
        return false;
    }
    for era in 0..16u64 {
        if live.era_len(era) != rebuilt.era_len(era) {
            return false;
        }
        for i in 0..live.era_len(era) {
            if live.era_entry(era, i) != rebuilt.era_entry(era, i) {
                return false;
            }
        }
    }
    true
}

fn new_db() -> (OverlayRecentDB, Store) {
    let store = Store::new();
    (open(&store), store)
}

#[test]
fn insert_same_in_fork() {
    let (mut jdb, mut s) = new_db();

    let x = jdb.insert(b"X");
    commit_batch(&mut jdb, &mut s, 1, &keccak(b"1"), None);
    assert!(can_reconstruct_refs(&jdb, &s));
    commit_batch(&mut jdb, &mut s, 2, &keccak(b"2"), None);
    assert!(can_reconstruct_refs(&jdb, &s));
    commit_batch(&mut jdb, &mut s, 3, &keccak(b"1002a"), Some((1, keccak(b"1"))));
    assert!(can_reconstruct_refs(&jdb, &s));
    commit_batch(&mut jdb, &mut s, 4, &keccak(b"1003a"), Some((2, keccak(b"2"))));
    assert!(can_reconstruct_refs(&jdb, &s));

    jdb.remove(&x);
    commit_batch(&mut jdb, &mut s, 3, &keccak(b"1002b"), Some((1, keccak(b"1"))));
    assert!(can_reconstruct_refs(&jdb, &s));
    let x = jdb.insert(b"X");
    commit_batch(&mut jdb, &mut s, 4, &keccak(b"1003b"), Some((2, keccak(b"2"))));
    assert!(can_reconstruct_refs(&jdb, &s));

    commit_batch(&mut jdb, &mut s, 5, &keccak(b"1004a"), Some((3, keccak(b"1002a"))));
    assert!(can_reconstruct_refs(&jdb, &s));
    commit_batch(&mut jdb, &mut s, 6, &keccak(b"1005a"), Some((4, keccak(b"1003a"))));
    assert!(can_reconstruct_refs(&jdb, &s));

    assert!(contains(&jdb, &s, &x));
}

#[test]
fn long_history() {
    let (mut jdb, mut s) = new_db();
    let h = jdb.insert(b"foo");
    commit_batch(&mut jdb, &mut s, 0, &keccak(b"0"), None);
    assert!(can_reconstruct_refs(&jdb, &s));
    assert!(contains(&jdb, &s, &h));
    jdb.remove(&h);
    commit_batch(&mut jdb, &mut s, 1, &keccak(b"1"), None);
    assert!(can_reconstruct_refs(&jdb, &s));
    assert!(contains(&jdb, &s, &h));
    commit_batch(&mut jdb, &mut s, 2, &keccak(b"2"), None);
    assert!(can_reconstruct_refs(&jdb, &s));
    assert!(contains(&jdb, &s, &h));
    commit_batch(&mut jdb, &mut s, 3, &keccak(b"3"), Some((0, keccak(b"0"))));
    assert!(can_reconstruct_refs(&jdb, &s));
    assert!(contains(&jdb, &s, &h));
    commit_batch(&mut jdb, &mut s, 4, &keccak(b"4"), Some((1, keccak(b"1"))));
    assert!(can_reconstruct_refs(&jdb, &s));
    assert!(!contains(&jdb, &s, &h));
}

#[test]
fn complex() {
    let (mut jdb, mut s) = new_db();

    let foo = jdb.insert(b"foo");
    let bar = jdb.insert(b"bar");
    commit_batch(&mut jdb, &mut s, 0, &keccak(b"0"), None);
    assert!(can_reconstruct_refs(&jdb, &s));
    assert!(contains(&jdb, &s, &foo));
    assert!(contains(&jdb, &s, &bar));

    jdb.remove(&foo);
    jdb.remove(&bar);
    let baz = jdb.insert(b"baz");
    commit_batch(&mut jdb, &mut s, 1, &keccak(b"1"), Some((0, keccak(b"0"))));
    assert!(can_reconstruct_refs(&jdb, &s));
    assert!(contains(&jdb, &s, &foo));
    assert!(contains(&jdb, &s, &bar));
    assert!(contains(&jdb, &s, &baz));

    let foo = jdb.insert(b"foo");
    jdb.remove(&baz);
    commit_batch(&mut jdb, &mut s, 2, &keccak(b"2"), Some((1, keccak(b"1"))));
    assert!(can_reconstruct_refs(&jdb, &s));
    assert!(contains(&jdb, &s, &foo));
    assert!(!contains(&jdb, &s, &bar));
    assert!(contains(&jdb, &s, &baz));

    jdb.remove(&foo);
    commit_batch(&mut jdb, &mut s, 3, &keccak(b"3"), Some((2, keccak(b"2"))));
    assert!(can_reconstruct_refs(&jdb, &s));
    assert!(contains(&jdb, &s, &foo));
    assert!(!contains(&jdb, &s, &bar));
    assert!(!contains(&jdb, &s, &baz));

    commit_batch(&mut jdb, &mut s, 4, &keccak(b"4"), Some((3, keccak(b"3"))));
    assert!(can_reconstruct_refs(&jdb, &s));
    assert!(!contains(&jdb, &s, &foo));
    assert!(!contains(&jdb, &s, &bar));
    assert!(!contains(&jdb, &s, &baz));
}

#[test]
fn fork() {
    let (mut jdb, mut s) = new_db();

    let foo = jdb.insert(b"foo");
    let bar = jdb.insert(b"bar");
    commit_batch(&mut jdb, &mut s, 0, &keccak(b"0"), None);
    assert!(can_reconstruct_refs(&jdb, &s));
    assert!(contains(&jdb, &s, &foo));
    assert!(contains(&jdb, &s, &bar));

    jdb.remove(&foo);
    let baz = jdb.insert(b"baz");
    commit_batch(&mut jdb, &mut s, 1, &keccak(b"1a"), Some((0, keccak(b"0"))));
    assert!(can_reconstruct_refs(&jdb, &s));

    jdb.remove(&bar);
    commit_batch(&mut jdb, &mut s, 1, &keccak(b"1b"), Some((0, keccak(b"0"))));
    assert!(can_reconstruct_refs(&jdb, &s));

    assert!(contains(&jdb, &s, &foo));
    assert!(contains(&jdb, &s, &bar));
    assert!(contains(&jdb, &s, &baz));

    commit_batch(&mut jdb, &mut s, 2, &keccak(b"2b"), Some((1, keccak(b"1b"))));
    assert!(can_reconstruct_refs(&jdb, &s));
    assert!(contains(&jdb, &s, &foo));
    assert!(!contains(&jdb, &s, &baz));
    assert!(!contains(&jdb, &s, &bar));
}

#[test]
fn overwrite() {
    let (mut jdb, mut s) = new_db();

    let foo = jdb.insert(b"foo");
    commit_batch(&mut jdb, &mut s, 0, &keccak(b"0"), None);
    assert!(can_reconstruct_refs(&jdb, &s));
    assert!(contains(&jdb, &s, &foo));

    jdb.remove(&foo);
    commit_batch(&mut jdb, &mut s, 1, &keccak(b"1"), Some((0, keccak(b"0"))));
    assert!(can_reconstruct_refs(&jdb, &s));
    jdb.insert(b"foo");
    assert!(contains(&jdb, &s, &foo));
    commit_batch(&mut jdb, &mut s, 2, &keccak(b"2"), Some((1, keccak(b"1"))));
    assert!(can_reconstruct_refs(&jdb, &s));
    assert!(contains(&jdb, &s, &foo));
    commit_batch(&mut jdb, &mut s, 3, &keccak(b"2"), Some((0, keccak(b"2"))));
    assert!(can_reconstruct_refs(&jdb, &s));
    assert!(contains(&jdb, &s, &foo));
}

#[test]
fn fork_same_key_one() {
    let (mut jdb, mut s) = new_db();
    commit_batch(&mut jdb, &mut s, 0, &keccak(b"0"), None);
    assert!(can_reconstruct_refs(&jdb, &s));

    let foo = jdb.insert(b"foo");
    commit_batch(&mut jdb, &mut s, 1, &keccak(b"1a"), Some((0, keccak(b"0"))));
    assert!(can_reconstruct_refs(&jdb, &s));

    jdb.insert(b"foo");
    commit_batch(&mut jdb, &mut s, 1, &keccak(b"1b"), Some((0, keccak(b"0"))));
    assert!(can_reconstruct_refs(&jdb, &s));

    jdb.insert(b"foo");
    commit_batch(&mut jdb, &mut s, 1, &keccak(b"1c"), Some((0, keccak(b"0"))));
    assert!(can_reconstruct_refs(&jdb, &s));

    assert!(contains(&jdb, &s, &foo));

    commit_batch(&mut jdb, &mut s, 2, &keccak(b"2a"), Some((1, keccak(b"1a"))));
    assert!(can_reconstruct_refs(&jdb, &s));
    assert!(contains(&jdb, &s, &foo));
}

#[test]
fn fork_same_key_other() {
    let (mut jdb, mut s) = new_db();

    commit_batch(&mut jdb, &mut s, 0, &keccak(b"0"), None);
    assert!(can_reconstruct_refs(&jdb, &s));

    let foo = jdb.insert(b"foo");
    commit_batch(&mut jdb, &mut s, 1, &keccak(b"1a"), Some((0, keccak(b"0"))));
    assert!(can_reconstruct_refs(&jdb, &s));

    jdb.insert(b"foo");
    commit_batch(&mut jdb, &mut s, 1, &keccak(b"1b"), Some((0, keccak(b"0"))));
    assert!(can_reconstruct_refs(&jdb, &s));

    jdb.insert(b"foo");
    commit_batch(&mut jdb, &mut s, 1, &keccak(b"1c"), Some((0, keccak(b"0"))));
    assert!(can_reconstruct_refs(&jdb, &s));

    assert!(contains(&jdb, &s, &foo));

    commit_batch(&mut jdb, &mut s, 2, &keccak(b"2b"), Some((1, keccak(b"1b"))));
    assert!(can_reconstruct_refs(&jdb, &s));
    assert!(contains(&jdb, &s, &foo));
}

#[test]
fn fork_ins_del_ins() {
    let (mut jdb, mut s) = new_db();

    commit_batch(&mut jdb, &mut s, 0, &keccak(b"0"), None);
    assert!(can_reconstruct_refs(&jdb, &s));

    let foo = jdb.insert(b"foo");
    commit_batch(&mut jdb, &mut s, 1, &keccak(b"1"), None);
    assert!(can_reconstruct_refs(&jdb, &s));

    jdb.remove(&foo);
    commit_batch(&mut jdb, &mut s, 2, &keccak(b"2a"), Some((0, keccak(b"0"))));
    assert!(can_reconstruct_refs(&jdb, &s));

    jdb.remove(&foo);
    commit_batch(&mut jdb, &mut s, 2, &keccak(b"2b"), Some((0, keccak(b"0"))));
    assert!(can_reconstruct_refs(&jdb, &s));

    jdb.insert(b"foo");
    commit_batch(&mut jdb, &mut s, 3, &keccak(b"3a"), Some((1, keccak(b"1"))));
    assert!(can_reconstruct_refs(&jdb, &s));

    jdb.insert(b"foo");
    commit_batch(&mut jdb, &mut s, 3, &keccak(b"3b"), Some((1, keccak(b"1"))));
    assert!(can_reconstruct_refs(&jdb, &s));

    commit_batch(&mut jdb, &mut s, 4, &keccak(b"4a"), Some((2, keccak(b"2a"))));
    assert!(can_reconstruct_refs(&jdb, &s));

    commit_batch(&mut jdb, &mut s, 5, &keccak(b"5a"), Some((3, keccak(b"3a"))));
    assert!(can_reconstruct_refs(&jdb, &s));
}

#[test]
fn reopen() {
    let mut s = Store::new();
    let bar = keccak(b"a random key");

    let foo = {
        let mut jdb = open(&s);
        let foo = jdb.insert(b"foo");
        jdb.emplace(bar, b"bar".to_vec());
        commit_batch(&mut jdb, &mut s, 0, &keccak(b"0"), None);
        assert!(can_reconstruct_refs(&jdb, &s));
        foo
    };

    {
        let mut jdb = open(&s);
        jdb.remove(&foo);
        commit_batch(&mut jdb, &mut s, 1, &keccak(b"1"), Some((0, keccak(b"0"))));
        assert!(can_reconstruct_refs(&jdb, &s));
    }

    {
        let mut jdb = open(&s);
        assert!(contains(&jdb, &s, &foo));
        assert!(contains(&jdb, &s, &bar));
        commit_batch(&mut jdb, &mut s, 2, &keccak(b"2"), Some((1, keccak(b"1"))));
        assert!(can_reconstruct_refs(&jdb, &s));
        assert!(!contains(&jdb, &s, &foo));
    }
}

#[test]
fn insert_delete_insert_delete_insert_expunge() {
    let (mut jdb, mut s) = new_db();

    let foo = jdb.insert(b"foo");
    commit_batch(&mut jdb, &mut s, 0, &keccak(b"0"), None);
    assert!(can_reconstruct_refs(&jdb, &s));
    jdb.remove(&foo);
    commit_batch(&mut jdb, &mut s, 1, &keccak(b"1"), None);
    assert!(can_reconstruct_refs(&jdb, &s));
    jdb.insert(b"foo");
    commit_batch(&mut jdb, &mut s, 2, &keccak(b"2"), None);
    assert!(can_reconstruct_refs(&jdb, &s));
    jdb.remove(&foo);
    commit_batch(&mut jdb, &mut s, 3, &keccak(b"3"), None);
    assert!(can_reconstruct_refs(&jdb, &s));
    jdb.insert(b"foo");
    commit_batch(&mut jdb, &mut s, 4, &keccak(b"4"), Some((0, keccak(b"0"))));
    assert!(can_reconstruct_refs(&jdb, &s));
    commit_batch(&mut jdb, &mut s, 5, &keccak(b"5"), Some((1, keccak(b"1"))));
    assert!(can_reconstruct_refs(&jdb, &s));
}

#[test]
fn forked_insert_delete_insert_delete_insert_expunge() {
    let (mut jdb, mut s) = new_db();

    let foo = jdb.insert(b"foo");
    commit_batch(&mut jdb, &mut s, 0, &keccak(b"0"), None);
    assert!(can_reconstruct_refs(&jdb, &s));

    jdb.remove(&foo);
    commit_batch(&mut jdb, &mut s, 1, &keccak(b"1a"), None);
    assert!(can_reconstruct_refs(&jdb, &s));

    jdb.remove(&foo);
    commit_batch(&mut jdb, &mut s, 1, &keccak(b"1b"), None);
    assert!(can_reconstruct_refs(&jdb, &s));

    jdb.insert(b"foo");
    commit_batch(&mut jdb, &mut s, 2, &keccak(b"2a"), None);
    assert!(can_reconstruct_refs(&jdb, &s));

    jdb.insert(b"foo");
    commit_batch(&mut jdb, &mut s, 2, &keccak(b"2b"), None);
    assert!(can_reconstruct_refs(&jdb, &s));

    jdb.remove(&foo);
    commit_batch(&mut jdb, &mut s, 3, &keccak(b"3a"), None);
    assert!(can_reconstruct_refs(&jdb, &s));

    jdb.remove(&foo);
    commit_batch(&mut jdb, &mut s, 3, &keccak(b"3b"), None);
    assert!(can_reconstruct_refs(&jdb, &s));

    jdb.insert(b"foo");
    commit_batch(&mut jdb, &mut s, 4, &keccak(b"4a"), Some((0, keccak(b"0"))));
    assert!(can_reconstruct_refs(&jdb, &s));

    jdb.insert(b"foo");
    commit_batch(&mut jdb, &mut s, 4, &keccak(b"4b"), Some((0, keccak(b"0"))));
    assert!(can_reconstruct_refs(&jdb, &s));

    commit_batch(&mut jdb, &mut s, 5, &keccak(b"5"), Some((1, keccak(b"1a"))));
    assert!(can_reconstruct_refs(&jdb, &s));
}

#[test]
fn broken_assert() {
    let (mut jdb, mut s) = new_db();

    let foo = jdb.insert(b"foo");
    commit_batch(&mut jdb, &mut s, 1, &keccak(b"1"), Some((0, keccak(b"0"))));
    assert!(can_reconstruct_refs(&jdb, &s));

    jdb.remove(&foo);
    commit_batch(&mut jdb, &mut s, 2, &keccak(b"2"), Some((1, keccak(b"1"))));
    assert!(can_reconstruct_refs(&jdb, &s));

    jdb.insert(b"foo");
    commit_batch(&mut jdb, &mut s, 3, &keccak(b"3"), Some((2, keccak(b"2"))));
    assert!(can_reconstruct_refs(&jdb, &s));
    assert!(contains(&jdb, &s, &foo));

    jdb.remove(&foo);
    commit_batch(&mut jdb, &mut s, 4, &keccak(b"4"), Some((3, keccak(b"3"))));
    assert!(can_reconstruct_refs(&jdb, &s));

    commit_batch(&mut jdb, &mut s, 5, &keccak(b"5"), Some((4, keccak(b"4"))));
    assert!(can_reconstruct_refs(&jdb, &s));
    assert!(!contains(&jdb, &s, &foo));
}

#[test]
fn reopen_test() {
    let (mut jdb, mut s) = new_db();
    let foo = jdb.insert(b"foo");
    commit_batch(&mut jdb, &mut s, 0, &keccak(b"0"), None);
    assert!(can_reconstruct_refs(&jdb, &s));
    commit_batch(&mut jdb, &mut s, 1, &keccak(b"1"), None);
    assert!(can_reconstruct_refs(&jdb, &s));
    commit_batch(&mut jdb, &mut s, 2, &keccak(b"2"), None);
    assert!(can_reconstruct_refs(&jdb, &s));
    commit_batch(&mut jdb, &mut s, 3, &keccak(b"3"), None);
    assert!(can_reconstruct_refs(&jdb, &s));
    commit_batch(&mut jdb, &mut s, 4, &keccak(b"4"), Some((0, keccak(b"0"))));
    assert!(can_reconstruct_refs(&jdb, &s));

    jdb.insert(b"foo");
    let bar = jdb.insert(b"bar");
    commit_batch(&mut jdb, &mut s, 5, &keccak(b"5"), Some((1, keccak(b"1"))));
    assert!(can_reconstruct_refs(&jdb, &s));
    jdb.remove(&foo);
    jdb.remove(&bar);
    commit_batch(&mut jdb, &mut s, 6, &keccak(b"6"), Some((2, keccak(b"2"))));
    assert!(can_reconstruct_refs(&jdb, &s));
    jdb.insert(b"foo");
    jdb.insert(b"bar");
    commit_batch(&mut jdb, &mut s, 7, &keccak(b"7"), Some((3, keccak(b"3"))));
    assert!(can_reconstruct_refs(&jdb, &s));
}

#[test]
fn reopen_remove_three() {
    let mut s = Store::new();
    let foo = keccak(b"foo");

    {
        let mut jdb = open(&s);
        jdb.insert(b"foo");
        commit_batch(&mut jdb, &mut s, 0, &keccak(b"0"), None);
        assert!(can_reconstruct_refs(&jdb, &s));
        commit_batch(&mut jdb, &mut s, 1, &keccak(b"1"), None);
        assert!(can_reconstruct_refs(&jdb, &s));

        jdb.remove(&foo);
        commit_batch(&mut jdb, &mut s, 2, &keccak(b"2"), Some((0, keccak(b"0"))));
        assert!(can_reconstruct_refs(&jdb, &s));
        assert!(contains(&jdb, &s, &foo));

        jdb.insert(b"foo");
        commit_batch(&mut jdb, &mut s, 3, &keccak(b"3"), Some((1, keccak(b"1"))));
        assert!(can_reconstruct_refs(&jdb, &s));
        assert!(contains(&jdb, &s, &foo));
    };
    {
        let mut jdb = open(&s);

        jdb.remove(&foo);
        commit_batch(&mut jdb, &mut s, 4, &keccak(b"4"), Some((2, keccak(b"2"))));
        assert!(can_reconstruct_refs(&jdb, &s));
        assert!(contains(&jdb, &s, &foo));
    };
    {
        let mut jdb = open(&s);

        commit_batch(&mut jdb, &mut s, 5, &keccak(b"5"), Some((3, keccak(b"3"))));
        assert!(can_reconstruct_refs(&jdb, &s));
        assert!(contains(&jdb, &s, &foo));
    };
    {
        let mut jdb = open(&s);

        commit_batch(&mut jdb, &mut s, 6, &keccak(b"6"), Some((4, keccak(b"4"))));
        assert!(can_reconstruct_refs(&jdb, &s));
        assert!(!contains(&jdb, &s, &foo));
    }
}

#[test]
fn reopen_fork() {
    let mut s = Store::new();

    let (foo, bar, baz) = {
        let mut jdb = open(&s);
        let foo = jdb.insert(b"foo");
        let bar = jdb.insert(b"bar");
        commit_batch(&mut jdb, &mut s, 0, &keccak(b"0"), None);
        assert!(can_reconstruct_refs(&jdb, &s));
        jdb.remove(&foo);
        let baz = jdb.insert(b"baz");
        commit_batch(&mut jdb, &mut s, 1, &keccak(b"1a"), Some((0, keccak(b"0"))));
        assert!(can_reconstruct_refs(&jdb, &s));

        jdb.remove(&bar);
        commit_batch(&mut jdb, &mut s, 1, &keccak(b"1b"), Some((0, keccak(b"0"))));
        assert!(can_reconstruct_refs(&jdb, &s));
        (foo, bar, baz)
    };

    {
        let mut jdb = open(&s);
        commit_batch(&mut jdb, &mut s, 2, &keccak(b"2b"), Some((1, keccak(b"1b"))));
        assert!(can_reconstruct_refs(&jdb, &s));
        assert!(contains(&jdb, &s, &foo));
        assert!(!contains(&jdb, &s, &baz));
        assert!(!contains(&jdb, &s, &bar));
    }
}

#[test]
fn insert_older_era() {
    let (mut jdb, mut s) = new_db();
    let foo = jdb.insert(b"foo");
    commit_batch(&mut jdb, &mut s, 0, &keccak(b"0a"), None);
    assert!(can_reconstruct_refs(&jdb, &s));

    let bar = jdb.insert(b"bar");
    commit_batch(&mut jdb, &mut s, 1, &keccak(b"1"), Some((0, keccak(b"0a"))));
    assert!(can_reconstruct_refs(&jdb, &s));

    jdb.remove(&bar);
    commit_batch(&mut jdb, &mut s, 0, &keccak(b"0b"), None);
    assert!(can_reconstruct_refs(&jdb, &s));
    commit_batch(&mut jdb, &mut s, 2, &keccak(b"2"), Some((1, keccak(b"1"))));

    assert!(contains(&jdb, &s, &foo));
    assert!(contains(&jdb, &s, &bar));
}

#[test]
fn inject() {
    let (mut jdb, mut s) = new_db();
    let key = jdb.insert(b"dog");
    let mut batch = DBTransaction::new();
    jdb.inject(&mut batch);
    apply(&mut s, &batch);

    assert_eq!(get(&jdb, &s, &key).unwrap(), b"dog".to_vec());
    jdb.remove(&key);
    let mut batch = DBTransaction::new();
    jdb.inject(&mut batch);
    apply(&mut s, &batch);

    assert!(get(&jdb, &s, &key).is_none());
}

#[test]
fn earliest_era() {
    let mut s = Store::new();

    let mut jdb = open(&s);
    assert!(jdb.earliest_era().is_none());

    let _key = jdb.insert(b"hello!");
    let mut batch = DBTransaction::new();
    jdb.journal_under(&mut batch, 0, &keccak(b"0"));
    apply(&mut s, &batch);

    assert_eq!(jdb.earliest_era(), Some(0));

    let mut batch = DBTransaction::new();
    jdb.journal_under(&mut batch, 1, &keccak(b"1"));
    apply(&mut s, &batch);

    assert_eq!(jdb.earliest_era(), Some(0));

    let mut batch = DBTransaction::new();
    jdb.mark_canonical(&mut batch, 0, &keccak(b"0"));
    apply(&mut s, &batch);

    assert_eq!(jdb.earliest_era(), Some(1));

    let mut batch = DBTransaction::new();
    jdb.mark_canonical(&mut batch, 1, &keccak(b"1"));
    apply(&mut s, &batch);

    assert_eq!(jdb.earliest_era(), Some(1));

    drop(jdb);
    let jdb = open(&s);
    assert_eq!(jdb.earliest_era(), None);
}

#[test]
fn record_round_trip() {
    let id = keccak(b"id");
    let k1 = keccak(b"k1");
    let d1 = keccak(b"d1");
    let ins = vec![(k1, b"value".to_vec())];
    let dels = vec![d1];
    let enc = asb::journal::encode_record(&id, &ins, &dels);
    let (id2, ins2, dels2) = decode_record(&enc).unwrap();
    assert_eq!(id2, id);
    assert_eq!(ins2, ins);
    assert_eq!(dels2, dels);
    assert!(decode_record(&enc[..enc.len() - 1]).is_none());
    assert_eq!(decode_u64(&asb::rlp_decode::encode_number(1234)), Some(1234));
    assert_eq!(decode_u64(&[0x80]), Some(0));
    assert_eq!(decode_u64(&[0x81, 0x05]), None);
}

#[test]
fn journal_under_writes_record_and_latest_era() {
    let (mut jdb, _s) = new_db();
    jdb.insert(b"foo");
    let mut batch = DBTransaction::new();
    let ops = jdb.journal_under(&mut batch, 7, &keccak(b"7"));
    assert_eq!(ops, 1);
    assert_eq!(batch.ops.len(), 2);
    match &batch.ops[1] {
        DBOp::Insert { key, value, .. } => {
            assert_eq!(key, &latest_era_key_bytes());
            assert_eq!(value, &vec![7u8]);
        }
        DBOp::Delete { .. } => panic!("expected an insertion"),
    }
    assert_eq!(jdb.latest_era(), Some(7));
}

#[test]
fn epochs_commit_with_a_window_and_flush_writes_the_root() {
    let (mut jdb, mut store) = new_db();
    let mut keys = Vec::new();
    for index in 0..30usize {
        let value = vec![index as u8, 0xaa];
        keys.push(jdb.insert(&value));
        let tx = commit_epoch(&mut jdb, index);
        apply(&mut store, &tx);
        jdb.flush();
        assert!(can_reconstruct_refs(&jdb, &store));
        // The epoch's own id heads its record.
        assert_eq!(jdb.history().era_entry(index as u64, 0).0, epoch_hash(index));
    }
    // Epochs 0..=4 left the window and were written to the store.
    for (index, key) in keys.iter().enumerate().take(5) {
        assert_eq!(store.get(&key.to_vec()), Some(&vec![index as u8, 0xaa]));
    }
    assert_eq!(jdb.history().era_len(4), 0);
    assert_eq!(jdb.history().era_len(5), 1);
    assert_eq!(epoch_hash(3), keccak(&3usize.to_le_bytes()));

    let root = [7u8; 32];
    let tx = flush_epochs(&mut jdb, 29, &root);
    match tx.ops.last() {
        Some(DBOp::Insert { key, value, .. }) => {
            assert_eq!(key, &vec![0u8; 256]);
            assert_eq!(value, &root.to_vec());
        }
        _ => panic!("the root is written last"),
    }
    apply(&mut store, &tx);
    jdb.flush();
    for era in 5..30u64 {
        assert_eq!(jdb.history().era_len(era), 0);
    }
    for (index, key) in keys.iter().enumerate() {
        assert_eq!(store.get(&key.to_vec()), Some(&vec![index as u8, 0xaa]));
    }
}
