use asb::kv::{DBOp, DBTransaction};
use asb::rain_mpt::MerklePatriciaTree;
use rand::rngs::StdRng;
use rand::seq::SliceRandom;
use rand::SeedableRng;
use std::collections::HashMap;

type Bytes = Vec<u8>;

fn apply(store: &mut HashMap<Vec<u8>, Vec<u8>>, tx: &DBTransaction) {
    for op in &tx.ops {
        match op {
            DBOp::Insert { key, value, .. } => {
                store.insert(key.clone(), value.clone());
            }
            DBOp::Delete { key, .. } => {
                store.remove(key);
            }
        }
    }
}

#[test]
fn test_put_random() {
    let mut rng = StdRng::seed_from_u64(123);

    let mut trie = MerklePatriciaTree::<3>::new();
    let mut tasks: Vec<(Bytes, Bytes)> = (0..=255u8).map(|x| (vec![x], vec![x])).collect();
    tasks.shuffle(&mut rng);

    for (key, value) in tasks.drain(..) {
        trie.put(key, value);
    }

    for i in 0..=255u8 {
        assert_eq!(
            trie.get(vec![i]),
            Some(vec![i]),
            "Fail on position {} before commit",
            i
        );
    }

    let (first_hash, _) = trie.commit();

    for i in 0..=255u8 {
        assert_eq!(
            trie.get(vec![i]),
            Some(vec![i]),
            "Fail on position {} after commit",
            i
        );
    }

    let mut another_trie = MerklePatriciaTree::<3>::new();

    for i in 0..=255 {
        another_trie.put(vec![i], vec![i]);
    }
    let (second_hash, _) = another_trie.commit();

    assert_eq!(first_hash, second_hash);
}

#[test]
fn similar_prefixes_read_back_and_hash_alike() {
    let mut rng = StdRng::seed_from_u64(124);
    let last_byte = vec![0x00, 0xf0, 0xff];
    let make_key =
        |x: usize| -> Vec<u8> { [&vec![0xff; x / 3][..], &last_byte[x % 3..=x % 3]].concat() };
    let make_value = |x: usize| -> Vec<u8> { vec![x as u8] };
    const SAMPLES: usize = 256;

    let mut trie = MerklePatriciaTree::<1000>::new();
    let mut tasks: Vec<usize> = (0..SAMPLES).collect();
    tasks.shuffle(&mut rng);
    for i in tasks.drain(..) {
        trie.put(make_key(i), make_value(i));
    }
    for i in 0..SAMPLES {
        assert_eq!(trie.get(make_key(i)), Some(make_value(i)));
    }
    let (first_hash, _) = trie.commit();
    for i in 0..SAMPLES {
        assert_eq!(
            trie.get(make_key(i)),
            Some(make_value(i)),
            "Fail on position {} after commit",
            i
        );
    }

    let mut store = HashMap::new();
    let mut trie2 = MerklePatriciaTree::<3>::new();
    for i in 0..SAMPLES {
        trie2.put(make_key(i), make_value(i));
    }
    let (second_hash, tx) = trie2.commit();
    apply(&mut store, &tx);
    assert_eq!(first_hash, second_hash);
    assert_eq!(store.get(&vec![0x80u8]), Some(&second_hash.to_vec()));

    // Every read is answered from memory; reading all keys changes nothing.
    for i in 0..SAMPLES {
        assert_eq!(trie2.get(make_key(i)), Some(make_value(i)));
    }
    let (again_hash, again_tx) = trie2.commit();
    assert_eq!(again_hash, second_hash);
    assert_eq!(again_tx.ops.len(), 1);

    // Flushing writes the top layers, none of which the store held yet.
    let dumped_nodes = store.len();
    let flushed = trie2.flush_all();
    let top_nodes = flushed.ops.len();
    assert!(top_nodes > 0);
    apply(&mut store, &flushed);
    assert_eq!(dumped_nodes + top_nodes, store.len());
    assert!(trie2.flush_all().ops.len() == top_nodes);

    let mut tasks: Vec<usize> = (0..SAMPLES).collect();
    tasks.shuffle(&mut rng);
    for i in tasks.drain(..) {
        assert_eq!(trie2.get(make_key(i)), Some(make_value(i)), "Fail in deletion");
        trie2.put(make_key(i), vec![]);
    }
    let (empty_hash, tx) = trie2.commit();
    apply(&mut store, &tx);
    assert_eq!(empty_hash, [0u8; 32]);
    assert!(store.is_empty());
    assert_eq!(trie2.root(), None);
}

#[test]
fn empty_value_deletes() {
    let mut trie = MerklePatriciaTree::<2>::new();
    trie.put(vec![1, 2], vec![9]);
    trie.put(vec![1, 3], vec![8]);
    assert_eq!(trie.get(vec![1, 2]), Some(vec![9]));
    trie.put(vec![1, 2], vec![]);
    assert_eq!(trie.get(vec![1, 2]), None);
    assert_eq!(trie.get(vec![1, 3]), Some(vec![8]));
}

#[test]
fn empty_trie_commit() {
    let mut trie = MerklePatriciaTree::<2>::new();
    let (h, tx) = trie.commit();
    assert_eq!(h, [0u8; 32]);
    assert_eq!(tx.ops.len(), 1);
    match &tx.ops[0] {
        DBOp::Delete { key, .. } => assert_eq!(key, &vec![0x80u8]),
        DBOp::Insert { .. } => panic!("expected a removal of the root key"),
    }
}

#[test]
fn single_leaf_root_hash_is_keccak_of_encoding() {
    let mut trie = MerklePatriciaTree::<2>::new();
    trie.put(vec![0x12], vec![0x34]);
    // A leaf with the whole key [1, 2] (even, so hex prefix 0x20 0x12) and value 0x34.
    let encoding = vec![0xc4u8, 0x82, 0x20, 0x12, 0x34];
    let expected = keccak_hash::keccak(&encoding).0;
    assert_eq!(trie.root(), Some(expected));
}

#[test]
fn same_entries_give_same_root_whatever_the_history() {
    let mut a = MerklePatriciaTree::<2>::new();
    a.put(vec![0x12, 0x34], vec![1]);
    a.put(vec![0x12, 0x56], vec![2]);
    a.put(vec![0x78], vec![3]);

    let mut b = MerklePatriciaTree::<2>::new();
    b.put(vec![0x78], vec![3]);
    b.put(vec![0x12], vec![9]);
    b.put(vec![0x12, 0x56], vec![7]);
    b.put(vec![0x12, 0x34], vec![1]);
    b.put(vec![0x12, 0x56], vec![2]);
    b.put(vec![0x12], vec![]);

    assert!(a.root().is_some());
    assert_eq!(a.root(), b.root());
    assert_eq!(a.commit().0, b.commit().0);
}

#[test]
fn get_reads_back_put_and_bare_branch_reads_empty() {
    let mut trie = MerklePatriciaTree::<2>::new();
    trie.put(vec![0x12, 0x34], vec![5]);
    trie.put(vec![0x12, 0x56], vec![6]);
    assert_eq!(trie.get(vec![0x12, 0x34]), Some(vec![5]));
    assert_eq!(trie.get(vec![0x12, 0x56]), Some(vec![6]));
    // The two keys part after the nibbles 1, 2: a branch without a value.
    assert_eq!(trie.get(vec![0x12]), Some(vec![]));
    assert_eq!(trie.get(vec![0x99]), None);
}
