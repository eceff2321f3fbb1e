use asb::options::{AuthAlgo, Backend, Options};
use asb::tasks::{
    group_events, hash, key_of, read_write_events, take_warmup_keys, warmup_events, Event, Events,
    NoopIter, RealTrace, TaskProducer,
};

fn opts(algorithm: AuthAlgo) -> Options {
    Options {
        algorithm,
        backend: Backend::InMemoryDB,
        total_keys: 10,
        seed: 64,
        cache_size: 1500,
        max_time: None,
        max_epoch: None,
        report_epoch: 2,
        profile_epoch: 100,
        epoch_size: 3,
        report_dir: None,
        db_dir: "db".to_string(),
        trace_dir: "trace".to_string(),
        real_trace: true,
        no_stat: false,
        stat_mem: false,
        no_warmup: false,
        print_root: false,
        warmup_to: None,
        warmup_from: None,
        shards: None,
    }
}

fn expected_hash(input: &[u8]) -> [u8; 32] {
    let mut d = crc64fast::Digest::new();
    d.write(input);
    let c = d.sum64().to_le_bytes();
    let mut out = [0u8; 32];
    for i in 0..4 {
        out[i * 8..i * 8 + 8].copy_from_slice(&c);
    }
    out
}

#[test]
fn hash_repeats_the_checksum() {
    assert_eq!(hash(b"hello world!"), expected_hash(b"hello world!"));
    assert_eq!(key_of(5), expected_hash(&5usize.to_be_bytes()).to_vec());
}

#[test]
fn random_batch_reads_then_writes() {
    let events = read_write_events(&[(1, [7u8; 32]), (2, [8u8; 32])]);
    assert_eq!(events.0.len(), 4);
    match (&events.0[0], &events.0[1]) {
        (Event::Read(k), Event::Write(k2, v)) => {
            assert_eq!(k, &key_of(1));
            assert_eq!(k2, &key_of(1));
            assert_eq!(v, &vec![7u8; 32]);
        }
        _ => panic!("expected a read then a write"),
    }
}

#[test]
fn warmup_takes_keys_from_the_end() {
    let mut keys = vec![1usize, 2, 3, 4, 5];
    let batch = take_warmup_keys(&mut keys, 3);
    assert_eq!(batch, vec![5, 4, 3]);
    assert_eq!(keys, vec![1, 2]);
    let batch2 = take_warmup_keys(&mut keys, 3);
    assert_eq!(batch2, vec![2, 1]);
    assert!(keys.is_empty());
    let values = vec![[1u8; 32], [2u8; 32]];
    let events = warmup_events(&batch2, &values).unwrap();
    assert_eq!(events.0.len(), 2);
    assert!(warmup_events(&[], &[]).is_none());
}

#[test]
fn producer_hands_out_last_block_first() {
    let mut p = TaskProducer::new(2);
    assert!(p.needs_group());
    let group = vec![Events(vec![Event::Read(vec![1])]), Events(vec![Event::Read(vec![2])])];
    let first = p.pick_next(Some(group)).unwrap();
    assert!(matches!(&first.0[0], Event::Read(k) if k == &vec![2u8]));
    let second = p.pick_next(None).unwrap();
    assert!(matches!(&second.0[0], Event::Read(k) if k == &vec![1u8]));
    assert!(p.pick_next(None).is_none());
    let merged = group_events(vec![first, second]).unwrap();
    assert_eq!(merged.0.len(), 2);
    assert!(group_events(vec![Events(vec![])]).is_none());
    assert!(NoopIter.next().is_none());
}

#[test]
fn real_trace_grouping() {
    assert_eq!(RealTrace::new(&opts(AuthAlgo::RAIN), None).group_size, 50);
    assert_eq!(RealTrace::new(&opts(AuthAlgo::MPT), None).group_size, 50);
    assert_eq!(RealTrace::new(&opts(AuthAlgo::LVMT), None).group_size, 1);
    let init: Vec<([u8; 32], Vec<u8>)> = (0..2500u32).map(|i| ([i as u8; 32], vec![1])).collect();
    let t = RealTrace::new(&opts(AuthAlgo::RAW), Some(init));
    let batches = t.warmup();
    assert_eq!(batches.len(), 3);
    assert_eq!(batches[0].0.len(), 1000);
    assert_eq!(batches[2].0.len(), 500);
}

#[test]
fn warmup_run_takes_every_key_once_in_full_batches() {
    let mut keys: Vec<usize> = (0..10).collect();
    let mut batches = Vec::new();
    while !keys.is_empty() {
        batches.push(asb::tasks::take_warmup_keys(&mut keys, 3));
    }
    assert_eq!(batches.iter().map(|b| b.len()).collect::<Vec<_>>(), vec![3, 3, 3, 1]);
    let joined: Vec<usize> = batches.concat();
    assert_eq!(joined, (0..10).rev().collect::<Vec<_>>());
}
