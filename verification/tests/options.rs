use asb::options::{parse_algo, parse_backend, parse_num, AuthAlgo, Backend, Options};

fn opts(algorithm: AuthAlgo) -> Options {
    Options {
        algorithm,
        backend: Backend::RocksDB,
        total_keys: 100000,
        seed: 64,
        cache_size: 1500,
        max_time: None,
        max_epoch: None,
        report_epoch: 2,
        profile_epoch: 100,
        epoch_size: 50000,
        report_dir: None,
        db_dir: "./__benchmarks".to_string(),
        trace_dir: "./trace".to_string(),
        real_trace: false,
        no_stat: false,
        stat_mem: false,
        no_warmup: false,
        print_root: false,
        warmup_to: Some("warm".to_string()),
        warmup_from: None,
        shards: None,
    }
}

#[test]
fn parse_algorithms() {
    assert_eq!(parse_algo("raw"), Ok(AuthAlgo::RAW));
    assert_eq!(parse_algo("lvmt"), Ok(AuthAlgo::LVMT));
    assert_eq!(parse_algo("mpt"), Ok(AuthAlgo::MPT));
    assert_eq!(parse_algo("lmpts"), Ok(AuthAlgo::LMPTS));
    assert_eq!(parse_algo("rain"), Ok(AuthAlgo::RAIN));
    assert_eq!(parse_algo("amt20"), Ok(AuthAlgo::AMT(20)));
    assert_eq!(parse_algo("amt"), Err("Unrecognized algorithm".to_string()));
    assert_eq!(parse_algo("amtx"), Err("invalid digit found in string".to_string()));
    assert_eq!(parse_algo("foo"), Err("Unrecognized algorithm".to_string()));
}

#[test]
fn parse_backends() {
    assert_eq!(parse_backend("rocksdb"), Ok(Backend::RocksDB));
    assert_eq!(parse_backend("memory"), Ok(Backend::InMemoryDB));
    assert_eq!(parse_backend("mdbx"), Ok(Backend::MDBX));
    assert_eq!(parse_backend("lmdb"), Err("Unrecognized backend".to_string()));
}

#[test]
fn parse_numbers() {
    assert_eq!(parse_num("100000"), Ok(100000));
    assert_eq!(parse_num("2m"), Ok(2_000_000));
    assert_eq!(parse_num("3K"), Ok(3_000));
    assert_eq!(parse_num("1g"), Ok(1_000_000_000));
    assert_eq!(parse_num("+7"), Ok(7));
    assert_eq!(parse_num(""), Err("empty input".to_string()));
    assert_eq!(parse_num("k"), Err("cannot parse integer from empty string".to_string()));
    assert_eq!(parse_num("1x"), Err("invalid digit found in string".to_string()));
    assert_eq!(
        parse_num("99999999999999999999999"),
        Err("number too large to fit in target type".to_string())
    );
}

#[test]
fn settings_and_warmup_dirs() {
    let o = opts(AuthAlgo::MPT);
    assert_eq!(o.settings(), format!("{:?},{:e}", AuthAlgo::MPT, 100000usize));
    assert_eq!(o.settings(), "MPT,1e5");
    assert_eq!(o.warmup_to(), Some("warm/MPT_1e5/".to_string()));
    assert_eq!(o.warmup_from(), None);
    let mut o = opts(AuthAlgo::AMT(20));
    o.total_keys = 1500;
    assert_eq!(o.settings(), "AMT(20),1.5e3");
    let mut o = opts(AuthAlgo::LVMT);
    o.shards = Some(64);
    o.real_trace = true;
    assert_eq!(o.warmup_dir("d"), "d/LVMT64_real/");
    assert_eq!(o.num_cols(), 3);
    assert_eq!(opts(AuthAlgo::RAIN).num_cols(), 1);
}

#[test]
fn exponent_format_matches_std() {
    for n in [0usize, 1, 9, 10, 12, 100, 1200, 123456, 1000000007, usize::MAX] {
        let mut o = opts(AuthAlgo::RAW);
        o.total_keys = n;
        assert_eq!(o.settings(), format!("RAW,{:e}", n));
    }
}
