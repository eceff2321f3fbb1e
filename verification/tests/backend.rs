use asb::backend::{is_prefix, DatabaseWithMetrics};
use asb::kv::DBTransaction;

#[test]
fn counts_reads_and_writes() {
    let mut m = DatabaseWithMetrics::new();
    m.record_read(10);
    m.record_read(0);
    assert_eq!(m.reads, 2);
    assert_eq!(m.bytes_read, 10);
    let mut tx = DBTransaction::new();
    tx.put(0, b"k", b"value");
    tx.delete(0, b"x");
    m.record_write(&tx);
    assert_eq!(m.writes, 2);
    assert_eq!(m.bytes_written, 5);
}

#[test]
fn prefix_test() {
    assert!(is_prefix(b"ab", b"abc"));
    assert!(is_prefix(b"", b"abc"));
    assert!(!is_prefix(b"abcd", b"abc"));
    assert!(!is_prefix(b"b", b"abc"));
}
