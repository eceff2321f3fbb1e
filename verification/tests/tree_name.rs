use asb::serde::{MyFromBytes, MyToBytes};
use asb::tree_name::TreeName;

#[test]
fn test_tree_name_string() {
    assert_eq!(TreeName(vec![]).to_bytes_consensus(), [0u8]);

    assert_eq!(
        TreeName(vec![1]).to_bytes_consensus(),
        [1u8, 1u8, 0u8, 0u8, 0u8]
    );

    assert_eq!(
        TreeName::from_bytes_consensus(&TreeName(vec![1, 2, 3]).to_bytes_consensus()).unwrap(),
        TreeName(vec![1, 2, 3])
    );
}

#[test]
fn child_then_parent() {
    let root = TreeName::root();
    let c = root.child(7);
    assert_eq!(c, TreeName(vec![7]));
    assert_eq!(c.level_index(), Some(7));
    assert_eq!(c.parent(), Some(root));
    assert_eq!(TreeName::root().parent(), None);
}

#[test]
fn truncated_name_fails() {
    let bytes = TreeName(vec![1, 2]).to_bytes_consensus();
    assert!(TreeName::from_bytes_consensus(&bytes[..bytes.len() - 1]).is_err());
}
