use asb::amt_node::NodeIndex;

type Index = NodeIndex<6>;

#[test]
fn test_needs_maintain() {
    let shard_root = Index::new(3, 4);
    assert!(Index::new(0, 0).needs_maintain(&shard_root));
    assert!(Index::new(1, 0).needs_maintain(&shard_root));
    assert!(Index::new(2, 3).needs_maintain(&shard_root));
    assert!(Index::new(3, 5).needs_maintain(&shard_root));
    assert!(Index::new(4, 8).needs_maintain(&shard_root));
    assert!(Index::new(4, 9).needs_maintain(&shard_root));
    assert!(Index::new(6, 32).needs_maintain(&shard_root));
    assert!(Index::new(6, 39).needs_maintain(&shard_root));

    assert!(!Index::new(1, 1).needs_maintain(&shard_root));
    assert!(!Index::new(2, 0).needs_maintain(&shard_root));
    assert!(!Index::new(2, 2).needs_maintain(&shard_root));
    assert!(!Index::new(3, 2).needs_maintain(&shard_root));
    assert!(!Index::new(3, 4).needs_maintain(&shard_root));
    assert!(!Index::new(4, 2).needs_maintain(&shard_root));
    assert!(!Index::new(4, 7).needs_maintain(&shard_root));
    assert!(!Index::new(4, 10).needs_maintain(&shard_root));
    assert!(!Index::new(6, 7).needs_maintain(&shard_root));
    assert!(!Index::new(6, 31).needs_maintain(&shard_root));
    assert!(!Index::new(6, 40).needs_maintain(&shard_root));
}

#[test]
fn sibling_of_sibling_is_self() {
    let i = Index::new(4, 9);
    let s = i.to_sibling();
    assert_eq!(s.depth(), 4);
    assert_eq!(s.index(), 8);
    let back = s.to_sibling();
    assert_eq!(back.index(), 9);
}

#[test]
fn ancestor_and_root() {
    let i = Index::new(6, 39);
    let a = i.to_ancestor(2);
    assert_eq!(a.depth(), 4);
    assert_eq!(a.index(), 9);
    let r = Index::root();
    assert_eq!(r.depth(), 0);
    assert_eq!(r.index(), 0);
    let l = Index::leaf(5);
    assert_eq!(l.depth(), 6);
    assert_eq!(l.total_depth(), 6);
}
