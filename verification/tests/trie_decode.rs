use asb::nibble::Nibble;
use asb::trie_decode::decode_node;
use asb::trie_node::{ChildRef, ChildRefGroup, TrieNode};

fn nibbles(v: &[u8]) -> Vec<Nibble> {
    v.iter().map(|x| Nibble::from_lo(*x)).collect()
}

#[test]
fn leaf_decodes_back() {
    let leaf = TrieNode::Leaf { key: nibbles(&[1, 2]), value: vec![0x34] };
    let bytes = leaf.rlp_bytes();
    assert_eq!(bytes, vec![0xc4, 0x82, 0x20, 0x12, 0x34]);
    let back = decode_node(&bytes).unwrap();
    assert_eq!(back.rlp_bytes(), bytes);
    match back {
        TrieNode::Leaf { key, value } => {
            assert_eq!(key.iter().map(|n| n.inner()).collect::<Vec<_>>(), vec![1, 2]);
            assert_eq!(value, vec![0x34]);
        }
        _ => panic!("a leaf decodes as a leaf"),
    }
}

#[test]
fn branch_with_hash_and_inline_children_decodes_back() {
    let mut children: Vec<ChildRef> = (0..16).map(|_| ChildRef::Null).collect();
    children[3] = ChildRef::Ref([9u8; 32]);
    children[7] = ChildRef::Owned(Box::new(TrieNode::Leaf { key: nibbles(&[5]), value: vec![1, 2, 3] }));
    let branch = TrieNode::Branch { children: ChildRefGroup(children), value: vec![] };
    let bytes = branch.rlp_bytes();
    let back = decode_node(&bytes).unwrap();
    assert_eq!(back.rlp_bytes(), bytes);
    match back {
        TrieNode::Branch { children, value } => {
            assert!(value.is_empty());
            assert!(matches!(children.0[3], ChildRef::Ref(h) if h == [9u8; 32]));
            assert!(matches!(children.0[7], ChildRef::Owned(_)));
            assert!(matches!(children.0[0], ChildRef::Null));
        }
        _ => panic!("a branch decodes as a branch"),
    }
}

#[test]
fn extension_decodes_back_and_garbage_does_not() {
    let ext = TrieNode::Extension { key: nibbles(&[0xa, 0xb, 0xc]), child: ChildRef::Ref([4u8; 32]) };
    let bytes = ext.rlp_bytes();
    let back = decode_node(&bytes).unwrap();
    assert!(matches!(back, TrieNode::Extension { .. }));
    assert_eq!(back.rlp_bytes(), bytes);

    assert!(decode_node(&[]).is_none());
    assert!(decode_node(&[0x80]).is_none());
    let mut truncated = bytes.clone();
    truncated.pop();
    assert!(decode_node(&truncated).is_none());
    let mut longer = bytes.clone();
    longer.push(0);
    assert!(decode_node(&longer).is_none());
}
