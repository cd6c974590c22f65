use jellyfish_merkle::hash::{hash_internal, hash_leaf, placeholder_hash, AccountStateBlob, HashValue};
use jellyfish_merkle::internal::{Child, Children, InternalNode};
use jellyfish_merkle::nibble::{Nibble, NibblePath};
use jellyfish_merkle::node::{Node, NodeDecodeError};
use jellyfish_merkle::node_key::{NodeKey, Version};

fn h(b: u8) -> HashValue {
    HashValue::new([b; 32])
}


fn p() -> HashValue {
    placeholder_hash()
}

// A node key with 63 nibbles.
fn node_key_63() -> NodeKey {
    let mut bytes: Vec<u8> = (0..32u8).map(|i| i.wrapping_mul(37).wrapping_add(11)).collect();
    *bytes.last_mut().unwrap() &= 0xf0;
    NodeKey::new(0, NibblePath::new_odd(bytes))
}

// The key of the child at `nibble` below a 63-nibble node, and the account key
// that its full path spells.
fn gen_leaf_keys(version: Version, nibble_path: &NibblePath, nibble: Nibble) -> (NodeKey, HashValue) {
    assert_eq!(nibble_path.num_nibbles(), 63);
    let mut np = nibble_path.clone();
    np.push(nibble);
    let account_key = HashValue::from_slice(&np.bytes()).unwrap();
    (NodeKey::new(version, np), account_key)
}

fn nib(v: u8) -> Nibble {
    Nibble::new(v)
}

#[test]
fn test_encode_decode() {
    let internal_node_key = node_key_63();

    let leaf1_keys = gen_leaf_keys(0, internal_node_key.nibble_path(), nib(1));
    let leaf1_node = Node::new_leaf(leaf1_keys.1, AccountStateBlob::new(vec![0x00]));
    let leaf2_keys = gen_leaf_keys(0, internal_node_key.nibble_path(), nib(2));
    let leaf2_node = Node::new_leaf(leaf2_keys.1, AccountStateBlob::new(vec![0x01]));

    let mut children = Children::default();
    children.insert(nib(1), Child::new(leaf1_node.hash(), 0, true));
    children.insert(nib(2), Child::new(leaf2_node.hash(), 0, true));

    let account_key = h(0x5a);
    let nodes = vec![
        Node::new_internal(children),
        Node::new_leaf(account_key, AccountStateBlob::new(vec![0x02])),
    ];
    for n in &nodes {
        let v = n.encode();
        assert_eq!(*n, Node::decode(&v).unwrap());
    }
    // Error cases
    assert_eq!(Node::decode(&[]), Err(NodeDecodeError::EmptyInput));
    assert_eq!(
        Node::decode(&[100]),
        Err(NodeDecodeError::UnknownTag { unknown_tag: 100 })
    );
}

#[test]
fn test_leaf_hash() {
    let address = h(0x11);
    let blob = AccountStateBlob::new(vec![0x02]);
    let value_hash = blob.hash();
    let hash = hash_leaf(&address, &value_hash);
    let leaf_node = Node::new_leaf(address, blob);
    assert_eq!(leaf_node.hash(), hash);
}

#[test]
fn two_leaves_test1() {
    for a in 0..8u8 {
        for b in 8..16u8 {
            let internal_node_key = node_key_63();
            let mut internal_node = InternalNode::new(Children::default());
            let (index1, index2) = (nib(a), nib(b));
            let leaf1_node_key = gen_leaf_keys(0, internal_node_key.nibble_path(), index1).0;
            let leaf2_node_key = gen_leaf_keys(1, internal_node_key.nibble_path(), index2).0;
            let hash1 = h(0xa1);
            let hash2 = h(0xa2);
            internal_node.set_child(index1, Child::new(hash1, 0, true));
            internal_node.set_child(index2, Child::new(hash2, 1, true));

            assert_eq!(internal_node.hash(), hash_internal(&hash1, &hash2));
            for i in 0..8 {
                assert_eq!(
                    internal_node.get_child_with_siblings(&internal_node_key, nib(i)),
                    (Some(leaf1_node_key.clone()), vec![hash2])
                );
            }
            for i in 8..16 {
                assert_eq!(
                    internal_node.get_child_with_siblings(&internal_node_key, nib(i)),
                    (Some(leaf2_node_key.clone()), vec![hash1])
                );
            }
        }
    }
}

#[test]
fn two_leaves_test2() {
    for a in 4..6u8 {
        for b in 6..8u8 {
            let internal_node_key = node_key_63();
            let mut internal_node = InternalNode::new(Children::default());
            let (index1, index2) = (nib(a), nib(b));
            let leaf1_node_key = gen_leaf_keys(0, internal_node_key.nibble_path(), index1).0;
            let leaf2_node_key = gen_leaf_keys(1, internal_node_key.nibble_path(), index2).0;
            let hash1 = h(0xb1);
            let hash2 = h(0xb2);
            internal_node.set_child(index1, Child::new(hash1, 0, true));
            internal_node.set_child(index2, Child::new(hash2, 1, true));

            let hash_x1 = hash_internal(&hash1, &hash2);
            let hash_x2 = hash_internal(&p(), &hash_x1);
            let root_hash = hash_internal(&hash_x2, &p());
            assert_eq!(internal_node.hash(), root_hash);

            for i in 0..4 {
                assert_eq!(
                    internal_node.get_child_with_siblings(&internal_node_key, nib(i)),
                    (None, vec![p(), hash_x1])
                );
            }
            for i in 4..6 {
                assert_eq!(
                    internal_node.get_child_with_siblings(&internal_node_key, nib(i)),
                    (Some(leaf1_node_key.clone()), vec![p(), p(), hash2])
                );
            }
            for i in 6..8 {
                assert_eq!(
                    internal_node.get_child_with_siblings(&internal_node_key, nib(i)),
                    (Some(leaf2_node_key.clone()), vec![p(), p(), hash1])
                );
            }
            for i in 8..16 {
                assert_eq!(
                    internal_node.get_child_with_siblings(&internal_node_key, nib(i)),
                    (None, vec![hash_x2])
                );
            }
        }
    }
}

#[test]
fn three_leaves_test1() {
    for a in 0..4u8 {
        for b in 4..8u8 {
            for c in 8..16u8 {
                let internal_node_key = node_key_63();
                let mut internal_node = InternalNode::new(Children::default());
                let (index1, index2, index3) = (nib(a), nib(b), nib(c));
                let leaf1_node_key = gen_leaf_keys(0, internal_node_key.nibble_path(), index1).0;
                let leaf2_node_key = gen_leaf_keys(1, internal_node_key.nibble_path(), index2).0;
                let leaf3_node_key = gen_leaf_keys(2, internal_node_key.nibble_path(), index3).0;
                let hash1 = h(0xc1);
                let hash2 = h(0xc2);
                let hash3 = h(0xc3);
                internal_node.set_child(index1, Child::new(hash1, 0, true));
                internal_node.set_child(index2, Child::new(hash2, 1, true));
                internal_node.set_child(index3, Child::new(hash3, 2, true));

                let hash_x = hash_internal(&hash1, &hash2);
                let root_hash = hash_internal(&hash_x, &hash3);
                assert_eq!(internal_node.hash(), root_hash);

                for i in 0..4 {
                    assert_eq!(
                        internal_node.get_child_with_siblings(&internal_node_key, nib(i)),
                        (Some(leaf1_node_key.clone()), vec![hash3, hash2])
                    );
                }
                for i in 4..8 {
                    assert_eq!(
                        internal_node.get_child_with_siblings(&internal_node_key, nib(i)),
                        (Some(leaf2_node_key.clone()), vec![hash3, hash1])
                    );
                }
                for i in 8..16 {
                    assert_eq!(
                        internal_node.get_child_with_siblings(&internal_node_key, nib(i)),
                        (Some(leaf3_node_key.clone()), vec![hash_x])
                    );
                }
            }
        }
    }
}

// Non-leaf children hash and prove exactly as leaves do: a range with one
// child takes that child's digest, whatever its kind.
#[test]
fn mixed_nodes_test() {
    for a in 0..2u8 {
        for b in 8..16u8 {
            let internal_node_key = node_key_63();
            let mut internal_node = InternalNode::new(Children::default());
            let (index1, index2) = (nib(a), nib(b));
            let leaf1_node_key = gen_leaf_keys(0, internal_node_key.nibble_path(), index1).0;
            let internal2_node_key = gen_leaf_keys(1, internal_node_key.nibble_path(), nib(2)).0;
            let internal3_node_key = gen_leaf_keys(2, internal_node_key.nibble_path(), nib(7)).0;
            let leaf4_node_key = gen_leaf_keys(3, internal_node_key.nibble_path(), index2).0;
            let hash1 = h(0xd1);
            let hash2 = h(0xd2);
            let hash3 = h(0xd3);
            let hash4 = h(0xd4);
            internal_node.set_child(index1, Child::new(hash1, 0, true));
            internal_node.set_child(nib(2), Child::new(hash2, 1, false));
            internal_node.set_child(nib(7), Child::new(hash3, 2, false));
            internal_node.set_child(index2, Child::new(hash4, 3, true));

            let hash_x1 = hash_internal(&hash1, &hash2);
            let hash_x2 = hash_internal(&hash_x1, &hash3);
            let root_hash = hash_internal(&hash_x2, &hash4);
            assert_eq!(internal_node.hash(), root_hash);

            for i in 0..2 {
                assert_eq!(
                    internal_node.get_child_with_siblings(&internal_node_key, nib(i)),
                    (Some(leaf1_node_key.clone()), vec![hash4, hash3, hash2])
                );
            }
            for i in 2..4 {
                assert_eq!(
                    internal_node.get_child_with_siblings(&internal_node_key, nib(i)),
                    (Some(internal2_node_key.clone()), vec![hash4, hash3, hash1])
                );
            }
            for i in 4..8 {
                assert_eq!(
                    internal_node.get_child_with_siblings(&internal_node_key, nib(i)),
                    (Some(internal3_node_key.clone()), vec![hash4, hash_x1])
                );
            }
            for i in 8..16 {
                assert_eq!(
                    internal_node.get_child_with_siblings(&internal_node_key, nib(i)),
                    (Some(leaf4_node_key.clone()), vec![hash_x2])
                );
            }
        }
    }
}

// Non-leaf children: the flag changes nothing in hashing or proofs.
#[test]
fn test_internal_hash_and_proof() {
    // non-leaf case 1
    {
        let internal_node_key = node_key_63();
        let mut internal_node = InternalNode::new(Children::default());
        let index1 = nib(4);
        let index2 = nib(15);
        let hash1 = h(0xe1);
        let hash2 = h(0xe2);
        let child1_node_key = gen_leaf_keys(0, internal_node_key.nibble_path(), index1).0;
        let child2_node_key = gen_leaf_keys(1, internal_node_key.nibble_path(), index2).0;
        internal_node.set_child(index1, Child::new(hash1, 0, false));
        internal_node.set_child(index2, Child::new(hash2, 1, false));

        let root_hash = hash_internal(&hash1, &hash2);
        assert_eq!(internal_node.hash(), root_hash);
        for i in 0..8 {
            assert_eq!(
                internal_node.get_child_with_siblings(&internal_node_key, nib(i)),
                (Some(child1_node_key.clone()), vec![hash2])
            );
        }
        for i in 8..16 {
            assert_eq!(
                internal_node.get_child_with_siblings(&internal_node_key, nib(i)),
                (Some(child2_node_key.clone()), vec![hash1])
            );
        }
    }

    // non-leaf case 2
    {
        let internal_node_key = node_key_63();
        let mut internal_node = InternalNode::new(Children::default());
        let index1 = nib(0);
        let index2 = nib(7);
        let hash1 = h(0xf1);
        let hash2 = h(0xf2);
        let child1_node_key = gen_leaf_keys(0, internal_node_key.nibble_path(), index1).0;
        let child2_node_key = gen_leaf_keys(1, internal_node_key.nibble_path(), index2).0;
        internal_node.set_child(index1, Child::new(hash1, 0, false));
        internal_node.set_child(index2, Child::new(hash2, 1, false));

        let hash_x = hash_internal(&hash1, &hash2);
        let root_hash = hash_internal(&hash_x, &p());
        assert_eq!(internal_node.hash(), root_hash);
        for i in 0..4 {
            assert_eq!(
                internal_node.get_child_with_siblings(&internal_node_key, nib(i)),
                (Some(child1_node_key.clone()), vec![p(), hash2])
            );
        }
        for i in 4..8 {
            assert_eq!(
                internal_node.get_child_with_siblings(&internal_node_key, nib(i)),
                (Some(child2_node_key.clone()), vec![p(), hash1])
            );
        }
        for i in 8..16 {
            assert_eq!(
                internal_node.get_child_with_siblings(&internal_node_key, nib(i)),
                (None, vec![hash_x])
            );
        }
    }
}
