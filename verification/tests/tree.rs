use bplus_tree::bplus_tree::bplus_tree::BPlusTree;
use bplus_tree::bplus_tree::bplus_tree::ForceResult;
use bplus_tree::bplus_tree::bplus_tree::NodeRef;
use bplus_tree::bplus_tree::bplus_tree::CAPACITY;
use bplus_tree::bplus_tree::bplus_tree::INTERNAL_CHILDREN_CAPACITY;
use bplus_tree::bplus_tree::bplus_tree::MIN_LEN;
use std::collections::BTreeMap;

/// Walks a subtree and checks its shape: fill of every node but the root,
/// one height below each node, ascending keys, and separators that bound
/// what stands on either side. Returns the keys of the subtree in order.
fn walk(node: &NodeRef<u64, u64>, is_root: bool) -> Vec<u64> {
    match node.force() {
        ForceResult::Leaf(leaf) => {
            assert_eq!(node.height(), 0);
            assert_eq!(leaf.keys.len(), leaf.vals.len());
            assert!(leaf.keys.len() <= CAPACITY);
            if !is_root {
                assert!(leaf.keys.len() >= MIN_LEN);
            }
            for w in leaf.keys.windows(2) {
                assert!(w[0] < w[1]);
            }
            leaf.keys.clone()
        }
        ForceResult::Internal(inner) => {
            assert!(node.height() > 0);
            assert_eq!(inner.children.len(), inner.keys.len() + 1);
            assert!(inner.children.len() <= INTERNAL_CHILDREN_CAPACITY);
            if !is_root {
                assert!(inner.children.len() >= MIN_LEN + 1);
            }
            let mut all = Vec::new();
            for (i, child) in inner.children.iter().enumerate() {
                assert_eq!(child.height() + 1, node.height());
                let below = walk(child, false);
                assert!(!below.is_empty());
                if i > 0 {
                    assert!(inner.keys[i - 1] < below[0]);
                }
                if i < inner.keys.len() {
                    assert!(below[below.len() - 1] <= inner.keys[i]);
                }
                all.extend(below);
            }
            all
        }
    }
}

fn check(tree: &BPlusTree<u64, u64>) {
    let below = walk(tree.root(), true);
    assert_eq!(below, tree.keys());
    assert_eq!(below.len(), tree.len());
    for w in below.windows(2) {
        assert!(w[0] < w[1]);
    }
}

#[test]
fn new_tree_is_an_empty_leaf() {
    let tree: BPlusTree<u64, u64> = BPlusTree::new();
    assert_eq!(tree.height(), 0);
    assert_eq!(tree.len(), 0);
    assert_eq!(tree.keys(), Vec::<u64>::new());
    assert_eq!(tree.values(), Vec::<u64>::new());
    assert_eq!(tree.get(&1), None);
    check(&tree);
}

#[test]
fn five_ascending_keys_fit_and_the_sixth_splits() {
    let mut tree: BPlusTree<u64, u64> = BPlusTree::new();
    for k in 1..=5u64 {
        assert_eq!(tree.insert(k, k), None);
    }
    assert_eq!(tree.keys(), vec![1, 2, 3, 4, 5]);
    assert_eq!(tree.height(), 0);
    assert_eq!(tree.insert(6, 6), None);
    assert_eq!(tree.height(), 1);
    match tree.root().force() {
        ForceResult::Internal(root) => {
            assert_eq!(root.keys, vec![2]);
            assert_eq!(root.children.len(), 2);
            match root.children[0].force() {
                ForceResult::Leaf(left) => assert_eq!(left.keys, vec![1, 2]),
                ForceResult::Internal(_) => panic!("the left child is a leaf"),
            }
            match root.children[1].force() {
                ForceResult::Leaf(right) => assert_eq!(right.keys, vec![3, 4, 5, 6]),
                ForceResult::Internal(_) => panic!("the right child is a leaf"),
            }
        }
        ForceResult::Leaf(_) => panic!("the root is an internal node"),
    }
    assert_eq!(tree.keys(), vec![1, 2, 3, 4, 5, 6]);
    check(&tree);
}

#[test]
fn mixed_inserts_come_out_sorted() {
    let mut tree: BPlusTree<u64, u64> = BPlusTree::new();
    for k in [20u64, 10, 15, 18, 5, 1, 11, 50, 22, 13] {
        assert_eq!(tree.insert(k, k + 100), None);
        check(&tree);
    }
    assert_eq!(tree.keys(), vec![1, 5, 10, 11, 13, 15, 18, 20, 22, 50]);
    assert_eq!(tree.values(), vec![101, 105, 110, 111, 113, 115, 118, 120, 122, 150]);
}

#[test]
fn ten_thousand_random_keys() {
    let mut tree: BPlusTree<u64, u64> = BPlusTree::new();
    let mut model: BTreeMap<u64, u64> = BTreeMap::new();
    let mut state: u64 = 0x2545_f491_4f6c_dd1d;
    for i in 0..10_000u64 {
        state = state.wrapping_mul(6364136223846793005).wrapping_add(1442695040888963407);
        let key = (state >> 33) % 65536;
        assert_eq!(tree.insert(key, i), model.insert(key, i));
    }
    let keys = tree.keys();
    for w in keys.windows(2) {
        assert!(w[0] < w[1]);
    }
    assert_eq!(keys.len(), model.len());
    assert_eq!(keys, model.keys().copied().collect::<Vec<u64>>());
    assert_eq!(tree.values(), model.values().copied().collect::<Vec<u64>>());
    assert_eq!(tree.len(), model.len());
    check(&tree);
}

#[test]
fn deleting_twelve_keys_in_order_keeps_the_balance() {
    let mut tree: BPlusTree<u64, u64> = BPlusTree::new();
    for k in 1..=12u64 {
        tree.insert(k, k * 2);
    }
    check(&tree);
    assert_eq!(tree.height(), 1);
    for k in 1..=12u64 {
        assert_eq!(tree.delete(&k), Some(k * 2));
        check(&tree);
        assert_eq!(tree.get(&k), None);
        assert_eq!(tree.keys(), ((k + 1)..=12).collect::<Vec<u64>>());
    }
    assert_eq!(tree.keys(), Vec::<u64>::new());
    assert_eq!(tree.height(), 0);
    assert_eq!(tree.len(), 0);
}

#[test]
fn many_ascending_keys_reach_height_two() {
    let mut tree: BPlusTree<u64, u64> = BPlusTree::new();
    for k in 1..=(CAPACITY * CAPACITY) as u64 {
        tree.insert(k, k);
        check(&tree);
    }
    assert_eq!(tree.height(), 2);
    assert_eq!(tree.keys(), (1..=25).collect::<Vec<u64>>());
}

#[test]
fn ascending_keys_grow_the_tree_at_the_sixth_sixteenth_and_forty_sixth() {
    let mut tree: BPlusTree<u64, u64> = BPlusTree::new();
    for k in 1..=50u64 {
        tree.insert(k, k);
        let expected = if k < 6 {
            0
        } else if k < 16 {
            1
        } else if k < 46 {
            2
        } else {
            3
        };
        assert_eq!(tree.height(), expected);
    }
    check(&tree);
}

#[test]
fn cascading_internal_splits_on_every_side() {
    for order in 0..3 {
        let mut tree: BPlusTree<u64, u64> = BPlusTree::new();
        let mut model: BTreeMap<u64, u64> = BTreeMap::new();
        for i in 0..2000u64 {
            let key = match order {
                0 => i,
                1 => 2000 - i,
                _ => (i * 7919) % 2003,
            };
            assert_eq!(tree.insert(key, i), model.insert(key, i));
        }
        check(&tree);
        assert!(tree.height() >= 3);
        assert_eq!(tree.keys(), model.keys().copied().collect::<Vec<u64>>());
        for (k, v) in model.iter() {
            assert_eq!(tree.get(k), Some(v));
        }
    }
}

#[test]
fn keys_ascend_after_each_insert() {
    let mut tree: BPlusTree<u64, u64> = BPlusTree::new();
    for i in 0..300u64 {
        tree.insert((i * 37) % 101, i);
        let keys = tree.keys();
        for w in keys.windows(2) {
            assert!(w[0] < w[1]);
        }
    }
}

#[test]
fn what_was_inserted_is_found() {
    let mut tree: BPlusTree<u64, u64> = BPlusTree::new();
    for k in 0..500u64 {
        tree.insert(k * 3, k + 7);
    }
    for k in 0..500u64 {
        assert_eq!(tree.get(&(k * 3)), Some(&(k + 7)));
        assert_eq!(tree.get(&(k * 3 + 1)), None);
    }
}

#[test]
fn inserting_a_present_key_returns_the_old_value() {
    let mut tree: BPlusTree<u64, u64> = BPlusTree::new();
    for k in 0..40u64 {
        assert_eq!(tree.insert(k, k), None);
    }
    let height = tree.height();
    for k in 0..40u64 {
        assert_eq!(tree.insert(k, k + 1000), Some(k));
        assert_eq!(tree.get(&k), Some(&(k + 1000)));
    }
    assert_eq!(tree.len(), 40);
    assert_eq!(tree.height(), height);
    check(&tree);
}

#[test]
fn overwriting_in_a_full_leaf_does_not_split() {
    let mut tree: BPlusTree<u64, u64> = BPlusTree::new();
    for k in 1..=5u64 {
        tree.insert(k, k);
    }
    assert_eq!(tree.insert(3, 33), Some(3));
    assert_eq!(tree.height(), 0);
    assert_eq!(tree.keys(), vec![1, 2, 3, 4, 5]);
    assert_eq!(tree.values(), vec![1, 2, 33, 4, 5]);
}

#[test]
fn deleted_keys_are_gone_and_absent_keys_change_nothing() {
    let mut tree: BPlusTree<u64, u64> = BPlusTree::new();
    for k in 0..100u64 {
        tree.insert(k * 2, k);
    }
    let before = tree.keys();
    let height = tree.height();
    for k in 0..100u64 {
        assert_eq!(tree.delete(&(k * 2 + 1)), None);
    }
    assert_eq!(tree.keys(), before);
    assert_eq!(tree.height(), height);
    assert_eq!(tree.len(), 100);
    for k in 0..100u64 {
        assert_eq!(tree.delete(&(k * 2)), Some(k));
        assert_eq!(tree.get(&(k * 2)), None);
        assert_eq!(tree.delete(&(k * 2)), None);
        check(&tree);
    }
    assert_eq!(tree.len(), 0);
}

#[test]
fn random_inserts_and_deletes_keep_the_balance() {
    let mut tree: BPlusTree<u64, u64> = BPlusTree::new();
    let mut model: BTreeMap<u64, u64> = BTreeMap::new();
    let mut state: u64 = 12345;
    for i in 0..20_000u64 {
        state = state.wrapping_mul(6364136223846793005).wrapping_add(1442695040888963407);
        let key = (state >> 33) % 512;
        if (state >> 20) % 3 == 0 {
            assert_eq!(tree.insert(key, i), model.insert(key, i));
        } else {
            assert_eq!(tree.delete(&key), model.remove(&key));
        }
        if i % 97 == 0 {
            check(&tree);
        }
        assert_eq!(tree.len(), model.len());
    }
    check(&tree);
    assert_eq!(tree.keys(), model.keys().copied().collect::<Vec<u64>>());
    assert_eq!(tree.values(), model.values().copied().collect::<Vec<u64>>());
}

#[test]
fn deleting_in_descending_and_inner_order() {
    for order in 0..2 {
        let mut tree: BPlusTree<u64, u64> = BPlusTree::new();
        for k in 0..400u64 {
            tree.insert(k, k);
        }
        for i in 0..400u64 {
            let key = if order == 0 { 399 - i } else { (i * 149) % 400 };
            assert_eq!(tree.delete(&key), Some(key));
            check(&tree);
        }
        assert_eq!(tree.len(), 0);
        assert_eq!(tree.height(), 0);
    }
}

#[test]
fn the_traversal_is_as_long_as_the_count() {
    let mut tree: BPlusTree<u64, u64> = BPlusTree::new();
    for k in 0..77u64 {
        tree.insert(k * 5 % 77, k);
        assert_eq!(tree.keys().len(), tree.len());
        assert_eq!(tree.values().len(), tree.len());
    }
    let keys = tree.keys();
    let values = tree.values();
    for (k, v) in keys.iter().zip(values.iter()) {
        assert_eq!(tree.get(k), Some(v));
    }
    let mut reversed = keys.clone();
    reversed.reverse();
    assert_eq!(tree.keys_backward(), reversed);
    assert_eq!(tree.keys_backward().len(), tree.len());
}

#[test]
fn the_chain_reads_the_same_backward() {
    let mut tree: BPlusTree<u64, u64> = BPlusTree::new();
    assert_eq!(tree.keys_backward(), Vec::<u64>::new());
    for k in [20u64, 10, 15, 18, 5, 1, 11, 50, 22, 13] {
        tree.insert(k, k);
    }
    assert_eq!(tree.keys_backward(), vec![50, 22, 20, 18, 15, 13, 11, 10, 5, 1]);
    assert_eq!(tree.delete(&15), Some(15));
    assert_eq!(tree.keys_backward(), vec![50, 22, 20, 18, 13, 11, 10, 5, 1]);
}

#[test]
fn a_root_with_one_child_gives_way_at_the_next_deletion() {
    let mut tree: BPlusTree<u64, u64> = BPlusTree::new();
    for k in 1..=6u64 {
        tree.insert(k, k);
    }
    assert_eq!(tree.height(), 1);
    assert_eq!(tree.delete(&1), Some(1));
    assert_eq!(tree.delete(&2), Some(2));
    assert_eq!(tree.delete(&3), Some(3));
    check(&tree);
    assert_eq!(tree.delete(&4), Some(4));
    check(&tree);
    assert_eq!(tree.delete(&5), Some(5));
    assert_eq!(tree.delete(&6), Some(6));
    assert_eq!(tree.height(), 0);
    assert_eq!(tree.keys(), Vec::<u64>::new());
    assert_eq!(tree.insert(9, 9), None);
    assert_eq!(tree.keys(), vec![9]);
}

#[test]
fn keys_may_be_strings() {
    let mut tree: BPlusTree<String, Vec<u8>> = BPlusTree::new();
    for word in ["pear", "apple", "fig", "kiwi", "plum", "lime", "date", "melon"] {
        assert_eq!(tree.insert(word.to_string(), word.as_bytes().to_vec()), None);
    }
    assert_eq!(
        tree.keys(),
        vec!["apple", "date", "fig", "kiwi", "lime", "melon", "pear", "plum"]
    );
    assert_eq!(tree.get(&"fig".to_string()), Some(&b"fig".to_vec()));
    assert_eq!(tree.delete(&"kiwi".to_string()), Some(b"kiwi".to_vec()));
    assert_eq!(tree.get(&"kiwi".to_string()), None);
    assert_eq!(tree.len(), 7);
}
