use bplus_tree::bplus_tree::bplus_tree::BoxedNode;
use bplus_tree::bplus_tree::bplus_tree::ForceResult;
use bplus_tree::bplus_tree::bplus_tree::InternalNode;
use bplus_tree::bplus_tree::bplus_tree::LeafNode;
use bplus_tree::bplus_tree::bplus_tree::NodeRef;
use bplus_tree::bplus_tree::bplus_tree::Root;
use bplus_tree::bplus_tree::delete::DeleteBehavior;
use bplus_tree::bplus_tree::get::route;
use bplus_tree::bplus_tree::insert::InsertBehavior;
use bplus_tree::bplus_tree::order::duplicate;
use bplus_tree::bplus_tree::order::less;
use bplus_tree::bplus_tree::order::less_or_same;
use bplus_tree::bplus_tree::order::same;

fn leaf(keys: &[u64]) -> LeafNode<u64, u64> {
    LeafNode { keys: keys.to_vec(), vals: keys.iter().map(|k| k * 10).collect() }
}

fn leaf_ref(keys: &[u64]) -> NodeRef<u64, u64> {
    NodeRef::from_boxed_node(BoxedNode::from_leaf(Box::new(leaf(keys))))
}

fn leaf_keys(node: &NodeRef<u64, u64>) -> Vec<u64> {
    match node.force() {
        ForceResult::Leaf(l) => l.keys.clone(),
        ForceResult::Internal(_) => panic!("a leaf was expected"),
    }
}

fn internal(keys: &[u64], children: Vec<NodeRef<u64, u64>>) -> InternalNode<u64, u64> {
    InternalNode { keys: keys.to_vec(), children }
}

#[test]
fn keys_compare_as_their_order_says() {
    assert!(less(&1u64, &2));
    assert!(!less(&2u64, &2));
    assert!(!less(&3u64, &2));
    assert!(same(&2u64, &2));
    assert!(!same(&1u64, &2));
    assert!(less_or_same(&1u64, &2));
    assert!(less_or_same(&2u64, &2));
    assert!(!less_or_same(&3u64, &2));
    assert_eq!(duplicate(&"k".to_string()), "k");
}

#[test]
fn route_is_the_first_key_not_before() {
    let keys: Vec<u64> = vec![10, 20, 30];
    assert_eq!(route(&keys, &5), 0);
    assert_eq!(route(&keys, &10), 0);
    assert_eq!(route(&keys, &11), 1);
    assert_eq!(route(&keys, &20), 1);
    assert_eq!(route(&keys, &30), 2);
    assert_eq!(route(&keys, &31), 3);
    assert_eq!(route(&Vec::<u64>::new(), &1), 0);
}

#[test]
fn an_internal_node_routes_by_its_separators() {
    let node = internal(&[2, 4], vec![leaf_ref(&[1, 2]), leaf_ref(&[3, 4]), leaf_ref(&[5, 6])]);
    assert_eq!(node.route(&0), 0);
    assert_eq!(node.route(&2), 0);
    assert_eq!(node.route(&3), 1);
    assert_eq!(node.route(&4), 1);
    assert_eq!(node.route(&5), 2);
    assert_eq!(node.route(&99), 2);
    assert_eq!(node.length(), 3);
    assert_eq!(node.get(&3), Some(&30));
    assert_eq!(node.get(&7), None);
}

#[test]
fn a_leaf_with_room_takes_a_pair_in_order() {
    let mut l = leaf(&[10, 30]);
    match l.insert(20, 7) {
        (InsertBehavior::Fit, None, 1) => {}
        _ => panic!("the pair fits at index 1"),
    }
    assert_eq!(l.keys, vec![10, 20, 30]);
    assert_eq!(l.vals, vec![100, 7, 300]);
    match l.insert(20, 8) {
        (InsertBehavior::Fit, Some(7), 1) => {}
        _ => panic!("the old value comes back"),
    }
    assert_eq!(l.vals, vec![100, 8, 300]);
    assert_eq!(l.length(), 3);
    assert_eq!(l.get(&20), Some(&8));
    assert_eq!(l.get(&25), None);
}

#[test]
fn a_full_leaf_splits_and_the_pair_enters_its_side() {
    let mut l = leaf(&[1, 2, 3, 4, 5]);
    match l.insert(6, 60) {
        (InsertBehavior::Split(sep, right), None, 0) => {
            assert_eq!(sep, 2);
            assert_eq!(leaf_keys(&right), vec![3, 4, 5, 6]);
            assert_eq!(right.height(), 0);
        }
        _ => panic!("a full leaf splits"),
    }
    assert_eq!(l.keys, vec![1, 2]);

    let mut l = leaf(&[1, 2, 3, 4, 5]);
    match l.insert(0, 0) {
        (InsertBehavior::Split(sep, right), None, 0) => {
            assert_eq!(sep, 2);
            assert_eq!(leaf_keys(&right), vec![3, 4, 5]);
        }
        _ => panic!("a full leaf splits"),
    }
    assert_eq!(l.keys, vec![0, 1, 2]);
    assert_eq!(l.vals, vec![0, 10, 20]);

    let mut l = leaf(&[10, 20, 30, 40, 50]);
    match l.insert(15, 1) {
        (InsertBehavior::Split(sep, right), None, 0) => {
            assert_eq!(sep, 20);
            assert_eq!(leaf_keys(&right), vec![30, 40, 50]);
        }
        _ => panic!("a full leaf splits"),
    }
    assert_eq!(l.keys, vec![10, 15, 20]);
}

#[test]
fn a_bare_leaf_split_moves_the_top_three() {
    let mut l = leaf(&[1, 2, 3, 4, 5]);
    let right = l.split();
    assert_eq!(l.keys, vec![1, 2]);
    assert_eq!(l.vals, vec![10, 20]);
    assert_eq!(right.keys, vec![3, 4, 5]);
    assert_eq!(right.vals, vec![30, 40, 50]);
}

#[test]
fn a_leaf_gives_up_a_pair() {
    let mut l = leaf(&[1, 2, 3]);
    match l.delete(&2) {
        DeleteBehavior::Success(2, Some(20)) => {}
        _ => panic!("the pair under 2 goes"),
    }
    assert_eq!(l.keys, vec![1, 3]);
    assert_eq!(l.vals, vec![10, 30]);
    match l.delete(&2) {
        DeleteBehavior::Success(2, None) => {}
        _ => panic!("nothing is under 2"),
    }
    assert_eq!(l.keys, vec![1, 3]);
    assert_eq!(l.get_largest_key(), 3);
}

#[test]
fn leaves_share_only_where_both_end_above_the_minimum() {
    let mut a = leaf(&[1]);
    let mut b = leaf(&[2, 3, 4, 5, 6]);
    assert!(a.devide(&mut b));
    assert_eq!(a.keys, vec![1, 2, 3]);
    assert_eq!(b.keys, vec![4, 5, 6]);
    assert_eq!(a.vals, vec![10, 20, 30]);

    let mut a = leaf(&[1]);
    let mut b = leaf(&[2, 3, 4, 5]);
    assert!(!a.devide(&mut b));
    assert_eq!(a.keys, vec![1]);
    assert_eq!(b.keys, vec![2, 3, 4, 5]);

    let mut a = leaf(&[1, 2, 3, 4, 5]);
    let mut b = leaf(&[6]);
    assert!(a.devide(&mut b));
    assert_eq!(a.keys, vec![1, 2, 3]);
    assert_eq!(b.keys, vec![4, 5, 6]);

    let mut a = leaf(&[1, 2, 3, 4]);
    let mut b = leaf(&[5, 6, 7]);
    assert!(a.devide(&mut b));
    assert_eq!(a.keys, vec![1, 2, 3]);
    assert_eq!(b.keys, vec![4, 5, 6, 7]);
}

#[test]
fn a_leaf_takes_over_its_neighbour() {
    let mut a = leaf(&[1]);
    a.marge(leaf(&[2, 3]));
    assert_eq!(a.keys, vec![1, 2, 3]);
    assert_eq!(a.vals, vec![10, 20, 30]);
}

#[test]
fn join_node_puts_the_child_after_the_one_that_split() {
    let mut node = internal(&[2], vec![leaf_ref(&[1, 2]), leaf_ref(&[5, 6])]);
    node.join_node(1, 4, leaf_ref(&[7, 8]));
    assert_eq!(node.keys, vec![2, 4]);
    assert_eq!(leaf_keys(&node.children[2]), vec![7, 8]);
    node.join_node(0, 1, leaf_ref(&[2, 2]));
    assert_eq!(node.keys, vec![1, 2, 4]);
    assert_eq!(leaf_keys(&node.children[1]), vec![2, 2]);
}

fn six_children() -> InternalNode<u64, u64> {
    internal(
        &[2, 4, 6, 8, 10],
        vec![
            leaf_ref(&[1, 2]),
            leaf_ref(&[3, 4]),
            leaf_ref(&[5, 6]),
            leaf_ref(&[7, 8]),
            leaf_ref(&[9, 10]),
            leaf_ref(&[11, 12]),
        ],
    )
}

#[test]
fn cut_right_raises_the_middle_separator() {
    let mut node = six_children();
    let (raised, right) = node.cut_right();
    assert_eq!(raised, 6);
    assert_eq!(node.keys, vec![2, 4]);
    assert_eq!(node.children.len(), 3);
    assert_eq!(right.keys, vec![8, 10]);
    assert_eq!(right.children.len(), 3);
    assert_eq!(leaf_keys(&right.children[0]), vec![7, 8]);
}

#[test]
fn a_full_internal_node_splits_around_what_joins() {
    let mut node = six_children();
    let (raised, right) = node.split(5, 12, leaf_ref(&[13, 14]));
    assert_eq!(raised, 6);
    assert_eq!(node.keys, vec![2, 4]);
    assert_eq!(right.keys, vec![8, 10, 12]);
    assert_eq!(right.children.len(), 4);
    assert_eq!(leaf_keys(&right.children[3]), vec![13, 14]);

    let mut node = six_children();
    let (raised, right) = node.split(0, 1, leaf_ref(&[2, 2]));
    assert_eq!(raised, 6);
    assert_eq!(node.keys, vec![1, 2, 4]);
    assert_eq!(node.children.len(), 4);
    assert_eq!(leaf_keys(&node.children[1]), vec![2, 2]);
    assert_eq!(right.keys, vec![8, 10]);
    assert_eq!(right.children.len(), 3);

    let mut node = six_children();
    let (raised, right) = node.split(3, 7, leaf_ref(&[8, 8]));
    assert_eq!(raised, 6);
    assert_eq!(node.keys, vec![2, 4]);
    assert_eq!(right.keys, vec![7, 8, 10]);
    assert_eq!(leaf_keys(&right.children[1]), vec![8, 8]);
}

#[test]
fn internal_nodes_share_and_join_their_children() {
    let mut a = internal(&[2], vec![leaf_ref(&[1, 2]), leaf_ref(&[3, 4])]);
    let mut b = internal(
        &[6, 8, 10],
        vec![leaf_ref(&[5, 6]), leaf_ref(&[7, 8]), leaf_ref(&[9, 10]), leaf_ref(&[11, 12])],
    );
    assert!(a.devide(&mut b));
    assert_eq!(a.keys, vec![2, 4]);
    assert_eq!(a.children.len(), 3);
    assert_eq!(leaf_keys(&a.children[2]), vec![5, 6]);
    assert_eq!(b.keys, vec![8, 10]);
    assert_eq!(b.children.len(), 3);
    assert_eq!(a.get_largest_key(), 6);

    let mut a = internal(&[2], vec![leaf_ref(&[1, 2]), leaf_ref(&[3, 4])]);
    let mut b = internal(&[6, 8], vec![leaf_ref(&[5, 6]), leaf_ref(&[7, 8]), leaf_ref(&[9, 10])]);
    assert!(!a.devide(&mut b));
    assert_eq!(a.keys, vec![2]);
    assert_eq!(b.keys, vec![6, 8]);
    a.marge(b);
    assert_eq!(a.keys, vec![2, 4, 6, 8]);
    assert_eq!(a.children.len(), 5);
}

#[test]
fn an_internal_node_with_one_child_hands_it_over() {
    let mut node = internal(&[], vec![leaf_ref(&[1, 2, 3])]);
    match node.delete(&9) {
        DeleteBehavior::Success(0, None) => {}
        _ => panic!("nothing is under 9"),
    }
    assert_eq!(node.children.len(), 1);
    match node.delete(&2) {
        DeleteBehavior::RaiseChild(child, 20) => assert_eq!(leaf_keys(&child), vec![1, 3]),
        _ => panic!("the one child is handed over"),
    }
}

#[test]
fn a_child_below_the_minimum_is_brought_back() {
    let mut node = internal(&[2, 4], vec![leaf_ref(&[1, 2]), leaf_ref(&[3, 4]), leaf_ref(&[5, 6])]);
    match node.delete(&1) {
        DeleteBehavior::Success(1, Some(10)) => {}
        _ => panic!("the pair under 1 goes and two children stay"),
    }
    assert_eq!(node.keys, vec![4]);
    assert_eq!(leaf_keys(&node.children[0]), vec![2, 3, 4]);

    let mut node = internal(
        &[2, 7],
        vec![leaf_ref(&[1, 2]), leaf_ref(&[3, 4, 5, 6, 7]), leaf_ref(&[8, 9])],
    );
    match node.delete(&1) {
        DeleteBehavior::Success(2, Some(10)) => {}
        _ => panic!("the pair under 1 goes and three children stay"),
    }
    assert_eq!(node.keys, vec![4, 7]);
    assert_eq!(leaf_keys(&node.children[0]), vec![2, 3, 4]);
    assert_eq!(leaf_keys(&node.children[1]), vec![5, 6, 7]);

    let mut node = internal(
        &[5, 7],
        vec![leaf_ref(&[1, 2, 3, 4, 5]), leaf_ref(&[6, 7]), leaf_ref(&[8, 9])],
    );
    match node.delete(&6) {
        DeleteBehavior::Success(2, Some(60)) => {}
        _ => panic!("the pair under 6 goes and three children stay"),
    }
    assert_eq!(node.keys, vec![3, 7]);
    assert_eq!(leaf_keys(&node.children[0]), vec![1, 2, 3]);
    assert_eq!(leaf_keys(&node.children[1]), vec![4, 5, 7]);
}

#[test]
fn a_subtree_knows_its_largest_key_and_its_length() {
    let node = NodeRef {
        height: 1,
        node: BoxedNode::from_internal(Box::new(internal(
            &[2],
            vec![leaf_ref(&[1, 2]), leaf_ref(&[3, 9])],
        ))),
    };
    assert_eq!(node.get_largest_key(), 9);
    assert_eq!(node.length(), 1);
    assert_eq!(node.height(), 1);
    assert_eq!(node.traverse_keys(), vec![1, 2, 3, 9]);
    assert_eq!(node.traverse_values(), vec![10, 20, 30, 90]);
    assert_eq!(node.get(&9), Some(&90));
    assert_eq!(leaf_ref(&[4, 5]).length(), 2);
}

#[test]
fn a_root_grows_and_shrinks() {
    let mut root: Root<u64, u64> = Root::new();
    for k in 1..=6u64 {
        assert_eq!(root.insert(k, k), None);
    }
    assert_eq!(root.root.height(), 1);
    assert_eq!(root.get(&6), Some(&6));
    assert_eq!(root.delete(&6), Some(6));
    assert_eq!(root.delete(&6), None);
    assert_eq!(root.root.traverse_keys(), vec![1, 2, 3, 4, 5]);
}

#[test]
fn a_full_node_of_six_leaves_splits_when_its_last_leaf_splits() {
    let mut node = NodeRef {
        height: 1,
        node: BoxedNode::from_internal(Box::new(internal(
            &[2, 4, 6, 8, 10],
            vec![
                leaf_ref(&[1, 2]),
                leaf_ref(&[3, 4]),
                leaf_ref(&[5, 6]),
                leaf_ref(&[7, 8]),
                leaf_ref(&[9, 10]),
                leaf_ref(&[11, 12, 13, 14, 15]),
            ],
        ))),
    };
    match node.insert(16, 160) {
        (InsertBehavior::Split(sep, right), None, 5) => {
            assert_eq!(sep, 6);
            assert_eq!(right.height(), 1);
            match right.force() {
                ForceResult::Internal(r) => {
                    assert_eq!(r.keys, vec![8, 10, 12]);
                    assert_eq!(r.children.len(), 4);
                    assert_eq!(leaf_keys(&r.children[0]), vec![7, 8]);
                    assert_eq!(leaf_keys(&r.children[1]), vec![9, 10]);
                    assert_eq!(leaf_keys(&r.children[2]), vec![11, 12]);
                    assert_eq!(leaf_keys(&r.children[3]), vec![13, 14, 15, 16]);
                }
                ForceResult::Leaf(_) => panic!("the new sibling is an internal node"),
            }
        }
        _ => panic!("the full node splits"),
    }
    match node.force() {
        ForceResult::Internal(l) => {
            assert_eq!(l.keys, vec![2, 4]);
            assert_eq!(l.children.len(), 3);
            assert_eq!(leaf_keys(&l.children[2]), vec![5, 6]);
        }
        ForceResult::Leaf(_) => panic!("the node stays an internal node"),
    }
}

#[test]
fn a_node_with_room_takes_the_sibling_right_after_the_child_that_split() {
    let mut node = NodeRef {
        height: 1,
        node: BoxedNode::from_internal(Box::new(internal(
            &[5, 20],
            vec![leaf_ref(&[1, 2, 3, 4, 5]), leaf_ref(&[10, 20]), leaf_ref(&[30, 40])],
        ))),
    };
    match node.insert(0, 0) {
        (InsertBehavior::Fit, None, 0) => {}
        _ => panic!("the node has room"),
    }
    match node.force() {
        ForceResult::Internal(n) => {
            assert_eq!(n.keys, vec![2, 5, 20]);
            assert_eq!(leaf_keys(&n.children[0]), vec![0, 1, 2]);
            assert_eq!(leaf_keys(&n.children[1]), vec![3, 4, 5]);
            assert_eq!(leaf_keys(&n.children[2]), vec![10, 20]);
            assert_eq!(leaf_keys(&n.children[3]), vec![30, 40]);
        }
        ForceResult::Leaf(_) => panic!("the node stays an internal node"),
    }
    match node.insert(30, 7) {
        (InsertBehavior::Fit, Some(300), 3) => {}
        _ => panic!("the old value comes back"),
    }
    match node.force() {
        ForceResult::Internal(n) => {
            assert_eq!(n.keys, vec![2, 5, 20]);
            assert_eq!(n.children.len(), 4);
        }
        ForceResult::Leaf(_) => panic!("the node stays an internal node"),
    }
}

#[test]
fn the_first_of_five_children_merges_with_its_right_neighbour() {
    let mut node = internal(
        &[2, 4, 6, 8],
        vec![
            leaf_ref(&[1, 2]),
            leaf_ref(&[3, 4]),
            leaf_ref(&[5, 6]),
            leaf_ref(&[7, 8]),
            leaf_ref(&[9, 10, 11, 12]),
        ],
    );
    match node.delete(&1) {
        DeleteBehavior::Success(3, Some(10)) => {}
        _ => panic!("the pair under 1 goes and three separators stay"),
    }
    assert_eq!(node.keys, vec![4, 6, 8]);
    assert_eq!(node.length(), 4);
    assert_eq!(leaf_keys(&node.children[0]), vec![2, 3, 4]);
    assert_eq!(leaf_keys(&node.children[1]), vec![5, 6]);
    assert_eq!(leaf_keys(&node.children[2]), vec![7, 8]);
    assert_eq!(leaf_keys(&node.children[3]), vec![9, 10, 11, 12]);
}

#[test]
fn two_leaves_share_after_a_deletion_in_the_first() {
    let mut node = internal(&[2], vec![leaf_ref(&[1, 2]), leaf_ref(&[3, 4, 5, 6, 7])]);
    match node.delete(&1) {
        DeleteBehavior::Success(1, Some(10)) => {}
        _ => panic!("the pair under 1 goes and one separator stays"),
    }
    assert_eq!(node.keys, vec![4]);
    assert_eq!(node.length(), 2);
    assert_eq!(leaf_keys(&node.children[0]), vec![2, 3, 4]);
    assert_eq!(leaf_keys(&node.children[1]), vec![5, 6, 7]);
}

#[test]
fn a_child_that_keeps_the_minimum_is_left_with_its_neighbours() {
    let mut node = internal(
        &[3, 6],
        vec![leaf_ref(&[1, 2, 3]), leaf_ref(&[4, 5, 6]), leaf_ref(&[7, 8])],
    );
    match node.delete(&5) {
        DeleteBehavior::Success(2, Some(50)) => {}
        _ => panic!("the pair under 5 goes"),
    }
    assert_eq!(node.keys, vec![3, 6]);
    assert_eq!(leaf_keys(&node.children[0]), vec![1, 2, 3]);
    assert_eq!(leaf_keys(&node.children[1]), vec![4, 6]);
    assert_eq!(leaf_keys(&node.children[2]), vec![7, 8]);
}
