use cpc_handson::binary_tree::Tree;

#[test]
fn test_sum() {
    let mut tree = Tree::with_root(10);

    assert_eq!(tree.sum(), 10);

    tree.add_node(0, 5, true); // id 1
    tree.add_node(0, 22, false); // id 2

    assert_eq!(tree.sum(), 37);

    tree.add_node(1, 7, false); // id 3
    tree.add_node(2, 20, true); // id 4

    assert_eq!(tree.sum(), 64);
}

#[test]
fn test_is_bst() {
    let mut tree = Tree::with_root(10);

    tree.add_node(0, 5, true); // id 1
    tree.add_node(0, 15, false); // id 2

    assert!(tree.is_bst());

    tree.add_node(1, 2, true); // id 3
    tree.add_node(1, 7, false); // id 4
    tree.add_node(2, 12, true); // id 5
    tree.add_node(2, 20, false); // id 6

    assert!(tree.is_bst());

    // 6 sits below 2 on its left, so the tree stops being a search tree
    tree.add_node(3, 6, true); // id 7

    assert!(!tree.is_bst());
}

#[test]
fn test_get_mps() {
    //     10
    //    /
    //   5
    let mut tree = Tree::with_root(10);
    tree.add_node(0, 5, true);
    assert_eq!(tree.get_mps(), 15);
}

#[test]
fn test_max_path_sum() {
    let mut tree = Tree::with_root(10);
    tree.add_node(0, 5, true);
    tree.add_node(0, 7, false);
    tree.add_node(1, 8, true);
    tree.add_node(1, 3, false);
    assert_eq!(tree.max_path_sum(), 30); // 8 -> 5 -> 10 -> 7

    let tree = Tree::with_root(12);
    assert_eq!(tree.max_path_sum(), u32::MIN);

    let mut tree = Tree::with_root(1);
    tree.add_node(0, 2, true);
    tree.add_node(1, 3, true);
    tree.add_node(2, 4, true);
    assert_eq!(tree.max_path_sum(), 0);

    let mut tree = Tree::with_root(6);
    tree.add_node(0, 3, false);
    tree.add_node(1, 4, false);
    tree.add_node(2, 5, false);
    assert_eq!(tree.max_path_sum(), 0);

    //        10
    //      /    \
    //     5      15
    //    / \    /  \
    //   3   7  12  20
    let mut tree = Tree::with_root(10);
    tree.add_node(0, 5, true);
    tree.add_node(0, 15, false);
    tree.add_node(1, 3, true);
    tree.add_node(1, 7, false);
    tree.add_node(2, 12, true);
    tree.add_node(2, 20, false);

    assert_eq!(tree.max_path_sum(), 57); // 7 -> 5 -> 10 -> 15 -> 20
}

#[test]
fn inorder_lists_keys_in_order() {
    let mut tree = Tree::with_root(15);
    tree.add_node(0, 8, true);
    tree.add_node(0, 20, false);
    tree.add_node(1, 3, true);
    tree.add_node(1, 9, false);
    assert_eq!(tree.inorder(), vec![3, 8, 9, 15, 20]);
    let mut keys = vec![1];
    tree.inorder_rec(Some(1), &mut keys);
    assert_eq!(keys, vec![1, 3, 8, 9]);
}

#[test]
fn subtree_size_counts_nodes() {
    let mut tree = Tree::with_root(15);
    tree.add_node(0, 8, true);
    tree.add_node(0, 20, false);
    tree.add_node(1, 3, true);
    tree.add_node(1, 9, false);
    assert_eq!(tree.subtree_size(Some(1)), 3);
    assert_eq!(tree.subtree_size(Some(0)), 5);
    assert_eq!(tree.subtree_size(None), 0);
    assert!(tree.is_bst());
}

#[test]
fn is_bst_rec_honours_bounds() {
    let mut tree = Tree::with_root(10);
    tree.add_node(0, 5, true);
    assert!(tree.is_bst_rec(Some(0), Some(4), Some(11)));
    assert!(!tree.is_bst_rec(Some(0), Some(5), None));
    assert!(!tree.is_bst_rec(Some(0), None, Some(10)));
    assert!(tree.is_bst_rec(None, Some(7), Some(3)));
}

#[test]
fn equal_keys_are_not_a_search_tree() {
    let mut tree = Tree::with_root(10);
    tree.add_node(0, 10, false);
    assert!(!tree.is_bst());
}

#[test]
fn get_mps_rec_gives_both_sums() {
    //        10
    //      /    \
    //     5      22
    //      \    /
    //       7  20
    let mut tree = Tree::with_root(10);
    tree.add_node(0, 5, true);
    tree.add_node(0, 22, false);
    tree.add_node(1, 7, false);
    tree.add_node(2, 20, true);
    assert_eq!(tree.get_mps_rec(Some(0)), (64, 52));
    assert_eq!(tree.get_mps_rec(Some(1)), (12, 12));
    assert_eq!(tree.get_mps_rec(None), (0, 0));
    assert_eq!(tree.get_mps(), 52);
}

#[test]
fn add_node_returns_fresh_ids() {
    let mut tree = Tree::with_root(1);
    assert_eq!(tree.add_node(0, 2, true), 1);
    assert_eq!(tree.add_node(0, 3, false), 2);
    assert_eq!(tree.add_node(2, 4, true), 3);
    assert_eq!(tree.sum(), 10);
}

#[test]
fn path_sums_fit_when_the_total_does_not() {
    //          0
    //       /     \
    //      0       0
    //     / \     / \
    //    a   a   a   a      with a = 1_500_000_000: the keys add up past u32::MAX
    let a = 1_500_000_000;
    let mut tree = Tree::with_root(0);
    tree.add_node(0, 0, true); // id 1
    tree.add_node(0, 0, false); // id 2
    tree.add_node(1, a, true);
    tree.add_node(1, a, false);
    tree.add_node(2, a, true);
    tree.add_node(2, a, false);
    assert_eq!(tree.max_path_sum(), 3_000_000_000);
    assert_eq!(tree.get_mps(), 1_500_000_000);
    assert_eq!(tree.get_mps_rec(Some(0)), (3_000_000_000, 1_500_000_000));
}
