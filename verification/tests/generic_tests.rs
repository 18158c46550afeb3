use arena_tree::generic::Tree;
use arena_tree::tree::TreeError;

#[test]
fn lib_test_sum() {
    let mut tree = Tree::with_root(10);

    assert_eq!(tree.sum(), 10);
    assert_eq!(tree.is_bst(), true);

    tree.add_node(0, 5, true).unwrap(); // id 1
    tree.add_node(0, 22, false).unwrap(); // id 2

    assert_eq!(tree.sum(), 37);
    assert_eq!(tree.is_bst(), true);

    tree.add_node(1, 7, false).unwrap(); // id 3
    tree.add_node(2, 20, true).unwrap(); // id 4

    assert_eq!(tree.sum(), 64);
    assert_eq!(tree.is_bst(), true);
}

#[test]
fn lib_test_is_bst_root() {
    let tree = Tree::with_root(1usize);
    assert_eq!(tree.is_bst(), true);
}

#[test]
fn lib_test_is_bst() {
    let mut tree = Tree::with_root(50);
    assert_eq!(tree.is_bst(), true);

    tree.add_node(0, 15, true).unwrap();
    assert_eq!(tree.is_bst(), true);

    tree.add_node(0, 90, false).unwrap();
    assert_eq!(tree.is_bst(), true);

    tree.add_node(1, u128::MAX, false).unwrap();
    assert_eq!(tree.is_bst(), false);
}

#[test]
fn lib_test_max_path_sum() {
    let mut tree = Tree::with_root(10);

    assert_eq!(tree.sum(), 10);

    tree.add_node(0, 5, true).unwrap(); // id 1
    tree.add_node(0, 22, false).unwrap(); // id 2

    assert_eq!(tree.sum(), 37);

    tree.add_node(1, 7, false).unwrap(); // id 3
    tree.add_node(2, 20, true).unwrap(); // id 4

    assert_eq!(tree.max_path_sum(), tree.sum())
}

#[test]
fn lib_test_max_path_sum_2() {
    let mut tree = Tree::with_root(3);

    tree.add_node(0, 4, true).unwrap(); // id 1
    tree.add_node(0, 5, false).unwrap(); // id 2

    tree.add_node(1, -10, true).unwrap();
    tree.add_node(1, 4, false).unwrap();

    assert_eq!(tree.max_path_sum(), 16);
    assert_eq!(tree.is_bst(), false);
}

#[test]
fn lib_test_max_path_sum_3() {
    let mut tree = Tree::with_root(-15isize);

    tree.add_node(0, 5, true).unwrap(); // id 1
    tree.add_node(0, 6, false).unwrap(); // id 2

    tree.add_node(1, -8, true).unwrap(); // 3
    tree.add_node(1, 1, false).unwrap();

    tree.add_node(3, 2, true).unwrap();
    tree.add_node(3, -3, false).unwrap();

    tree.add_node(2, 3, true).unwrap();
    tree.add_node(2, 9, false).unwrap();

    tree.add_node(8, 0, false).unwrap();

    tree.add_node(9, 4, true).unwrap();
    tree.add_node(9, -1, false).unwrap();

    tree.add_node(11, 10, true).unwrap();

    assert_eq!(tree.max_path_sum(), 27);
    assert_eq!(tree.is_bst(), false);
}

#[test]
fn lib_test_max_path_sum_4() {
    let mut tree = Tree::with_root(2);

    tree.add_node(0, 2, true).unwrap(); // id 1

    tree.add_node(1, 1, false).unwrap(); // 3
    assert_eq!(tree.max_path_sum(), 5);

    tree.add_node(1, 3, true).unwrap(); // 4
    assert_eq!(tree.max_path_sum(), 7);
    assert_eq!(tree.is_bst(), false);
}

#[test]
fn lib_test_negative_keys_sum() {
    let mut tree = Tree::with_root(-5i64);
    tree.add_node(0, 3, true).unwrap();
    tree.add_node(0, -7, false).unwrap();
    assert_eq!(tree.sum(), -9);
}

#[test]
fn lib_test_single_max_key_not_bst() {
    // The check compares every key against the type's maximum sentinel.
    let tree = Tree::with_root(i8::MAX);
    assert_eq!(tree.is_bst(), false);

    let tree = Tree::with_root(i8::MAX - 1);
    assert_eq!(tree.is_bst(), true);
}

#[test]
fn lib_test_errors() {
    let mut tree = Tree::with_root(1i16);
    assert_eq!(tree.add_node(9, 2, false), Err(TreeError::InvalidIndex));
    tree.add_node(0, 2, false).unwrap();
    assert_eq!(tree.add_node(0, 3, false), Err(TreeError::SlotOccupied));
    assert_eq!(tree.sum(), 3);
}
