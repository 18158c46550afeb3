use arena_tree::tree::{Tree, TreeError};

#[test]
fn test_sum() {
    let mut tree = Tree::with_root(10);

    assert_eq!(tree.sum(), 10);
    assert_eq!(tree.is_bst(), true);

    tree.add_node(0, 5, true).unwrap(); // id 1
    tree.add_node(0, 22, false).unwrap(); // id 2

    assert_eq!(tree.sum(), 37);
    assert_eq!(tree.is_bst(), true);

    tree.add_node(1, 7, false).unwrap(); // id 3
    tree.add_node(2, 20, true).unwrap(); // id 4

    assert_eq!(tree.sum(), 64);
    assert_eq!(tree.is_bst(), true);
}

#[test]
fn test_is_bst_root() {
    let tree = Tree::with_root(1);
    assert_eq!(tree.is_bst(), true);
}

#[test]
fn test_is_bst() {
    let mut tree = Tree::with_root(50);
    assert_eq!(tree.is_bst(), true);

    tree.add_node(0, 15, true).unwrap();
    assert_eq!(tree.is_bst(), true);

    tree.add_node(0, 90, false).unwrap();
    assert_eq!(tree.is_bst(), true);

    tree.add_node(1, u32::MAX, false).unwrap();
    assert_eq!(tree.is_bst(), false);
}

#[test]
fn test_max_path_sum() {
    let mut tree = Tree::with_root(10);

    assert_eq!(tree.sum(), 10);

    tree.add_node(0, 5, true).unwrap(); // id 1
    tree.add_node(0, 22, false).unwrap(); // id 2

    assert_eq!(tree.sum(), 37);

    tree.add_node(1, 7, false).unwrap(); // id 3
    tree.add_node(2, 20, true).unwrap(); // id 4

    assert_eq!(tree.max_path_sum(), tree.sum())
}

#[test]
fn test_max_path_sum_2() {
    let mut tree = Tree::with_root(3);

    tree.add_node(0, 4, true).unwrap(); // id 1
    tree.add_node(0, 5, false).unwrap(); // id 2

    tree.add_node(1, 2, true).unwrap();
    tree.add_node(1, 4, false).unwrap();

    assert_eq!(tree.max_path_sum(), 16);
    assert_eq!(tree.is_bst(), false);
}

#[test]
fn test_max_path_sum_3() {
    let mut tree = Tree::with_root(0);

    tree.add_node(0, 5, true).unwrap(); // id 1
    tree.add_node(0, 6, false).unwrap(); // id 2

    tree.add_node(1, 8, true).unwrap(); // 3
    tree.add_node(1, 1, false).unwrap();

    tree.add_node(3, 2, true).unwrap();
    tree.add_node(3, 3, false).unwrap();

    tree.add_node(2, 3, true).unwrap();
    tree.add_node(2, 9, false).unwrap();

    tree.add_node(8, 0, false).unwrap();

    tree.add_node(9, 4, true).unwrap();
    tree.add_node(9, 1, false).unwrap();

    tree.add_node(11, 10, true).unwrap();

    assert_eq!(tree.max_path_sum(), 42);
    assert_eq!(tree.is_bst(), false);
}

#[test]
fn test_max_path_sum_4() {
    let mut tree = Tree::with_root(2);

    tree.add_node(0, 2, true).unwrap(); // id 1

    tree.add_node(1, 1, false).unwrap(); // 2
    assert_eq!(tree.max_path_sum(), 5);

    tree.add_node(1, 3, true).unwrap(); // 3
    assert_eq!(tree.max_path_sum(), 7);

    tree.add_node(2, 6, false).unwrap();
    assert_eq!(tree.max_path_sum(), 12);

    assert_eq!(tree.is_bst(), false);
}

#[test]
fn test_add_node_invalid_index() {
    let mut tree = Tree::with_root(1);
    assert_eq!(tree.add_node(5, 2, true), Err(TreeError::InvalidIndex));
    // The failed attachment left the tree unchanged.
    assert_eq!(tree.sum(), 1);
}

#[test]
fn test_add_node_slot_occupied() {
    let mut tree = Tree::with_root(1);
    tree.add_node(0, 2, true).unwrap();
    assert_eq!(tree.add_node(0, 3, true), Err(TreeError::SlotOccupied));
    // The right slot is still free, and ids keep counting from the arena length.
    assert_eq!(tree.add_node(0, 4, false), Ok(2));
    assert_eq!(tree.sum(), 7);
}

#[test]
fn test_root_with_two_leaf_children() {
    let mut tree = Tree::with_root(10);
    tree.add_node(0, 5, true).unwrap();
    tree.add_node(0, 22, false).unwrap();

    assert_eq!(tree.sum(), 37);
    assert_eq!(tree.is_bst(), true);
    assert_eq!(tree.max_path_sum(), 37);
}

#[test]
fn test_single_node_max_key_not_bst() {
    // The check compares every key against the type's maximum sentinel, so
    // a lone root holding that maximum is rejected.
    let tree = Tree::with_root(u32::MAX);
    assert_eq!(tree.is_bst(), false);
}

#[test]
fn test_left_chain_sum() {
    let mut tree = Tree::with_root(1);
    let mut parent = 0;
    for key in 2..=6u32 {
        parent = tree.add_node(parent, key, true).unwrap();
    }
    assert_eq!(tree.sum(), 21);
    assert_eq!(tree.max_path_sum(), 21);
}
