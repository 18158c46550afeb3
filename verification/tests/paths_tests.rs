use arena_tree::paths::{max_leaf_path, Node};

fn leaf(key: i32) -> Node {
    Node { key, left: Box::new(None), right: Box::new(None) }
}

#[test]
fn test_max_leaf_path_empty() {
    assert_eq!(max_leaf_path(None), (0, 0));
}

#[test]
fn test_max_leaf_path_single() {
    assert_eq!(max_leaf_path(Some(leaf(5))), (5, 5));
}

#[test]
fn test_max_leaf_path_two_levels() {
    let root = Node {
        key: 1,
        left: Box::new(Some(leaf(2))),
        right: Box::new(Some(leaf(3))),
    };
    // The pair's components trade roles between levels: the bent path 3+1+2
    // comes first, the best child total plus the key second.
    assert_eq!(max_leaf_path(Some(root)), (6, 4));
}

#[test]
fn test_max_leaf_path_negative() {
    let root = Node {
        key: -1,
        left: Box::new(Some(leaf(4))),
        right: Box::new(None),
    };
    assert_eq!(max_leaf_path(Some(root)), (4, 3));
}
