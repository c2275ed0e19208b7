use bool_algebra::bin_tree::{BinTree, BinTreeNode};

#[test]
fn test_tree_new_is_empty() {
    let tree: BinTree<i32> = BinTree::new();
    assert!(tree.get_root().value.is_none());
    assert!(tree.get_root().left.is_none());
    assert!(tree.get_root().right.is_none());
    assert_eq!(tree.get_max_depth(), 1);
}

#[test]
fn test_tree_insert_first_value_fills_root() {
    let mut tree: BinTree<i32> = BinTree::new();
    tree.insert(5);
    assert_eq!(tree.get_root().value, Some(5));
    assert!(tree.get_root().left.is_none());
    assert!(tree.get_root().right.is_none());
}

#[test]
fn test_tree_insert_orders_values() {
    let mut tree: BinTree<i32> = BinTree::new();
    tree.insert(5);
    tree.insert(3);
    tree.insert(8);
    tree.insert(5);
    tree.insert(4);
    let root = tree.get_root();
    assert_eq!(root.value, Some(5));
    let left = root.left.as_ref().unwrap();
    let right = root.right.as_ref().unwrap();
    assert_eq!(left.value, Some(3));
    assert_eq!(right.value, Some(8));
    assert!(left.left.is_none());
    let left_right = left.right.as_ref().unwrap();
    assert_eq!(left_right.value, Some(5));
    assert_eq!(left_right.left.as_ref().unwrap().value, Some(4));
    assert!(right.left.is_none());
    assert!(right.right.is_none());
    assert_eq!(tree.get_max_depth(), 4);
}

#[test]
fn test_tree_insert_many() {
    let mut many: BinTree<i32> = BinTree::new();
    many.insert_many(&vec![5, 3, 8, 5, 4]);
    let mut single: BinTree<i32> = BinTree::new();
    for v in [5, 3, 8, 5, 4] {
        single.insert(v);
    }
    assert_eq!(format!("{:?}", many), format!("{:?}", single));
    assert_eq!(many.get_max_depth(), 4);
}

#[test]
fn test_tree_insert_many_nothing() {
    let mut tree: BinTree<i32> = BinTree::new();
    tree.insert_many(&vec![]);
    assert!(tree.get_root().value.is_none());
}

#[test]
fn test_tree_clear() {
    let mut tree: BinTree<i32> = BinTree::new();
    tree.insert_many(&vec![2, 1, 3]);
    tree.clear();
    assert!(tree.get_root().value.is_none());
    assert!(tree.get_root().left.is_none());
    assert!(tree.get_root().right.is_none());
    assert_eq!(tree.get_max_depth(), 1);
}

#[test]
fn test_tree_sorted_input_degenerates() {
    let mut tree: BinTree<u8> = BinTree::new();
    tree.insert_many(&vec![1, 2, 3, 4, 5, 6]);
    assert_eq!(tree.get_max_depth(), 6);
    let mut tree: BinTree<u8> = BinTree::new();
    tree.insert_many(&vec![6, 5, 4, 3, 2, 1]);
    assert_eq!(tree.get_max_depth(), 6);
}

#[test]
fn test_node_init_children() {
    let mut node: BinTreeNode<i32> = BinTreeNode::of(1);
    node.init_left();
    assert!(node.left.as_ref().unwrap().value.is_none());
    assert!(node.right.is_none());
    node.init_right();
    assert!(node.right.as_ref().unwrap().value.is_none());
    assert_eq!(node.max_depth(), 2);
}

#[test]
fn test_node_init_keeps_existing_child() {
    let mut node = BinTreeNode::from(
        Some(1),
        Some(Box::new(BinTreeNode::of(0))),
        Some(Box::new(BinTreeNode::of(2))),
    );
    node.init_left();
    node.init_right();
    assert_eq!(node.left.as_ref().unwrap().value, Some(0));
    assert_eq!(node.right.as_ref().unwrap().value, Some(2));
}

#[test]
fn test_node_from_parts() {
    let node = BinTreeNode::from(Some('x'), None, Some(Box::new(BinTreeNode::new())));
    assert_eq!(node.value, Some('x'));
    assert!(node.left.is_none());
    assert!(node.right.as_ref().unwrap().value.is_none());
    assert_eq!(node.max_depth(), 2);
}

#[test]
fn test_node_insert_into_empty_node_keeps_children() {
    let mut node = BinTreeNode::from(None, Some(Box::new(BinTreeNode::of(9))), None);
    node.insert(1);
    assert_eq!(node.value, Some(1));
    assert_eq!(node.left.as_ref().unwrap().value, Some(9));
    assert!(node.right.is_none());
}

#[test]
fn test_node_insert_fills_empty_child() {
    let mut node: BinTreeNode<i32> = BinTreeNode::of(5);
    node.init_left();
    node.insert(3);
    assert_eq!(node.left.as_ref().unwrap().value, Some(3));
    assert!(node.left.as_ref().unwrap().left.is_none());
}

#[test]
fn test_tree_clone() {
    let mut tree: BinTree<i32> = BinTree::new();
    tree.insert_many(&vec![2, 1, 3]);
    let copy = tree.clone();
    assert_eq!(format!("{:?}", copy), format!("{:?}", tree));
}
