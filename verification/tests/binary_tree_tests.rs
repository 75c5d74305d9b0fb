use algos::binary_tree::BinaryTree;

#[test]
fn create_new_tree() {
    let tree = BinaryTree::new(1);

    assert_eq!(tree.value, 1);
}

#[test]
fn insert_left() {
    let tree = BinaryTree::new(1).left(BinaryTree::new(2));

    if let Some(node) = tree.left {
        assert_eq!(node.value, 2);
    }

    assert_eq!(tree.right, None);
}

#[test]
fn insert_right() {
    let tree = BinaryTree::new(1).right(BinaryTree::new(2));

    if let Some(node) = tree.right {
        assert_eq!(node.value, 2);
    }

    assert_eq!(tree.left, None);
}

#[test]
fn insert() {
    let mut tree = BinaryTree::new(1);
    tree.insert(2);
    tree.insert(3);
    tree.insert(4);
    tree.insert(5);

    assert_eq!(
        tree,
        BinaryTree::new(1)
            .left(BinaryTree::new(2).left(BinaryTree::new(4)).right(BinaryTree::new(5)))
            .right(BinaryTree::new(3))
    );

    tree.insert(6);

    assert_eq!(
        tree,
        BinaryTree::new(1)
            .left(BinaryTree::new(2).left(BinaryTree::new(4)).right(BinaryTree::new(5)))
            .right(BinaryTree::new(3).left(BinaryTree::new(6)))
    )
}

#[test]
fn create_new_tree_with_from() {
    // `BinaryTree::from` takes in a reference of an array because borrowing is sufficient
    let tree = BinaryTree::from(&[1, 2, 3, 4, 5, 6]);

    assert_eq!(
        tree,
        BinaryTree::new(1)
            .left(BinaryTree::new(2).left(BinaryTree::new(4)).right(BinaryTree::new(5)))
            .right(BinaryTree::new(3).left(BinaryTree::new(6)))
    )
}

#[test]
fn insert_fills_levels_left_to_right() {
    let mut tree = BinaryTree::new(10);
    tree.insert(20);
    assert_eq!(tree.left.as_ref().map(|n| n.value), Some(20));
    assert_eq!(tree.right, None);
    tree.insert(30);
    assert_eq!(tree.right.as_ref().map(|n| n.value), Some(30));
}
