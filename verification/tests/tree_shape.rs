use tree_builder::tree::TreeNode;

/// The node at heap rank `idx` (1 = root), following the binary digits of
/// `idx` below the leading one: 0 = left, 1 = right.
fn node_at(root: &TreeNode<i32>, idx: usize) -> Option<&TreeNode<i32>> {
    let mut path = Vec::new();
    let mut m = idx;
    while m > 1 {
        path.push(m % 2 == 1);
        m /= 2;
    }
    let mut cur = root;
    for &b in path.iter().rev() {
        let child = if b { cur.right.as_ref() } else { cur.left.as_ref() };
        match child {
            Some(c) => cur = c,
            None => return None,
        }
    }
    Some(cur)
}

/// Checks that exactly the ranks `1..=size` hold nodes: the shape of a
/// complete binary tree of that size.
fn assert_complete(root: &TreeNode<i32>, size: usize) {
    for idx in 1..=size {
        assert!(node_at(root, idx).is_some(), "rank {} missing", idx);
    }
    for idx in (size + 1)..(2 * size + 3) {
        assert!(node_at(root, idx).is_none(), "rank {} unexpectedly present", idx);
    }
}

#[test]
fn new_node_is_a_leaf() {
    let n = TreeNode::new(7);
    assert_eq!(n.key, 7);
    assert!(n.left.is_none());
    assert!(n.right.is_none());
}

#[test]
fn scenario_insert_three() {
    let mut root = TreeNode::new(1);
    root.insert(2);
    root.insert(3);
    root.insert(4);
    assert_eq!(root.key, 1);
    let left = root.left.as_ref().unwrap();
    let right = root.right.as_ref().unwrap();
    assert_eq!(left.key, 2);
    assert_eq!(right.key, 3);
    assert_eq!(left.left.as_ref().unwrap().key, 4);
    assert!(left.right.is_none());
    assert!(right.left.is_none());
    assert!(right.right.is_none());
}

#[test]
fn fill_order_five_inserts() {
    let mut root = TreeNode::new(0);
    for k in 1..=5 {
        root.insert(k);
    }
    // Breadth-first, left before right: ranks 1..=6 hold keys 0..=5.
    for idx in 1..=6 {
        assert_eq!(node_at(&root, idx).unwrap().key, idx as i32 - 1);
    }
}

#[test]
fn insert_keeps_tree_complete() {
    let mut root = TreeNode::new(100);
    for n in 0..12 {
        assert_complete(&root, n + 1);
        root.insert(n as i32);
    }
    assert_complete(&root, 13);
}

#[test]
fn insert_scans_from_the_receiver() {
    // Inserting into a subtree fills that subtree's first free slot.
    let mut root = TreeNode::new(1);
    root.insert(2);
    root.insert(3);
    root.right.as_mut().unwrap().insert(9);
    let right = root.right.as_ref().unwrap();
    assert_eq!(right.left.as_ref().unwrap().key, 9);
    assert!(root.left.as_ref().unwrap().left.is_none());
}

#[test]
fn fluent_construction_chains() {
    let t = TreeNode::new(1)
        .with_left(TreeNode::new(2).with_left(TreeNode::new(4)))
        .with_right(TreeNode::new(3));
    assert_eq!(t.key, 1);
    assert_eq!(t.left.as_ref().unwrap().key, 2);
    assert_eq!(t.left.as_ref().unwrap().left.as_ref().unwrap().key, 4);
    assert_eq!(t.right.as_ref().unwrap().key, 3);
}

#[test]
fn with_left_overwrite_keeps_second() {
    let first = TreeNode::new(10).with_left(TreeNode::new(1).with_right(TreeNode::new(5)));
    let second = first.with_left(TreeNode::new(2));
    let left = second.left.as_ref().unwrap();
    assert_eq!(left.key, 2);
    assert!(left.left.is_none());
    assert!(left.right.is_none());
    assert!(second.right.is_none());
    assert_eq!(second.key, 10);
}

#[test]
fn with_right_overwrite_keeps_second() {
    let twice = TreeNode::new(0).with_right(TreeNode::new(8)).with_right(TreeNode::new(9));
    assert_eq!(twice.right.as_ref().unwrap().key, 9);
    assert!(twice.left.is_none());
}

#[test]
fn repeated_reads_leave_tree_unchanged() {
    let mut root = TreeNode::new(0);
    for k in 1..=6 {
        root.insert(k);
    }
    let mut first_pass = Vec::new();
    let mut second_pass = Vec::new();
    for idx in 1..=7 {
        first_pass.push(node_at(&root, idx).map(|n| n.key));
    }
    for idx in 1..=7 {
        second_pass.push(node_at(&root, idx).map(|n| n.key));
    }
    assert_eq!(first_pass, second_pass);
    assert_eq!(first_pass, vec![Some(0), Some(1), Some(2), Some(3), Some(4), Some(5), Some(6)]);
    assert_complete(&root, 7);
}

#[test]
fn keys_are_never_compared() {
    // Shape depends only on the number of insertions, not on key values.
    let mut ascending = TreeNode::new(0);
    let mut descending = TreeNode::new(0);
    for k in 1..=5 {
        ascending.insert(k);
        descending.insert(-k);
    }
    for idx in 1..=6 {
        assert_eq!(
            node_at(&ascending, idx).is_some(),
            node_at(&descending, idx).is_some()
        );
    }
}

#[test]
fn generic_keys_of_other_types() {
    let mut root = TreeNode::new(String::from("root"));
    root.insert(String::from("first"));
    root.insert(String::from("second"));
    assert_eq!(root.left.as_ref().unwrap().key, "first");
    assert_eq!(root.right.as_ref().unwrap().key, "second");
}
