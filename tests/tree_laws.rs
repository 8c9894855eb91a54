use binary_tree::{search_value_on_node, TreeNode};

fn collect(node: &Option<Box<TreeNode<i32>>>, out: &mut Vec<i32>) {
    if let Some(n) = node {
        out.push(n.value);
        collect(&n.left, out);
        collect(&n.right, out);
    }
}

fn ordered_everywhere(node: &TreeNode<i32>) -> bool {
    let mut left = Vec::new();
    collect(&node.left, &mut left);
    let mut right = Vec::new();
    collect(&node.right, &mut right);
    if left.iter().any(|x| *x >= node.value) || right.iter().any(|x| *x < node.value) {
        return false;
    }
    let left_ok = node.left.as_ref().map_or(true, |n| ordered_everywhere(n));
    let right_ok = node.right.as_ref().map_or(true, |n| ordered_everywhere(n));
    left_ok && right_ok
}

#[test]
fn insert_equal_goes_right() {
    let mut tree = TreeNode::new(10);
    tree.insert(10);

    assert!(tree.left.is_none());
    assert_eq!(tree.right.as_ref().unwrap().value, 10);
}

#[test]
fn duplicate_makes_second_node_right_of_first() {
    let mut tree = TreeNode::new(20);
    tree.insert(7);
    tree.insert(7);

    let first = tree.left.as_ref().unwrap();
    assert_eq!(first.value, 7);
    assert!(first.left.is_none());
    let second = first.right.as_ref().unwrap();
    assert_eq!(second.value, 7);
    assert!(second.left.is_none());
    assert!(second.right.is_none());
    assert!(tree.right.is_none());
    assert!(tree.contains(7));
}

#[test]
fn duplicate_of_root_three_times() {
    let mut tree = TreeNode::new(4);
    tree.insert(4);
    tree.insert(4);

    let second = tree.right.as_ref().unwrap();
    let third = second.right.as_ref().unwrap();
    assert_eq!(second.value, 4);
    assert_eq!(third.value, 4);
    assert!(third.right.is_none());
    assert!(tree.contains(4));
}

#[test]
fn order_holds_after_mixed_inserts() {
    let values = [50, 20, 80, 20, 35, -4, 99, 50, 61, 0, 35, 77, -100, 50];
    let mut tree = TreeNode::new(42);
    for v in values {
        tree.insert(v);
    }
    assert!(ordered_everywhere(&tree));

    let mut held = Vec::new();
    held.push(tree.value);
    collect(&tree.left, &mut held);
    collect(&tree.right, &mut held);
    assert_eq!(held.len(), values.len() + 1);
    for v in values {
        assert!(tree.contains(v));
    }
    assert!(!tree.contains(1));
    assert!(!tree.contains(100));
}

#[test]
fn ascending_inserts_form_right_chain() {
    let mut tree = TreeNode::new(1);
    for v in 2..=6 {
        tree.insert(v);
    }
    let mut node = &tree;
    let mut depth = 1;
    while let Some(next) = node.right.as_ref() {
        assert!(node.left.is_none());
        assert_eq!(next.value, node.value + 1);
        node = next;
        depth += 1;
    }
    assert_eq!(depth, 6);
    assert!(ordered_everywhere(&tree));
}

#[test]
fn repeated_search_gives_same_answer() {
    let mut tree = TreeNode::new(10);
    tree.insert(5);
    tree.insert(15);

    for _ in 0..3 {
        assert!(tree.contains(15));
        assert!(!tree.contains(8));
    }
    assert_eq!(tree.right.as_ref().unwrap().value, 15);
    assert_eq!(tree.left.as_ref().unwrap().value, 5);
}

#[test]
fn search_in_absent_subtree_is_false() {
    let empty: Option<Box<TreeNode<i32>>> = None;
    assert!(!search_value_on_node(&empty, 3));
}

#[test]
fn search_in_present_subtree() {
    let mut node = TreeNode::new(8);
    node.insert(2);
    let present = Some(Box::new(node));
    assert!(search_value_on_node(&present, 2));
    assert!(search_value_on_node(&present, 8));
    assert!(!search_value_on_node(&present, 9));
}

#[test]
fn search_with_wide_keys() {
    let mut tree: TreeNode<u64> = TreeNode::new(u64::MAX);
    tree.insert(0);
    tree.insert(u64::MAX);
    assert!(tree.contains(0));
    assert!(tree.contains(u64::MAX));
    assert!(!tree.contains(1));

    let mut signed: TreeNode<i64> = TreeNode::new(i64::MIN);
    signed.insert(-1);
    assert_eq!(signed.right.as_ref().unwrap().value, -1);
    assert!(!signed.contains(0));
}
