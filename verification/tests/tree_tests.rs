use ordered_containers::tree::BinarySearchTree;
use ordered_containers::tree::TreeNode;

#[test]
fn test_insert_and_search() {
    let mut bst = BinarySearchTree::new();

    assert_eq!(bst.search(1), false);

    bst.insert(5);
    bst.insert(3);
    bst.insert(7);
    bst.insert(2);
    bst.insert(4);

    assert_eq!(bst.search(5), true);
    assert_eq!(bst.search(3), true);
    assert_eq!(bst.search(7), true);
    assert_eq!(bst.search(2), true);
    assert_eq!(bst.search(4), true);

    assert_eq!(bst.search(1), false);
    assert_eq!(bst.search(6), false);
}

#[test]
fn test_insert_duplicate() {
    let mut bst = BinarySearchTree::new();

    bst.insert(1);
    bst.insert(1);

    assert_eq!(bst.search(1), true);

    match bst.root {
        Some(ref node) => {
            assert!(node.left.is_none());
            assert!(node.right.is_none());
        }
        None => panic!("Root should not be None after insertion"),
    }
}

fn in_order(link: &Option<Box<TreeNode<i32>>>, out: &mut Vec<i32>) {
    if let Some(node) = link {
        in_order(&node.left, out);
        out.push(node.value);
        in_order(&node.right, out);
    }
}

fn pre_order(link: &Option<Box<TreeNode<i32>>>, out: &mut Vec<i32>) {
    if let Some(node) = link {
        out.push(node.value);
        pre_order(&node.left, out);
        pre_order(&node.right, out);
    }
}

fn keeps_search_order(link: &Option<Box<TreeNode<i32>>>, low: Option<i32>, high: Option<i32>) -> bool {
    match link {
        None => true,
        Some(node) => {
            let above_low = match low {
                Some(l) => l < node.value,
                None => true,
            };
            let below_high = match high {
                Some(h) => node.value < h,
                None => true,
            };
            above_low
                && below_high
                && keeps_search_order(&node.left, low, Some(node.value))
                && keeps_search_order(&node.right, Some(node.value), high)
        }
    }
}

#[test]
fn test_empty_tree_has_no_root() {
    let bst: BinarySearchTree<i32> = BinarySearchTree::new();
    assert!(bst.root.is_none());
    assert_eq!(bst.search(0), false);
    assert_eq!(bst.search(i32::MIN), false);
    assert_eq!(bst.search(i32::MAX), false);
}

#[test]
fn test_first_insert_becomes_root() {
    let mut bst = BinarySearchTree::new();
    bst.insert(42);
    let root = bst.root.as_ref().expect("root after one insertion");
    assert_eq!(root.value, 42);
    assert!(root.left.is_none());
    assert!(root.right.is_none());
}

#[test]
fn test_node_new_is_a_leaf() {
    let node = TreeNode::new(9);
    assert_eq!(node.value, 9);
    assert!(node.left.is_none());
    assert!(node.right.is_none());
}

#[test]
fn test_node_insert_places_smaller_left_and_larger_right() {
    let mut node = TreeNode::new(10);
    node.insert(4);
    node.insert(15);
    node.insert(10);
    assert_eq!(node.value, 10);
    assert_eq!(node.left.as_ref().map(|n| n.value), Some(4));
    assert_eq!(node.right.as_ref().map(|n| n.value), Some(15));
    assert!(node.left.as_ref().unwrap().left.is_none());
    assert!(node.right.as_ref().unwrap().right.is_none());
}

#[test]
fn test_membership_matches_inserted_values() {
    let inserted = [50, 30, 70, 20, 40, 60, 80, 30, 50, -5, 65];
    let mut bst = BinarySearchTree::new();
    for v in inserted {
        bst.insert(v);
    }
    for x in -10..=90 {
        assert_eq!(bst.search(x), inserted.contains(&x), "value {}", x);
    }
}

#[test]
fn test_duplicate_insert_leaves_shape_unchanged() {
    let values = [8, 3, 10, 1, 6, 14, 4, 7, 13];
    let mut once = BinarySearchTree::new();
    for v in values {
        once.insert(v);
    }
    let mut shape_once = Vec::new();
    pre_order(&once.root, &mut shape_once);
    let mut sorted_once = Vec::new();
    in_order(&once.root, &mut sorted_once);

    for v in values {
        once.insert(v);
    }
    let mut shape_twice = Vec::new();
    pre_order(&once.root, &mut shape_twice);
    let mut sorted_twice = Vec::new();
    in_order(&once.root, &mut sorted_twice);

    assert_eq!(shape_once, vec![8, 3, 1, 6, 4, 7, 10, 14, 13]);
    assert_eq!(shape_twice, shape_once);
    assert_eq!(sorted_twice, sorted_once);
    assert_eq!(sorted_once.len(), 9);
}

#[test]
fn test_search_order_holds_for_any_insertion_order() {
    let orders: [[i32; 7]; 4] = [
        [4, 2, 6, 1, 3, 5, 7],
        [1, 2, 3, 4, 5, 6, 7],
        [7, 6, 5, 4, 3, 2, 1],
        [3, 7, 1, 5, 2, 6, 4],
    ];
    for order in orders {
        let mut bst = BinarySearchTree::new();
        for v in order {
            bst.insert(v);
            assert!(keeps_search_order(&bst.root, None, None));
        }
        let mut sorted = Vec::new();
        in_order(&bst.root, &mut sorted);
        assert_eq!(sorted, vec![1, 2, 3, 4, 5, 6, 7]);
    }
}

#[test]
fn test_increasing_input_degenerates_to_a_chain() {
    let mut bst = BinarySearchTree::new();
    for v in 1..=5 {
        bst.insert(v);
    }
    let mut link = &bst.root;
    let mut expected = 1;
    while let Some(node) = link {
        assert_eq!(node.value, expected);
        assert!(node.left.is_none());
        link = &node.right;
        expected += 1;
    }
    assert_eq!(expected, 6);
}

#[test]
fn test_insert_never_moves_existing_nodes() {
    let mut bst = BinarySearchTree::new();
    bst.insert(5);
    bst.insert(3);
    bst.insert(7);
    let mut before = Vec::new();
    pre_order(&bst.root, &mut before);
    assert_eq!(before, vec![5, 3, 7]);
    bst.insert(6);
    let mut after = Vec::new();
    pre_order(&bst.root, &mut after);
    assert_eq!(after, vec![5, 3, 7, 6]);
    let seven = bst.root.as_ref().unwrap().right.as_ref().unwrap();
    assert_eq!(seven.left.as_ref().map(|n| n.value), Some(6));
    assert!(seven.right.is_none());
}

#[test]
fn test_tree_of_strings() {
    let mut bst = BinarySearchTree::new();
    bst.insert(String::from("pear"));
    bst.insert(String::from("apple"));
    bst.insert(String::from("quince"));
    assert!(bst.search(String::from("apple")));
    assert!(bst.search(String::from("quince")));
    assert!(!bst.search(String::from("plum")));
}
