use binary_tree::{Node, Traversal};

fn sample() -> Node<usize> {
    let mut root: Node<usize> = Node::new(4);
    root.insert(2);
    root.insert(1);
    root.insert(3);
    root.insert(6);
    root.insert(5);
    root.insert(7);
    root
}

#[test]
fn test_get_values() {
    let mut root: Node<usize> = Node::new(4);
    root.insert(2);
    root.insert(1);
    root.insert(3);
    root.insert(6);
    root.insert(5);
    root.insert(7);

    let expected: Vec<usize> = (1..=7).collect();
    let actual = root.get_values(&Traversal::InOrder);
    assert_eq!(actual, expected);

    let expected: Vec<usize> = vec![4, 2, 1, 3, 6, 5, 7];
    let actual = root.get_values(&Traversal::PreOrder);
    assert_eq!(actual, expected);
}

#[test]
fn test_delete_leaf() {
    let mut root: Node<usize> = Node::new(4);
    root.insert(2);
    root.insert(1);
    root.insert(3);
    root.insert(6);
    root.insert(5);
    root.insert(7);

    let tree = root.delete(&3).unwrap();
    assert_eq!(tree.get_values(&Traversal::InOrder), vec![1, 2, 4, 5, 6, 7]);
}

#[test]
fn test_delete_middle() {
    let mut root: Node<usize> = Node::new(4);
    root.insert(2);
    root.insert(1);
    root.insert(3);
    root.insert(6);
    root.insert(5);
    root.insert(7);

    let tree = root.delete(&6).unwrap();
    assert_eq!(tree.get_values(&Traversal::InOrder), vec![1, 2, 3, 4, 5, 7]);
}

#[test]
fn test_delete_root() {
    let mut root: Node<usize> = Node::new(4);
    root.insert(2);
    root.insert(1);
    root.insert(3);
    root.insert(6);
    root.insert(5);
    root.insert(7);

    let tree = root.delete(&4).unwrap();
    assert_eq!(tree.get_values(&Traversal::InOrder), vec![1, 2, 3, 5, 6, 7]);
}

#[test]
fn test_new_holds_one_value() {
    let root: Node<i32> = Node::new(-9);
    assert_eq!(root.get_values(&Traversal::InOrder), vec![-9]);
    assert_eq!(root.get_values(&Traversal::PreOrder), vec![-9]);
}

#[test]
fn test_in_order_ascends_whatever_the_insertion_order() {
    let inserted: [u32; 12] = [50, 7, 93, 7, 21, 64, 1, 88, 50, 35, 100, 2];
    let mut root = Node::new(inserted[0]);
    for v in &inserted[1..] {
        root.insert(*v);
    }
    let values = root.get_values(&Traversal::InOrder);
    assert_eq!(values, vec![1, 2, 7, 21, 35, 50, 64, 88, 93, 100]);
    for pair in values.windows(2) {
        assert!(pair[0] < pair[1]);
    }
}

#[test]
fn test_insert_descends_without_rebalancing() {
    let mut root: Node<u8> = Node::new(1);
    root.insert(2);
    root.insert(3);
    root.insert(4);
    assert_eq!(root.get_values(&Traversal::PreOrder), vec![1, 2, 3, 4]);
    assert_eq!(root.get_values(&Traversal::InOrder), vec![1, 2, 3, 4]);

    let mut root: Node<u8> = Node::new(4);
    root.insert(3);
    root.insert(2);
    root.insert(1);
    assert_eq!(root.get_values(&Traversal::PreOrder), vec![4, 3, 2, 1]);
    assert_eq!(root.get_values(&Traversal::InOrder), vec![1, 2, 3, 4]);
}

#[test]
fn test_insert_duplicate_changes_nothing() {
    let mut root = sample();
    let in_order = root.get_values(&Traversal::InOrder);
    let pre_order = root.get_values(&Traversal::PreOrder);
    for v in 1..=7 {
        root.insert(v);
        assert_eq!(root.get_values(&Traversal::InOrder), in_order);
        assert_eq!(root.get_values(&Traversal::PreOrder), pre_order);
    }
}

#[test]
fn test_get_values_is_repeatable() {
    let root = sample();
    let first = root.get_values(&Traversal::PreOrder);
    let second = root.get_values(&Traversal::PreOrder);
    assert_eq!(first, second);
    assert_eq!(root.get_values(&Traversal::InOrder), root.get_values(&Traversal::InOrder));
}

#[test]
fn test_delete_leaves_receiver_untouched() {
    let root = sample();
    let _ = root.delete(&4);
    assert_eq!(root.get_values(&Traversal::PreOrder), vec![4, 2, 1, 3, 6, 5, 7]);
}

#[test]
fn test_delete_sole_value_leaves_no_tree() {
    let root: Node<usize> = Node::new(11);
    assert!(root.delete(&11).is_none());
}

#[test]
fn test_delete_down_to_nothing() {
    let mut tree = Some(sample());
    let mut expected: Vec<usize> = (1..=7).collect();
    for v in [4usize, 1, 7, 3, 5, 2, 6] {
        tree = tree.unwrap().delete(&v);
        expected.retain(|x| *x != v);
        match &tree {
            Some(t) => assert_eq!(t.get_values(&Traversal::InOrder), expected),
            None => assert!(expected.is_empty()),
        }
    }
    assert!(tree.is_none());
}

#[test]
fn test_delete_missing_value_keeps_contents() {
    let root = sample();
    let tree = root.delete(&42).unwrap();
    assert_eq!(tree.get_values(&Traversal::InOrder), vec![1, 2, 3, 4, 5, 6, 7]);
    // seven ascending values rebuild to the shape they were inserted in
    assert_eq!(tree.get_values(&Traversal::PreOrder), vec![4, 2, 1, 3, 6, 5, 7]);
}

#[test]
fn test_delete_rebuilds_balanced() {
    let mut root: Node<u64> = Node::new(1);
    for v in 2..=8 {
        root.insert(v);
    }
    assert_eq!(root.get_values(&Traversal::PreOrder), vec![1, 2, 3, 4, 5, 6, 7, 8]);

    // 1 2 3 4 5 6 7 remain: the midpoint 4 first, then 2 and 6 around it
    let tree = root.delete(&8).unwrap();
    assert_eq!(tree.get_values(&Traversal::PreOrder), vec![4, 2, 1, 3, 6, 5, 7]);
    assert_eq!(tree.get_values(&Traversal::InOrder), vec![1, 2, 3, 4, 5, 6, 7]);

    // 2 3 4 5 6 7 remain: of the two middle values the first, 4, is the root
    let tree = tree.delete(&1).unwrap();
    assert_eq!(tree.get_values(&Traversal::PreOrder), vec![4, 2, 3, 6, 5, 7]);
    assert_eq!(tree.get_values(&Traversal::InOrder), vec![2, 3, 4, 5, 6, 7]);
}

#[test]
fn test_delete_of_the_sample_tree_shapes() {
    let root = sample();
    let tree = root.delete(&3).unwrap();
    assert_eq!(tree.get_values(&Traversal::PreOrder), vec![4, 1, 2, 6, 5, 7]);
    let tree = root.delete(&6).unwrap();
    assert_eq!(tree.get_values(&Traversal::PreOrder), vec![3, 1, 2, 5, 4, 7]);
    let tree = root.delete(&4).unwrap();
    assert_eq!(tree.get_values(&Traversal::PreOrder), vec![3, 1, 2, 6, 5, 7]);
}

#[test]
fn test_tree_of_strings() {
    let mut root: Node<String> = Node::new(String::from("pear"));
    for name in ["fig", "quince", "apple", "plum", "fig"] {
        root.insert(String::from(name));
    }
    assert_eq!(
        root.get_values(&Traversal::InOrder),
        vec!["apple", "fig", "pear", "plum", "quince"]
    );
    assert_eq!(
        root.get_values(&Traversal::PreOrder),
        vec!["pear", "fig", "apple", "quince", "plum"]
    );
    let tree = root.delete(&String::from("pear")).unwrap();
    assert_eq!(tree.get_values(&Traversal::InOrder), vec!["apple", "fig", "plum", "quince"]);
    assert_eq!(tree.get_values(&Traversal::PreOrder), vec!["fig", "apple", "plum", "quince"]);
}
