use algos::bst::BinarySearchTree;

#[test]
fn test_insert_and_search() {
    let mut bst = BinarySearchTree::new();

    assert_eq!(bst.search(1), false);

    bst.insert(5);
    bst.insert(3);
    bst.insert(7);
    bst.insert(2);
    bst.insert(4);

    assert_eq!(bst.search(5), true);
    assert_eq!(bst.search(3), true);
    assert_eq!(bst.search(7), true);
    assert_eq!(bst.search(2), true);
    assert_eq!(bst.search(4), true);

    assert_eq!(bst.search(1), false);
    assert_eq!(bst.search(6), false);
}

#[test]
fn test_insert_duplicate() {
    let mut bst = BinarySearchTree::new();

    bst.insert(1);
    bst.insert(1);

    assert_eq!(bst.search(1), true);

    match bst.root {
        Some(ref node) => {
            assert!(node.left.is_none());
            assert!(node.right.is_none());
        }
        None => panic!("Root should not be None after insertion"),
    }
}

#[test]
fn search_on_empty_tree_finds_nothing() {
    let bst = BinarySearchTree::<u64>::new();
    assert_eq!(bst.search(0), false);
    assert_eq!(bst.search(u64::MAX), false);
}

#[test]
fn insertion_order_does_not_affect_membership() {
    let mut ascending = BinarySearchTree::new();
    let mut mixed = BinarySearchTree::new();
    for v in 1..=7 {
        ascending.insert(v);
    }
    for v in [4, 2, 6, 1, 3, 5, 7] {
        mixed.insert(v);
    }
    for v in 1..=7 {
        assert!(ascending.search(v));
        assert!(mixed.search(v));
    }
    assert!(!ascending.search(0));
    assert!(!mixed.search(8));
}
