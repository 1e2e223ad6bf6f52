use datastructs::structure::binary_tree::BinarySearchTree;

#[test]
fn find() {
    let mut tree = BinarySearchTree::new();
    tree.insert(("c", 0));
    tree.insert(("cpp", 1));
    tree.insert(("rust", 2));
    assert_eq!(&0, tree.find(&"c").unwrap());
    assert_eq!(&1, tree.find(&"cpp").unwrap());
    assert_eq!(&2, tree.find(&"rust").unwrap());
    assert_eq!(None, tree.find(&"go"));
    tree.insert(("rust", 3));
    assert_eq!(&3, tree.find(&"rust").unwrap());
}

#[test]
fn find_integer_keys() {
    let mut tree = BinarySearchTree::new();
    tree.insert((4u64, "four"));
    tree.insert((2u64, "two"));
    tree.insert((6u64, "six"));
    tree.insert((1u64, "one"));
    assert_eq!(Some(&"two"), tree.find(&2));
    assert_eq!(Some(&"six"), tree.find(&6));
    assert_eq!(None, tree.find(&5));
}
