use evlite::b_tree::{BTree, ConfigurationError, Node};
use evlite::order::{is_before, is_same};

fn tree_of(degree: i16, keys: &[i32]) -> BTree<String, i32> {
    let mut tree: BTree<String, i32> = BTree::new(degree).unwrap();
    for k in keys {
        tree.put(*k, format!("v{}", k));
    }
    tree
}

fn walk(node: &Node<String, i32>, keys: &mut Vec<i32>) {
    for i in 0..node.count() {
        if !node.is_leaf() {
            walk(node.child(i), keys);
        }
        keys.push(*node.key(i));
    }
    if !node.is_leaf() {
        walk(node.child(node.count()), keys);
    }
}

fn check_node(node: &Node<String, i32>, depth: usize, height: usize, t: usize, root: bool) {
    assert!(node.count() <= 2 * t - 1);
    if !root {
        assert!(node.count() >= t - 1);
    }
    for i in 1..node.count() {
        assert!(node.key(i - 1) < node.key(i));
    }
    if node.is_leaf() {
        assert_eq!(depth, height);
    } else {
        assert!(depth < height);
        for j in 0..=node.count() {
            check_node(node.child(j), depth + 1, height, t, false);
        }
    }
}

fn check_tree(tree: &BTree<String, i32>) {
    check_node(tree.root(), 0, tree.height(), tree.degree() as usize, true);
    let mut keys = Vec::new();
    walk(tree.root(), &mut keys);
    assert_eq!(keys.len(), tree.size());
    for i in 1..keys.len() {
        assert!(keys[i - 1] < keys[i]);
    }
}

fn shuffled(n: i32, seed: u64) -> Vec<i32> {
    let mut keys: Vec<i32> = (0..n).collect();
    let mut state = seed;
    for i in (1..keys.len()).rev() {
        state = state.wrapping_mul(6364136223846793005).wrapping_add(1442695040888963407);
        let j = (state >> 33) as usize % (i + 1);
        keys.swap(i, j);
    }
    keys
}

#[test]
fn degree_under_two_is_refused() {
    assert_eq!(
        BTree::<String, i32>::new(1).err(),
        Some(ConfigurationError { degree: 1 })
    );
    assert_eq!(
        BTree::<String, i32>::new(0).err(),
        Some(ConfigurationError { degree: 0 })
    );
    assert_eq!(
        BTree::<String, i32>::new(-3).err(),
        Some(ConfigurationError { degree: -3 })
    );
    assert_eq!(
        BTree::<String, i32>::new(i16::MIN).err(),
        Some(ConfigurationError { degree: i16::MIN })
    );
}

#[test]
fn degree_two_is_the_least_that_is_accepted() {
    let tree = BTree::<String, i32>::new(2).unwrap();
    assert_eq!(tree.degree(), 2);
    assert!(tree.is_empty());
    assert_eq!(tree.size(), 0);
    assert_eq!(tree.height(), 0);
    assert!(tree.root().is_leaf());
    assert_eq!(tree.root().count(), 0);
    assert!(BTree::<String, i32>::new(3).is_ok());
    assert!(BTree::<String, i32>::new(i16::MAX).is_ok());
}

#[test]
fn empty_index_finds_nothing() {
    let tree = BTree::<String, i32>::new(2).unwrap();
    assert_eq!(tree.get(0), None);
    assert_eq!(tree.get(17), None);
    assert_eq!(tree.search(tree.root(), 17, tree.height()), None);
}

#[test]
fn node_new_is_an_empty_leaf() {
    let node: Node<String, i32> = Node::new(8);
    assert_eq!(node.count(), 0);
    assert!(node.is_leaf());
}

#[test]
fn split_cascade_with_degree_two() {
    let mut tree: BTree<&str, i32> = BTree::new(2).unwrap();
    tree.put(10, "ten");
    tree.put(20, "twenty");
    tree.put(5, "five");
    assert_eq!(tree.height(), 0);
    assert_eq!(tree.root().count(), 3);
    tree.put(6, "six");
    assert_eq!(tree.height(), 1);
    assert_eq!(tree.root().count(), 1);
    assert_eq!(*tree.root().key(0), 10);
    tree.put(12, "twelve");
    assert_eq!(tree.root().count(), 1);
    assert_eq!(*tree.root().key(0), 10);
    assert_eq!(tree.root().child(0).count(), 2);
    assert_eq!(tree.root().child(1).count(), 2);
    tree.put(30, "thirty");
    tree.put(7, "seven");
    tree.put(17, "seventeen");
    assert_eq!(tree.get(17), Some("seventeen"));
    assert!(tree.height() > 0);
    assert_eq!(tree.height(), 1);
    assert_eq!(tree.size(), 8);
    assert_eq!(tree.root().count(), 2);
    assert_eq!(*tree.root().key(0), 10);
    assert_eq!(*tree.root().key(1), 20);
    assert_eq!(*tree.root().value(1), "twenty");
    let left = tree.root().child(0);
    assert_eq!((left.count(), *left.key(0), *left.key(1), *left.key(2)), (3, 5, 6, 7));
    let middle = tree.root().child(1);
    assert_eq!((middle.count(), *middle.key(0), *middle.key(1)), (2, 12, 17));
    let right = tree.root().child(2);
    assert_eq!((right.count(), *right.key(0)), (1, 30));
    for (k, v) in [(10, "ten"), (20, "twenty"), (5, "five"), (6, "six"), (12, "twelve"), (30, "thirty"), (7, "seven")] {
        assert_eq!(tree.get(k), Some(v));
    }
    assert_eq!(tree.get(11), None);
}

#[test]
fn round_trip_of_distinct_keys() {
    let keys = shuffled(500, 7);
    for degree in [2i16, 3, 4, 7, 50] {
        let tree = tree_of(degree, &keys);
        assert_eq!(tree.size(), 500);
        assert!(!tree.is_empty());
        for k in 0..500 {
            assert_eq!(tree.get(k), Some(format!("v{}", k)));
        }
        assert_eq!(tree.get(-1), None);
        assert_eq!(tree.get(500), None);
        assert_eq!(tree.get(i32::MAX), None);
        assert_eq!(tree.get(i32::MIN), None);
    }
}

#[test]
fn keys_on_internal_nodes_are_found() {
    let tree = tree_of(2, &[1, 2, 3, 4, 5, 6, 7, 8, 9, 10]);
    assert!(tree.height() >= 1);
    let root = tree.root();
    assert!(!root.is_leaf());
    for i in 0..root.count() {
        let k = *root.key(i);
        assert_eq!(tree.get(k), Some(format!("v{}", k)));
        assert_eq!(tree.search(root, k, tree.height()), Some(format!("v{}", k)));
    }
}

#[test]
fn search_below_a_child_sees_only_that_subtree() {
    let tree = tree_of(2, &[10, 20, 5, 6, 12, 30, 7, 17]);
    let left = tree.root().child(0);
    assert_eq!(tree.search(left, 6, tree.height() - 1), Some("v6".to_string()));
    assert_eq!(tree.search(left, 17, tree.height() - 1), None);
    assert_eq!(tree.search(left, 10, tree.height() - 1), None);
}

#[test]
fn second_put_under_a_key_replaces_the_value() {
    let mut tree: BTree<String, i32> = BTree::new(2).unwrap();
    tree.put(4, "first".to_string());
    assert_eq!(tree.size(), 1);
    tree.put(4, "second".to_string());
    assert_eq!(tree.size(), 1);
    assert_eq!(tree.get(4), Some("second".to_string()));
    assert!(!tree.is_empty());
}

#[test]
fn upsert_of_every_key_keeps_the_size() {
    let keys = shuffled(200, 11);
    for degree in [2i16, 3, 5] {
        let mut tree = tree_of(degree, &keys);
        for k in shuffled(200, 13) {
            tree.put(k, format!("w{}", k));
            assert_eq!(tree.size(), 200);
        }
        check_tree(&tree);
        for k in 0..200 {
            assert_eq!(tree.get(k), Some(format!("w{}", k)));
        }
    }
}

#[test]
fn upsert_of_the_median_of_a_full_child() {
    let mut tree = tree_of(2, &[10, 20, 5, 6, 12, 30]);
    assert_eq!(tree.root().child(1).count(), 3);
    tree.put(20, "again".to_string());
    assert_eq!(tree.size(), 6);
    assert_eq!(tree.get(20), Some("again".to_string()));
    assert_eq!(tree.root().count(), 2);
    assert_eq!(*tree.root().key(1), 20);
    check_tree(&tree);
}

#[test]
fn upsert_into_a_full_root_still_splits_it() {
    let mut tree = tree_of(2, &[1, 2, 3]);
    assert_eq!(tree.height(), 0);
    tree.put(2, "again".to_string());
    assert_eq!(tree.height(), 1);
    assert_eq!(tree.size(), 3);
    assert_eq!(tree.root().count(), 1);
    assert_eq!(tree.get(2), Some("again".to_string()));
    check_tree(&tree);
}

#[test]
fn occupancy_holds_after_every_put() {
    for degree in [2i16, 3, 4] {
        let mut tree: BTree<String, i32> = BTree::new(degree).unwrap();
        for k in shuffled(300, 3) {
            tree.put(k, format!("v{}", k));
            check_tree(&tree);
        }
    }
}

#[test]
fn leaves_are_all_at_the_depth_of_the_height() {
    let tree = tree_of(2, &shuffled(1000, 5));
    assert!(tree.height() >= 4);
    check_tree(&tree);
    let tree = tree_of(40, &shuffled(1000, 5));
    assert!(tree.height() >= 1);
    check_tree(&tree);
}

#[test]
fn walk_from_left_to_right_is_sorted() {
    for keys in [shuffled(64, 1), (0..64).collect::<Vec<i32>>(), (0..64).rev().collect::<Vec<i32>>()] {
        let tree = tree_of(2, &keys);
        let mut seen = Vec::new();
        walk(tree.root(), &mut seen);
        assert_eq!(seen, (0..64).collect::<Vec<i32>>());
    }
}

#[test]
fn height_grows_only_when_the_root_is_full() {
    let mut tree: BTree<String, i32> = BTree::new(3).unwrap();
    for k in 0..5 {
        tree.put(k, String::new());
        assert_eq!(tree.height(), 0);
    }
    assert_eq!(tree.root().count(), 5);
    tree.put(5, String::new());
    assert_eq!(tree.height(), 1);
    assert_eq!(tree.root().count(), 1);
    assert_eq!(tree.root().child(0).count(), 2);
    assert_eq!(tree.root().child(1).count(), 3);
}

#[test]
fn keys_may_be_pairs() {
    let mut tree: BTree<u8, (u8, i64)> = BTree::new(2).unwrap();
    for a in 0..6u8 {
        for b in (0..6i64).rev() {
            tree.put((a, b), a * 10 + b as u8);
        }
    }
    assert_eq!(tree.size(), 36);
    assert_eq!(tree.get((3, 4)), Some(34));
    assert_eq!(tree.get((6, 0)), None);
}

#[test]
fn order_of_integers() {
    assert!(is_before(&1, &2));
    assert!(!is_before(&2, &2));
    assert!(!is_before(&3, &2));
    assert!(is_same(&2, &2));
    assert!(!is_same(&2, &-2));
}
