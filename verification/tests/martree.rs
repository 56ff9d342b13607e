use coedit::martree::{MarTree, Node, T};

// Full structural and size invariant verification, as a plain check on the
// public fields.
fn assert_full_invariants(node: &Node, is_root: bool) -> usize {
    // 1. Key bounds
    if !is_root {
        assert!(
            node.keys.len() >= T - 1,
            "Underflow: {} keys",
            node.keys.len()
        );
    }
    assert!(
        node.keys.len() <= 2 * T - 1,
        "Overflow: {} keys",
        node.keys.len()
    );

    // 2. Sorted keys
    for i in 1..node.keys.len() {
        assert!(node.keys[i - 1] < node.keys[i], "Keys not sorted");
    }

    // 3. Children count
    if node.is_leaf {
        assert!(node.children.is_empty(), "Leaf has children");
    } else {
        assert_eq!(node.children.len(), node.keys.len() + 1, "Children mismatch");
    }

    // 4. Recursively compute real subtree size
    let mut actual_size = node.keys.len();

    for child in &node.children {
        actual_size += assert_full_invariants(child, false);
    }

    // 5. Size correctness
    assert_eq!(
        node.size, actual_size,
        "Size mismatch: stored={}, actual={}",
        node.size, actual_size
    );

    actual_size
}

#[test]
fn insert_sequential() {
    let mut tree = MarTree::default();

    for i in 0..1000 {
        tree.insert(i);
    }

    assert_eq!(tree.root.size, 1000);
    assert_full_invariants(&tree.root, true);
}

#[test]
fn delete_sequential() {
    let mut tree = MarTree::default();

    for i in 0..1000 {
        tree.insert(i);
    }

    for i in 0..1000 {
        tree.remove(i);
        assert_eq!(tree.root.size, 999 - i);
        assert_full_invariants(&tree.root, true);
    }

    assert_eq!(tree.root.size, 0);
    assert!(tree.root.is_leaf);
}

#[test]
fn delete_nonexistent() {
    let mut tree = MarTree::default();

    for i in 0..200 {
        tree.insert(i);
    }

    tree.remove(9999);

    assert_eq!(tree.root.size, 200);
    assert_full_invariants(&tree.root, true);
}

#[test]
fn reverse_insert_delete() {
    let mut tree = MarTree::default();

    for i in (0..500).rev() {
        tree.insert(i);
    }

    assert_full_invariants(&tree.root, true);

    for i in (0..500).rev() {
        tree.remove(i);
        assert_full_invariants(&tree.root, true);
    }

    assert_eq!(tree.root.size, 0);
}

#[test]
fn randomized_against_btreeset() {
    let mut tree = MarTree::default();
    let mut reference = std::collections::BTreeSet::new();

    for i in 0..500 {
        tree.insert(i);
        reference.insert(i);
    }

    for i in (0..500).rev() {
        tree.remove(i);
        reference.remove(&i);

        assert_eq!(tree.root.size, reference.len());
        assert_full_invariants(&tree.root, true);
    }

    assert_eq!(tree.root.size, 0);
}

#[test]
fn stress_mixed_operations() {
    let mut tree = MarTree::default();
    let mut reference = std::collections::BTreeSet::new();

    for _ in 0..5000 {
        let value = rand::random_range(0..1000usize);

        if rand::random_bool(0.5) {
            let inserted = reference.insert(value);
            if inserted {
                tree.insert(value);
            }
        } else {
            tree.remove(value);
            reference.remove(&value);
        }

        assert_eq!(tree.root.size, reference.len());
        assert_full_invariants(&tree.root, true);
    }
}

#[test]
fn root_shrinks_correctly() {
    let mut tree = MarTree::default();

    for i in 0..200 {
        tree.insert(i);
    }

    for i in 0..200 {
        tree.remove(i);
        assert_full_invariants(&tree.root, true);
    }

    assert_eq!(tree.root.size, 0);
    assert!(tree.root.is_leaf);
}

#[test]
fn size_matches_total_keys_function() {
    let mut tree = MarTree::default();

    for i in 0..300 {
        tree.insert(i);
    }

    assert_eq!(tree.root.size, tree.root.total_keys());

    for i in 0..300 {
        tree.remove(i);
        assert_eq!(tree.root.size, tree.root.total_keys());
    }
}

#[test]
fn validate_matches_shape() {
    let mut tree = MarTree::default();
    assert!(tree.validate());
    for i in 0..100 {
        tree.insert(i);
        assert!(tree.validate());
    }
}
