//! Property checks on longer runs: sorted in-order traversal, the
//! logarithmic height bound, and the invariants after every insertion.

use red_black_tree::Color;
use red_black_tree::Node;
use red_black_tree::RedBlackTree;

fn is_red<V>(node: &Option<Box<Node<V>>>) -> bool {
    match node {
        Some(n) => n.color == Color::Red,
        None => false,
    }
}

fn no_red_red<V>(node: &Option<Box<Node<V>>>) -> bool {
    match node {
        None => true,
        Some(n) => {
            (n.color == Color::Black || (!is_red(&n.left) && !is_red(&n.right)))
                && no_red_red(&n.left)
                && no_red_red(&n.right)
        }
    }
}

fn black_height<V>(node: &Option<Box<Node<V>>>) -> Option<u64> {
    match node {
        None => Some(0),
        Some(n) => {
            let l = black_height(&n.left)?;
            let r = black_height(&n.right)?;
            if l != r {
                return None;
            }
            Some(l + if n.color == Color::Black { 1 } else { 0 })
        }
    }
}

fn assert_strictly_ascending(keys: &[u64]) {
    for w in keys.windows(2) {
        assert!(w[0] < w[1], "keys {} and {} out of order", w[0], w[1]);
    }
}

#[test]
fn inorder_sorted_after_mixed_inserts() {
    let inserts = [50u64, 20, 80, 10, 30, 70, 90, 30, 50, 5, 95, 20];
    let mut t = RedBlackTree::new();
    for (i, &k) in inserts.iter().enumerate() {
        t.insert(k, i);
    }
    let keys = t.in_order_keys();
    assert_strictly_ascending(&keys);
    // duplicates collapse to one entry each
    assert_eq!(keys, vec![5, 10, 20, 30, 50, 70, 80, 90, 95]);
}

#[test]
fn invariants_hold_after_every_insert() {
    let inserts = [13u64, 8, 17, 1, 11, 15, 25, 6, 22, 27, 2, 5, 9, 3];
    let mut t = RedBlackTree::new();
    for &k in &inserts {
        t.insert(k, ());
        assert!(!is_red(&t.root));
        assert!(no_red_red(&t.root));
        assert!(black_height(&t.root).is_some());
        assert_strictly_ascending(&t.in_order_keys());
    }
}

#[test]
fn height_bound_on_ascending_hundred() {
    let mut t = RedBlackTree::new();
    for k in 1..=100u64 {
        t.insert(k, k);
    }
    // 2 * log2(101) is a little over 13
    assert!(t.height() <= 13, "height {} breaks the bound", t.height());
    assert_eq!(t.in_order_keys().len(), 100);
}

#[test]
fn height_bound_on_descending_hundred() {
    let mut t = RedBlackTree::new();
    for k in (1..=100u64).rev() {
        t.insert(k, k);
    }
    assert!(t.height() <= 13, "height {} breaks the bound", t.height());
    assert!(no_red_red(&t.root));
    assert!(black_height(&t.root).is_some());
    assert_strictly_ascending(&t.in_order_keys());
}
