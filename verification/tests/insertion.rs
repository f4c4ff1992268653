//! Scenario tests for insertion: concrete shapes, overwrites, and the
//! balancing of monotone key runs.

use red_black_tree::Color;
use red_black_tree::Node;
use red_black_tree::RedBlackTree;

fn is_red<V>(node: &Option<Box<Node<V>>>) -> bool {
    match node {
        Some(n) => n.color == Color::Red,
        None => false,
    }
}

fn no_red_red<V>(node: &Option<Box<Node<V>>>) -> bool {
    match node {
        None => true,
        Some(n) => {
            (n.color == Color::Black || (!is_red(&n.left) && !is_red(&n.right)))
                && no_red_red(&n.left)
                && no_red_red(&n.right)
        }
    }
}

/// The number of Black nodes on every path to an empty subtree, or
/// `None` where two paths disagree.
fn black_height<V>(node: &Option<Box<Node<V>>>) -> Option<u64> {
    match node {
        None => Some(0),
        Some(n) => {
            let l = black_height(&n.left)?;
            let r = black_height(&n.right)?;
            if l != r {
                return None;
            }
            Some(l + if n.color == Color::Black { 1 } else { 0 })
        }
    }
}

fn bst_in_bounds<V>(node: &Option<Box<Node<V>>>, lo: Option<u64>, hi: Option<u64>) -> bool {
    match node {
        None => true,
        Some(n) => {
            lo.map_or(true, |b| b < n.key)
                && hi.map_or(true, |b| n.key < b)
                && bst_in_bounds(&n.left, lo, Some(n.key))
                && bst_in_bounds(&n.right, Some(n.key), hi)
        }
    }
}

fn assert_invariants<V>(t: &RedBlackTree<V>) {
    assert!(!is_red(&t.root), "the root must be Black");
    assert!(no_red_red(&t.root), "a Red node has a Red child");
    assert!(
        black_height(&t.root).is_some(),
        "black-heights differ between paths"
    );
    assert!(bst_in_bounds(&t.root, None, None), "keys out of order");
}

fn find<'a, V>(node: &'a Option<Box<Node<V>>>, key: u64) -> Option<&'a V> {
    match node {
        None => None,
        Some(n) => {
            if key < n.key {
                find(&n.left, key)
            } else if key > n.key {
                find(&n.right, key)
            } else {
                Some(&n.value)
            }
        }
    }
}

fn count_key<V>(node: &Option<Box<Node<V>>>, key: u64) -> usize {
    match node {
        None => 0,
        Some(n) => {
            (if n.key == key { 1 } else { 0 }) + count_key(&n.left, key) + count_key(&n.right, key)
        }
    }
}

#[test]
fn empty_tree() {
    let t = RedBlackTree::<&str>::new();
    assert!(t.root.is_none());
    assert_eq!(t.height(), 0);
    assert_eq!(t.in_order_keys(), Vec::<u64>::new());
    assert_invariants(&t);
}

#[test]
fn single_key() {
    let mut t = RedBlackTree::new();
    t.insert(7, "seven");
    let root = t.root.as_ref().expect("one node");
    assert_eq!(root.key, 7);
    assert_eq!(root.value, "seven");
    assert_eq!(root.color, Color::Black);
    assert!(root.left.is_none() && root.right.is_none());
    assert_eq!(t.height(), 1);
    assert_eq!(black_height(&t.root), Some(1));
    assert_eq!(black_height(&root.left), Some(0));
    assert_eq!(black_height(&root.right), Some(0));
    assert_invariants(&t);
}

#[test]
fn three_keys_balance_to_middle_root() {
    let mut t = RedBlackTree::new();
    t.insert(10, "ten");
    t.insert(20, "twenty");
    t.insert(15, "fifteen");
    assert_eq!(t.in_order_keys(), vec![10, 15, 20]);
    assert_invariants(&t);
    let root = t.root.as_ref().expect("non-empty");
    assert_eq!(root.key, 15);
    assert_eq!(root.color, Color::Black);
    let left = root.left.as_ref().expect("left child");
    let right = root.right.as_ref().expect("right child");
    assert_eq!((left.key, left.value), (10, "ten"));
    assert_eq!((right.key, right.value), (20, "twenty"));
    // the color flip on 15 turns both children Black before the root
    // is forced Black
    assert_eq!(left.color, Color::Black);
    assert_eq!(right.color, Color::Black);
}

#[test]
fn ascending_run_stays_balanced() {
    let mut t = RedBlackTree::new();
    for k in 1..=7u64 {
        t.insert(k, k * 10);
        assert_invariants(&t);
    }
    assert_eq!(t.in_order_keys(), vec![1, 2, 3, 4, 5, 6, 7]);
    // the red-black bound allows 2*log2(8) = 6; rotations on a monotone
    // run in fact yield the perfectly balanced height
    assert!(t.height() <= 6);
    assert_eq!(t.height(), 3);
}

#[test]
fn overwrite_keeps_one_node() {
    let mut t = RedBlackTree::new();
    t.insert(5, "five");
    t.insert(42, "first");
    t.insert(90, "ninety");
    t.insert(42, "second");
    assert_eq!(count_key(&t.root, 42), 1);
    assert_eq!(find(&t.root, 42), Some(&"second"));
    assert_eq!(find(&t.root, 5), Some(&"five"));
    assert_eq!(find(&t.root, 90), Some(&"ninety"));
    assert_eq!(t.in_order_keys(), vec![5, 42, 90]);
    assert_invariants(&t);
}

#[test]
fn repeated_insert_is_identity() {
    let keys = [5u64, 1, 9, 7, 3, 8, 2];
    let mut once = RedBlackTree::new();
    let mut twice = RedBlackTree::new();
    for &k in &keys {
        once.insert(k, k + 100);
        twice.insert(k, k + 100);
    }
    for &k in &keys {
        twice.insert(k, k + 100);
        assert_invariants(&twice);
    }
    assert!(once == twice, "re-inserting present entries changed the tree");
}

#[test]
fn extreme_keys() {
    let mut t = RedBlackTree::new();
    t.insert(u64::MAX, "high");
    t.insert(0, "low");
    t.insert(u64::MAX / 2, "mid");
    assert_eq!(t.in_order_keys(), vec![0, u64::MAX / 2, u64::MAX]);
    assert_eq!(find(&t.root, 0), Some(&"low"));
    assert_eq!(find(&t.root, u64::MAX), Some(&"high"));
    assert_invariants(&t);
}

#[test]
fn is_red_convention() {
    assert!(!RedBlackTree::<i32>::is_red(&None));
    let red = Some(Box::new(Node::new(3, 1, Color::Red)));
    let black = Some(Box::new(Node::new(4, 2, Color::Black)));
    assert!(RedBlackTree::<i32>::is_red(&red));
    assert!(!RedBlackTree::<i32>::is_red(&black));
}

#[test]
fn node_new_is_a_leaf() {
    let n = Node::new(11, "v", Color::Red);
    assert_eq!(n.key, 11);
    assert_eq!(n.value, "v");
    assert_eq!(n.color, Color::Red);
    assert!(n.left.is_none() && n.right.is_none());
}
