//! Laws the tree keeps beyond the direct contracts of its operations:
//! the in-order key sequence of a search-ordered tree is strictly
//! ascending (so each key occupies exactly one node), overwriting a value
//! changes nothing but that entry, and the red-black coloring bounds the
//! height logarithmically in the number of stored keys.

use vstd::prelude::*;

use crate::tree::as_map;
use crate::tree::bh_uniform;
use crate::tree::black_height;
use crate::tree::bst;
use crate::tree::height;
use crate::tree::inorder_keys;
use crate::tree::no_red_red;
use crate::tree::red;
use crate::tree::size;
use crate::tree::Node;
use crate::tree::RedBlackTree;

verus! {

/// Two to the given power; the yardstick for the height bound.
pub open spec fn pow2(n: nat) -> nat
    decreases n,
{
    if n == 0 {
        1
    } else {
        2 * pow2((n - 1) as nat)
    }
}

/// A key occurs in the in-order sequence of a subtree exactly when the
/// subtree's map holds it.
pub proof fn lemma_inorder_matches_map<V>(node: Option<Box<Node<V>>>, k: u64)
    ensures
        inorder_keys(node).contains(k) <==> as_map(node).dom().contains(k),
    decreases node,
{
    match node {
        None => {
            assert(inorder_keys(node) =~= Seq::<u64>::empty());
        },
        Some(n) => {
            lemma_inorder_matches_map(n.left, k);
            lemma_inorder_matches_map(n.right, k);
            let s = inorder_keys(node);
            let l = inorder_keys(n.left);
            let r = inorder_keys(n.right);
            assert(s == l + seq![n.key] + r);
            if as_map(node).dom().contains(k) {
                if k == n.key {
                    assert(s[l.len() as int] == k);
                } else if as_map(n.left).dom().contains(k) {
                    let i = choose|i: int| 0 <= i < l.len() && l[i] == k;
                    assert(s[i] == k);
                } else {
                    assert(as_map(n.right).dom().contains(k));
                    let i = choose|i: int| 0 <= i < r.len() && r[i] == k;
                    assert(s[l.len() + 1 + i] == k);
                }
                assert(s.contains(k));
            }
            if s.contains(k) {
                let i = choose|i: int| 0 <= i < s.len() && s[i] == k;
                if i < l.len() {
                    assert(l[i] == k);
                    assert(l.contains(k));
                } else if i == l.len() {
                    assert(k == n.key);
                } else {
                    assert(r[i - l.len() - 1] == k);
                    assert(r.contains(k));
                }
                assert(as_map(node).dom().contains(k));
            }
        },
    }
}

/// In a search-ordered tree the in-order key sequence is strictly
/// ascending; in particular no key occupies more than one node.
pub proof fn lemma_inorder_sorted<V>(node: Option<Box<Node<V>>>)
    requires
        bst(node),
    ensures
        forall|i: int, j: int|
            0 <= i < j < inorder_keys(node).len() ==> inorder_keys(node)[i] < inorder_keys(
                node,
            )[j],
    decreases node,
{
    match node {
        None => {},
        Some(n) => {
            lemma_inorder_sorted(n.left);
            lemma_inorder_sorted(n.right);
            let s = inorder_keys(node);
            let l = inorder_keys(n.left);
            let r = inorder_keys(n.right);
            assert(s == l + seq![n.key] + r);
            assert forall|i: int| 0 <= i < l.len() implies l[i] < n.key by {
                assert(l.contains(l[i]));
                lemma_inorder_matches_map(n.left, l[i]);
            }
            assert forall|i: int| 0 <= i < r.len() implies n.key < r[i] by {
                assert(r.contains(r[i]));
                lemma_inorder_matches_map(n.right, r[i]);
            }
            assert forall|i: int, j: int| 0 <= i < j < s.len() implies s[i] < s[j] by {
                if j < l.len() {
                    assert(s[i] == l[i] && s[j] == l[j]);
                } else if i < l.len() && j == l.len() {
                    assert(s[i] == l[i] && s[j] == n.key);
                } else if i < l.len() {
                    assert(s[i] == l[i] && s[j] == r[j - l.len() - 1]);
                } else if i == l.len() {
                    assert(s[i] == n.key && s[j] == r[j - l.len() - 1]);
                } else {
                    assert(s[i] == r[i - l.len() - 1] && s[j] == r[j - l.len() - 1]);
                }
            }
        },
    }
}

/// Each stored key occupies exactly one node: it appears in the in-order
/// sequence precisely when the tree's map holds it, and at no more than
/// one position.
pub proof fn lemma_one_node_per_key<V>(t: &RedBlackTree<V>, k: u64)
    requires
        t.wf(),
    ensures
        inorder_keys(t.root).contains(k) <==> t@.dom().contains(k),
        forall|i: int, j: int|
            0 <= i < inorder_keys(t.root).len() && 0 <= j < inorder_keys(t.root).len()
                && inorder_keys(t.root)[i] == k && inorder_keys(t.root)[j] == k ==> i == j,
{
    lemma_inorder_matches_map(t.root, k);
    lemma_inorder_sorted(t.root);
}

/// Overwriting a key's value leaves every other entry alone: inserting
/// `v1` under a key and then `v2` under the same key is the same map as
/// inserting `v2` directly, and that key then holds `v2`.
pub proof fn lemma_value_overwrite<V>(m: Map<u64, V>, key: u64, v1: V, v2: V)
    ensures
        m.insert(key, v1).insert(key, v2) == m.insert(key, v2),
        m.insert(key, v2)[key] == v2,
        m.insert(key, v2).dom().contains(key),
{
    assert(m.insert(key, v1).insert(key, v2) =~= m.insert(key, v2));
}

/// With no Red node under a Red parent and uniform black-heights, a
/// subtree's height is at most twice its black-height, plus one for a
/// Red root.
proof fn lemma_height_le_twice_bh<V>(node: Option<Box<Node<V>>>)
    requires
        no_red_red(node),
        bh_uniform(node),
    ensures
        height(node) <= 2 * black_height(node) + (if red(node) {
            1int
        } else {
            0int
        }),
    decreases node,
{
    match node {
        None => {},
        Some(n) => {
            lemma_height_le_twice_bh(n.left);
            lemma_height_le_twice_bh(n.right);
        },
    }
}

/// A subtree with uniform black-heights stores at least enough nodes to
/// fill a complete Black tree of its black-height.
proof fn lemma_size_fills_bh<V>(node: Option<Box<Node<V>>>)
    requires
        bh_uniform(node),
    ensures
        pow2(black_height(node)) <= size(node) + 1,
    decreases node,
{
    match node {
        None => {},
        Some(n) => {
            lemma_size_fills_bh(n.left);
            lemma_size_fills_bh(n.right);
        },
    }
}

/// A subtree stores as many nodes as its in-order sequence has keys.
pub proof fn lemma_size_counts_keys<V>(node: Option<Box<Node<V>>>)
    ensures
        size(node) == inorder_keys(node).len(),
    decreases node,
{
    match node {
        None => {
            assert(inorder_keys(node) =~= Seq::<u64>::empty());
        },
        Some(n) => {
            lemma_size_counts_keys(n.left);
            lemma_size_counts_keys(n.right);
        },
    }
}

/// The red-black height bound. With `n` stored keys and black-height
/// `b`, the tree's height is at most `2 * b`, and `2^b <= n + 1`; read
/// together, height is at most twice the base-two logarithm of `n + 1`.
pub proof fn lemma_height_bound<V>(t: &RedBlackTree<V>)
    requires
        t.wf(),
    ensures
        height(t.root) <= 2 * black_height(t.root),
        pow2(black_height(t.root)) <= size(t.root) + 1,
        pow2(black_height(t.root)) <= inorder_keys(t.root).len() + 1,
{
    lemma_height_le_twice_bh(t.root);
    lemma_size_fills_bh(t.root);
    lemma_size_counts_keys(t.root);
}

} // verus!
