//! The tree itself: its node structure, the spec-level model (the map a tree
//! stands for, its in-order key sequence, and the red-black invariants), and
//! the verified insertion algorithm with its rotations and color flip.

use vstd::prelude::*;

verus! {

/// Color tag carried by every node; an absent subtree counts as Black.
#[derive(Clone, Copy, Debug, PartialEq, Eq, Structural)]
pub enum Color {
    Red,
    Black,
}

/// One key-value entry of the tree, with its color tag and its two
/// exclusively owned child slots.
#[derive(Debug, PartialEq, Eq)]
pub struct Node<V> {
    pub key: u64,
    pub value: V,
    pub color: Color,
    pub left: Option<Box<Node<V>>>,
    pub right: Option<Box<Node<V>>>,
}

/// Ordered key-value store kept balanced by recoloring and rotations
/// during insertion. The root, when present, is Black after every
/// completed `insert`.
#[derive(Debug, PartialEq, Eq)]
pub struct RedBlackTree<V> {
    pub root: Option<Box<Node<V>>>,
}

/// The map of keys to values that a subtree stands for.
pub open spec fn as_map<V>(node: Option<Box<Node<V>>>) -> Map<u64, V>
    decreases node,
{
    match node {
        None => Map::empty(),
        Some(n) => as_map(n.left).union_prefer_right(as_map(n.right)).insert(n.key, n.value),
    }
}

/// The keys of a subtree in left-to-right (in-order) sequence.
pub open spec fn inorder_keys<V>(node: Option<Box<Node<V>>>) -> Seq<u64>
    decreases node,
{
    match node {
        None => Seq::empty(),
        Some(n) => inorder_keys(n.left) + seq![n.key] + inorder_keys(n.right),
    }
}

/// Whether a subtree's root node is Red; an absent subtree is Black.
pub open spec fn red<V>(node: Option<Box<Node<V>>>) -> bool {
    match node {
        Some(n) => n.color is Red,
        None => false,
    }
}

/// Every key of the map lies strictly below `k`.
pub open spec fn keys_below<V>(m: Map<u64, V>, k: u64) -> bool {
    forall|j: u64| #[trigger] m.dom().contains(j) ==> j < k
}

/// Every key of the map lies strictly above `k`.
pub open spec fn keys_above<V>(m: Map<u64, V>, k: u64) -> bool {
    forall|j: u64| #[trigger] m.dom().contains(j) ==> j > k
}

/// The binary-search-tree ordering: at every node, the keys of the left
/// subtree compare less than the node's key and those of the right
/// subtree compare greater.
pub open spec fn bst<V>(node: Option<Box<Node<V>>>) -> bool
    decreases node,
{
    match node {
        None => true,
        Some(n) => {
            &&& keys_below(as_map(n.left), n.key)
            &&& keys_above(as_map(n.right), n.key)
            &&& bst(n.left)
            &&& bst(n.right)
        },
    }
}

/// No Red node has a Red child, anywhere in the subtree.
pub open spec fn no_red_red<V>(node: Option<Box<Node<V>>>) -> bool
    decreases node,
{
    match node {
        None => true,
        Some(n) => {
            &&& (n.color is Red ==> !red(n.left) && !red(n.right))
            &&& no_red_red(n.left)
            &&& no_red_red(n.right)
        },
    }
}

/// No node has a Red right child: red links lean left.
pub open spec fn left_leaning<V>(node: Option<Box<Node<V>>>) -> bool
    decreases node,
{
    match node {
        None => true,
        Some(n) => {
            &&& !red(n.right)
            &&& left_leaning(n.left)
            &&& left_leaning(n.right)
        },
    }
}

/// The number of Black nodes on the path from this subtree's root down
/// its left spine to an empty subtree. Under `bh_uniform` every path to
/// an empty subtree passes the same count, so this is the black-height.
pub open spec fn black_height<V>(node: Option<Box<Node<V>>>) -> nat
    decreases node,
{
    match node {
        None => 0,
        Some(n) => black_height(n.left) + (if n.color is Black { 1nat } else { 0nat }),
    }
}

/// Black-height uniformity: at every node the two child subtrees carry
/// equal black-heights, hence every path from the node to an empty
/// subtree passes the same number of Black nodes.
pub open spec fn bh_uniform<V>(node: Option<Box<Node<V>>>) -> bool
    decreases node,
{
    match node {
        None => true,
        Some(n) => {
            &&& black_height(n.left) == black_height(n.right)
            &&& bh_uniform(n.left)
            &&& bh_uniform(n.right)
        },
    }
}

/// Nodes on the longest path from this subtree's root to an empty
/// subtree (an empty subtree has height zero).
pub open spec fn height<V>(node: Option<Box<Node<V>>>) -> nat
    decreases node,
{
    match node {
        None => 0,
        Some(n) => 1 + (if height(n.left) >= height(n.right) {
            height(n.left)
        } else {
            height(n.right)
        }),
    }
}

/// Number of nodes in a subtree.
pub open spec fn size<V>(node: Option<Box<Node<V>>>) -> nat
    decreases node,
{
    match node {
        None => 0,
        Some(n) => 1 + size(n.left) + size(n.right),
    }
}

/// All the red-black invariants of a subtree: search-tree ordering, no
/// Red node with a Red child, red links leaning left, and uniform
/// black-height. The root's own color is unconstrained here; the tree
/// as a whole additionally keeps its root Black.
pub open spec fn wf_node<V>(node: Option<Box<Node<V>>>) -> bool {
    bst(node) && no_red_red(node) && left_leaning(node) && bh_uniform(node)
}

/// The invariants with one concession: the root may be Red with a Red
/// left child. Insertion hands such a subtree up for the parent's
/// rebalancing step to absorb.
pub open spec fn almost_wf<V>(node: Option<Box<Node<V>>>) -> bool {
    &&& bst(node)
    &&& bh_uniform(node)
    &&& left_leaning(node)
    &&& match node {
        None => true,
        Some(n) => no_red_red(n.left) && no_red_red(n.right),
    }
}

/// What `balance` asks of its input: a node whose child slots hold the
/// results of one insertion step. Ordering and black-height are intact;
/// at most one child subtree may carry a red-red pair at its own root,
/// and only under a Black node; a Red right child can face only a
/// fully well-formed left sibling.
pub open spec fn balance_pre<V>(n: Box<Node<V>>) -> bool {
    &&& bst(Some(n))
    &&& bh_uniform(Some(n))
    &&& almost_wf(n.left)
    &&& wf_node(n.right)
    &&& (n.color is Red ==> wf_node(n.left) && !(red(n.left) && red(n.right)))
    &&& (red(n.right) ==> wf_node(n.left))
}

/// The opposite color.
pub open spec fn flipped(c: Color) -> Color {
    match c {
        Color::Red => Color::Black,
        Color::Black => Color::Red,
    }
}

/// A child slot after a color flip: an absent child is untouched, a
/// present child keeps its entry and subtrees and has its color
/// inverted.
pub open spec fn child_flipped<V>(
    before: Option<Box<Node<V>>>,
    after: Option<Box<Node<V>>>,
) -> bool {
    match (before, after) {
        (None, None) => true,
        (Some(b), Some(a)) => {
            &&& a.key == b.key
            &&& a.value == b.value
            &&& a.left == b.left
            &&& a.right == b.right
            &&& a.color == flipped(b.color)
        },
        _ => false,
    }
}

/// Two nodes that differ at most in their own color stand for the same
/// map and keys, keep the same search ordering, and agree on every
/// color property that does not read the root's color.
proof fn lemma_same_fields<V>(a: Box<Node<V>>, b: Box<Node<V>>)
    requires
        a.key == b.key,
        a.value == b.value,
        a.left == b.left,
        a.right == b.right,
    ensures
        as_map(Some(a)) == as_map(Some(b)),
        bst(Some(a)) == bst(Some(b)),
        bh_uniform(Some(a)) == bh_uniform(Some(b)),
        left_leaning(Some(a)) == left_leaning(Some(b)),
        black_height(Some(a)) == black_height(a.left) + (if a.color is Black {
            1nat
        } else {
            0nat
        }),
        black_height(Some(b)) == black_height(b.left) + (if b.color is Black {
            1nat
        } else {
            0nat
        }),
{
}

impl<V> View for RedBlackTree<V> {
    type V = Map<u64, V>;

    open spec fn view(&self) -> Map<u64, V> {
        as_map(self.root)
    }
}

impl<V> RedBlackTree<V> {
    /// Every invariant the tree promises after each public operation:
    /// the red-black invariants of the whole structure and a Black root.
    pub open spec fn wf(&self) -> bool {
        wf_node(self.root) && !red(self.root)
    }

    /// Creates an empty tree.
    pub fn new() -> (t: Self)
        ensures
            t.wf(),
            t@ == Map::<u64, V>::empty(),
            t.root is None,
    {
        RedBlackTree { root: None }
    }

    /// Inverts the color of the node and of each present child; absent
    /// children, implicitly Black, are unaffected. Changes colors only,
    /// never structure, keys or values.
    fn flip_colors(node: Box<Node<V>>) -> (r: Box<Node<V>>)
        ensures
            r.key == node.key,
            r.value == node.value,
            r.color == flipped(node.color),
            child_flipped(node.left, r.left),
            child_flipped(node.right, r.right),
    {
        let mut node = node;
        node.color = match node.color {
            Color::Red => Color::Black,
            Color::Black => Color::Red,
        };
        let l = node.left.take();
        match l {
            Some(mut lb) => {
                lb.color = match lb.color {
                    Color::Red => Color::Black,
                    Color::Black => Color::Red,
                };
                node.left = Some(lb);
            },
            None => {},
        }
        let rt = node.right.take();
        match rt {
            Some(mut rb) => {
                rb.color = match rb.color {
                    Color::Red => Color::Black,
                    Color::Black => Color::Red,
                };
                node.right = Some(rb);
            },
            None => {},
        }
        node
    }

    /// Restores the red-black invariants at one node on the way back up
    /// from an insertion: a Red right child next to a non-Red left
    /// child is rotated left; a Red left child with a Red left child of
    /// its own is rotated right; two Red children are absorbed by a
    /// color flip. On a subtree already well formed this is the
    /// identity.
    fn balance(node: Box<Node<V>>) -> (r: Box<Node<V>>)
        requires
            balance_pre(node),
        ensures
            almost_wf(Some(r)),
            !(node.color is Red) ==> wf_node(Some(r)),
            black_height(Some(r)) == black_height(Some(node)),
            as_map(Some(r)) == as_map(Some(node)),
            wf_node(Some(node)) ==> r == node,
    {
        let ghost n0 = node;
        let ghost mut rotated_left = false;
        let ghost mut rotated_right = false;
        let ghost mut flipped_here = false;
        let mut n = node;

        // Rotate left if the right child is Red and the left child is not
        if Self::is_red(&n.right) && !Self::is_red(&n.left) {
            n = Self::rotate_left(n);
            proof {
                rotated_left = true;
                let rt = n0.right.unwrap();
                let c = n.left.unwrap();
                assert(wf_node(n0.left));
                assert(no_red_red(Some(rt)) && left_leaning(Some(rt)));
                assert(!red(rt.left) && !red(rt.right));
                assert(no_red_red(Some(c)) && left_leaning(Some(c)));
                assert(no_red_red(n.left) && left_leaning(n.left));
                assert(left_leaning(Some(n)));
                assert(almost_wf(Some(n)));
                assert(!(n0.color is Red) ==> no_red_red(Some(n)));
                assert(wf_node(Some(n0)) ==> !red(n0.right)) by {
                    if wf_node(Some(n0)) {
                        assert(left_leaning(Some(n0)));
                    }
                }
            }
        }

        // Rotate right if the left child and its left child are Red
        let ll_red = match &n.left {
            Some(l) => Self::is_red(&l.left),
            None => false,
        };
        if Self::is_red(&n.left) && ll_red {
            proof {
                rotated_right = true;
                assert(n == n0);
                let lt = n0.left.unwrap();
                if n0.color is Red {
                    assert(wf_node(n0.left));
                    assert(no_red_red(Some(lt)));
                    assert(false);
                }
                if red(n0.right) {
                    assert(wf_node(n0.left));
                    assert(no_red_red(Some(lt)));
                    assert(false);
                }
                assert(wf_node(Some(n0)) ==> !(red(n0.left) && red(lt.left))) by {
                    if wf_node(Some(n0)) && red(n0.left) {
                        assert(no_red_red(Some(lt)));
                    }
                }
            }
            let ghost lt = n.left.unwrap();
            n = Self::rotate_right(n);
            proof {
                assert(almost_wf(n0.left));
                assert(no_red_red(lt.left) && no_red_red(lt.right));
                assert(left_leaning(Some(lt)));
                assert(left_leaning(lt.left) && left_leaning(lt.right) && !red(lt.right));
                assert(red(n.left) && red(n.right));
            }
        }

        // Flip colors if both children are Red
        if Self::is_red(&n.left) && Self::is_red(&n.right) {
            let ghost m = n;
            n = Self::flip_colors(n);
            proof {
                flipped_here = true;
                let lb = m.left.unwrap();
                let rb = m.right.unwrap();
                let la = n.left.unwrap();
                let ra = n.right.unwrap();
                lemma_same_fields(la, lb);
                lemma_same_fields(ra, rb);

                // per path: what is known of the node just before the flip
                if rotated_left {
                    assert(false);  // a left rotation leaves a Black right child
                } else if rotated_right {
                    let lt = n0.left.unwrap();
                    assert(!(m.color is Red));
                    assert(Some(lb) == lt.left);
                    assert(no_red_red(Some(lb)));
                    assert(left_leaning(Some(lb)));
                    assert(!red(rb.left) && !red(rb.right));
                    assert(wf_node(n0.right));
                    assert(no_red_red(n0.right) && left_leaning(n0.right));
                    assert(no_red_red(Some(rb)));
                    assert(left_leaning(Some(rb)));
                } else {
                    assert(m == n0);
                    if n0.color is Red {
                        assert(false);  // two Red children under a Red node cannot reach here
                    }
                    assert(red(n0.right));
                    assert(wf_node(n0.left) && wf_node(n0.right));
                    assert(no_red_red(Some(lb)) && left_leaning(Some(lb)));
                    assert(no_red_red(Some(rb)) && left_leaning(Some(rb)));
                    assert(wf_node(Some(n0)) ==> !red(n0.right)) by {
                        if wf_node(Some(n0)) {
                            assert(left_leaning(Some(n0)));
                        }
                    }
                }

                // the flip turns the Red children Black and the Black node Red
                assert(red(m.left) && red(m.right));
                assert(no_red_red(lb.left) && no_red_red(lb.right));
                assert(no_red_red(rb.left) && no_red_red(rb.right));
                assert(no_red_red(Some(la)) && no_red_red(Some(ra)));
                assert(left_leaning(Some(la)) && left_leaning(Some(ra)));
                assert(!red(n.right));
                assert(no_red_red(Some(n)));
                assert(left_leaning(Some(n)));

                // same map and search ordering as before the flip
                assert(as_map(n.left) == as_map(m.left) && as_map(n.right) == as_map(m.right));
                assert(as_map(Some(n)) == as_map(Some(m)));
                assert(bst(n.left) == bst(m.left) && bst(n.right) == bst(m.right));
                assert(bst(Some(m)));
                assert(keys_below(as_map(n.left), n.key) && keys_above(as_map(n.right), n.key));
                assert(bst(Some(n)));

                // each child gains one Black node, the root loses one
                assert(bh_uniform(Some(m)));
                assert(black_height(Some(la)) == black_height(lb.left) + 1);
                assert(black_height(Some(ra)) == black_height(rb.left) + 1);
                assert(black_height(m.left) == black_height(lb.left));
                assert(black_height(m.right) == black_height(rb.left));
                assert(bh_uniform(Some(la)) && bh_uniform(Some(ra)));
                assert(black_height(n.left) == black_height(n.right));
                assert(bh_uniform(Some(n)));
                assert(black_height(Some(n)) == black_height(n.left));
                assert(black_height(Some(m)) == black_height(m.left) + 1);
                assert(black_height(Some(n)) == black_height(Some(n0)));
                assert(as_map(Some(n)) == as_map(Some(n0)));
                assert(almost_wf(Some(n)));
                assert(wf_node(Some(n)));
            }
        }

        proof {
            if !rotated_left && !rotated_right && !flipped_here {
                assert(n == n0);
                if red(n0.right) {
                    assert(red(n0.left));   // else the first step would have rotated
                    assert(false);          // but then the third step would have flipped
                }
                assert(!red(n0.right));
                match n0.left {
                    Some(l) => {
                        assert(!(red(n0.left) && red(l.left)));
                        assert(left_leaning(n0.left));
                        assert(!red(l.right));
                        assert(no_red_red(l.left) && no_red_red(l.right));
                        assert(no_red_red(Some(l)));
                    },
                    None => {},
                }
                assert(no_red_red(n0.left));
                assert(left_leaning(Some(n0)));
                assert(almost_wf(Some(n0)));
                assert(!(n0.color is Red) ==> no_red_red(Some(n0)));
            }
        }
        n
    }

    /// Recursive descent of an insertion: places a new Red leaf at the
    /// empty slot the key's order leads to, overwrites the value in
    /// place on an equal key, and rebalances every node on the way back
    /// up. The result may carry a Red root, and a Red root with a Red
    /// left child only where the subtree's own root was already Red;
    /// the black-height never changes.
    fn insert_node(node: Option<Box<Node<V>>>, key: u64, value: V) -> (r: Box<Node<V>>)
        requires
            wf_node(node),
        ensures
            almost_wf(Some(r)),
            !red(node) ==> wf_node(Some(r)),
            black_height(Some(r)) == black_height(node),
            as_map(Some(r)) == as_map(node).insert(key, value),
            as_map(node).contains_pair(key, value) ==> Some(r) == node,
        decreases node,
    {
        match node {
            None => {
                let r = Box::new(Node::new(key, value, Color::Red));
                proof {
                    assert(as_map(Some(r)) =~= as_map(node).insert(key, value));
                }
                r
            },
            Some(current) => {
                let ghost old_cur = current;
                let mut current = current;
                proof {
                    assert(wf_node(old_cur.left) && wf_node(old_cur.right));
                    assert(!red(old_cur.right));
                    assert(old_cur.color is Red ==> !red(old_cur.left));
                }
                if key < current.key {
                    let l = current.left.take();
                    let nl = Self::insert_node(l, key, value);
                    current.left = Some(nl);
                    proof {
                        assert forall|j: u64| #[trigger]
                            as_map(Some(nl)).dom().contains(j) implies j < old_cur.key by {
                            if j != key {
                                assert(as_map(old_cur.left).dom().contains(j));
                            }
                        }
                        assert(bst(Some(current)));
                        assert(black_height(Some(nl)) == black_height(old_cur.left));
                        assert(bh_uniform(Some(current)));
                        if old_cur.color is Red {
                            assert(wf_node(Some(nl)));
                        }
                        assert(balance_pre(current));
                    }
                    let b = Self::balance(current);
                    proof {
                        Self::lemma_less_branch(node, old_cur, nl, b, key, value);
                    }
                    b
                } else if key > current.key {
                    let rt = current.right.take();
                    let nr = Self::insert_node(rt, key, value);
                    current.right = Some(nr);
                    proof {
                        assert forall|j: u64| #[trigger]
                            as_map(Some(nr)).dom().contains(j) implies j > old_cur.key by {
                            if j != key {
                                assert(as_map(old_cur.right).dom().contains(j));
                            }
                        }
                        assert(bst(Some(current)));
                        assert(black_height(Some(nr)) == black_height(old_cur.right));
                        assert(bh_uniform(Some(current)));
                        lemma_wf_almost(old_cur.left);
                        assert(wf_node(Some(nr)));
                        assert(balance_pre(current));
                    }
                    let b = Self::balance(current);
                    proof {
                        Self::lemma_greater_branch(node, old_cur, nr, b, key, value);
                    }
                    b
                } else {
                    current.value = value;
                    proof {
                        assert(bst(Some(current)) && bh_uniform(Some(current)));
                        lemma_wf_almost(old_cur.left);
                        assert(balance_pre(current));
                        assert(no_red_red(Some(old_cur)) && left_leaning(Some(old_cur)));
                        assert(no_red_red(Some(current)) && left_leaning(Some(current)));
                        assert(wf_node(Some(current)));
                    }
                    let b = Self::balance(current);
                    proof {
                        assert(as_map(Some(b)) == as_map(Some(current)));
                        assert(as_map(Some(current)) =~= as_map(node).insert(key, value));
                        assert(as_map(node).contains_pair(key, value) ==> current == old_cur
                            && b == current);
                    }
                    b
                }
            },
        }
    }

    /// After a left-descent step: the rebalanced node keeps the
    /// subtree's contract.
    proof fn lemma_less_branch(
        node: Option<Box<Node<V>>>,
        old_cur: Box<Node<V>>,
        nl: Box<Node<V>>,
        b: Box<Node<V>>,
        key: u64,
        value: V,
    )
        requires
            node == Some(old_cur),
            wf_node(node),
            key < old_cur.key,
            as_map(Some(nl)) == as_map(old_cur.left).insert(key, value),
            !red(old_cur.left) ==> wf_node(Some(nl)),
            as_map(old_cur.left).contains_pair(key, value) ==> Some(nl) == old_cur.left,
            black_height(Some(nl)) == black_height(old_cur.left),
            as_map(Some(b)) == as_map(Some(nl)).union_prefer_right(as_map(old_cur.right)).insert(
                old_cur.key,
                old_cur.value,
            ),
            black_height(Some(b)) == black_height(Some(nl)) + (if old_cur.color is Black {
                1nat
            } else {
                0nat
            }),
            (as_map(old_cur.left).contains_pair(key, value) && wf_node(Some(old_cur))) ==> b
                == old_cur,
        ensures
            black_height(Some(b)) == black_height(node),
            as_map(Some(b)) == as_map(node).insert(key, value),
            as_map(node).contains_pair(key, value) ==> Some(b) == node,
    {
        assert(keys_below(as_map(old_cur.left), old_cur.key));
        assert(keys_above(as_map(old_cur.right), old_cur.key));
        assert(as_map(node) == as_map(old_cur.left).union_prefer_right(
            as_map(old_cur.right),
        ).insert(old_cur.key, old_cur.value));
        assert(!as_map(old_cur.right).dom().contains(key));
        assert(as_map(Some(b)) =~= as_map(node).insert(key, value));
        if as_map(node).contains_pair(key, value) {
            assert(as_map(node).dom().contains(key));
            assert(as_map(old_cur.left).dom().contains(key));
            assert(as_map(node)[key] == as_map(old_cur.left)[key]);
            assert(as_map(old_cur.left).contains_pair(key, value));
        }
    }

    /// After a right-descent step: the rebalanced node keeps the
    /// subtree's contract.
    proof fn lemma_greater_branch(
        node: Option<Box<Node<V>>>,
        old_cur: Box<Node<V>>,
        nr: Box<Node<V>>,
        b: Box<Node<V>>,
        key: u64,
        value: V,
    )
        requires
            node == Some(old_cur),
            wf_node(node),
            key > old_cur.key,
            as_map(Some(nr)) == as_map(old_cur.right).insert(key, value),
            wf_node(Some(nr)),
            as_map(old_cur.right).contains_pair(key, value) ==> Some(nr) == old_cur.right,
            black_height(Some(nr)) == black_height(old_cur.right),
            as_map(Some(b)) == as_map(old_cur.left).union_prefer_right(as_map(Some(nr))).insert(
                old_cur.key,
                old_cur.value,
            ),
            black_height(Some(b)) == black_height(old_cur.left) + (if old_cur.color is Black {
                1nat
            } else {
                0nat
            }),
            (as_map(old_cur.right).contains_pair(key, value) && wf_node(Some(old_cur))) ==> b
                == old_cur,
        ensures
            black_height(Some(b)) == black_height(node),
            as_map(Some(b)) == as_map(node).insert(key, value),
            as_map(node).contains_pair(key, value) ==> Some(b) == node,
    {
        assert(keys_below(as_map(old_cur.left), old_cur.key));
        assert(keys_above(as_map(old_cur.right), old_cur.key));
        assert(as_map(node) == as_map(old_cur.left).union_prefer_right(
            as_map(old_cur.right),
        ).insert(old_cur.key, old_cur.value));
        assert(!as_map(old_cur.left).dom().contains(key));
        assert(as_map(Some(b)) =~= as_map(node).insert(key, value));
        if as_map(node).contains_pair(key, value) {
            assert(as_map(node).dom().contains(key));
            assert(as_map(old_cur.right).dom().contains(key));
            assert(as_map(node)[key] == as_map(old_cur.right)[key]);
            assert(as_map(old_cur.right).contains_pair(key, value));
        }
    }

    /// Inserts a key-value pair, or overwrites the value in place when
    /// the key is already present. The red-black invariants hold again
    /// on return, the stored map gains exactly this entry, and an
    /// insertion that repeats a present entry unchanged leaves the tree
    /// identical, shape and colors included.
    pub fn insert(&mut self, key: u64, value: V)
        requires
            old(self).wf(),
        ensures
            final(self).wf(),
            final(self)@ == old(self)@.insert(key, value),
            old(self)@.contains_pair(key, value) ==> *final(self) == *old(self),
    {
        let root = self.root.take();
        let mut new_root = Self::insert_node(root, key, value);
        let ghost before = new_root;
        new_root.color = Color::Black;
        proof {
            lemma_same_fields(new_root, before);
            assert(wf_node(Some(before)));
            assert(no_red_red(before.left) && no_red_red(before.right));
            assert(no_red_red(Some(new_root)));
            assert(wf_node(Some(new_root)));
            if old(self)@.contains_pair(key, value) {
                assert(Some(before) == old(self).root);
                assert(!red(old(self).root));
                assert(new_root == before);
            }
        }
        self.root = Some(new_root);
    }

    /// Whether a child slot holds a Red node; an absent subtree is
    /// Black by convention.
    pub fn is_red(node: &Option<Box<Node<V>>>) -> (r: bool)
        ensures
            r == red(*node),
    {
        match node {
            Some(n) => n.color == Color::Red,
            None => false,
        }
    }

    /// The number of nodes on the longest path from the root to an
    /// empty subtree; zero for the empty tree.
    pub fn height(&self) -> (h: u64)
        requires
            height(self.root) <= u64::MAX,
        ensures
            h as nat == height(self.root),
    {
        Self::node_height(&self.root)
    }

    fn node_height(node: &Option<Box<Node<V>>>) -> (h: u64)
        requires
            height(*node) <= u64::MAX,
        ensures
            h as nat == height(*node),
        decreases *node,
    {
        match node {
            None => 0,
            Some(n) => {
                let hl = Self::node_height(&n.left);
                let hr = Self::node_height(&n.right);
                let m = if hl >= hr {
                    hl
                } else {
                    hr
                };
                m + 1
            },
        }
    }

    /// The keys currently stored, left to right; on a well-formed tree
    /// this sequence is strictly ascending.
    pub fn in_order_keys(&self) -> (keys: Vec<u64>)
        ensures
            keys@ == inorder_keys(self.root),
    {
        let mut keys: Vec<u64> = Vec::new();
        Self::push_in_order(&self.root, &mut keys);
        proof {
            assert(keys@ =~= inorder_keys(self.root));
        }
        keys
    }

    fn push_in_order(node: &Option<Box<Node<V>>>, out: &mut Vec<u64>)
        ensures
            final(out)@ == old(out)@ + inorder_keys(*node),
        decreases *node,
    {
        match node {
            None => {
                proof {
                    assert(out@ =~= out@ + inorder_keys(*node));
                }
            },
            Some(n) => {
                Self::push_in_order(&n.left, out);
                out.push(n.key);
                Self::push_in_order(&n.right, out);
                proof {
                    assert(out@ =~= old(out)@ + inorder_keys(*node));
                }
            },
        }
    }
}

/// The regrouping done by a left rotation keeps the subtree's map, its
/// search ordering, and its black-height intact.
proof fn lemma_rotate_left_facts<V>(orig: Box<Node<V>>, r: Box<Node<V>>)
    requires
        red(orig.right),
        bst(Some(orig)),
        bh_uniform(Some(orig)),
        r.key == orig.right.unwrap().key,
        r.value == orig.right.unwrap().value,
        r.color == orig.color,
        r.right == orig.right.unwrap().right,
        r.left is Some,
        r.left.unwrap().color is Red,
        r.left.unwrap().key == orig.key,
        r.left.unwrap().value == orig.value,
        r.left.unwrap().left == orig.left,
        r.left.unwrap().right == orig.right.unwrap().left,
    ensures
        as_map(Some(r)) == as_map(Some(orig)),
        bst(Some(r)),
        bh_uniform(Some(r)),
        black_height(Some(r)) == black_height(Some(orig)),
{
    let rt = orig.right.unwrap();
    let c = r.left.unwrap();
    let lm = as_map(orig.left);
    let rlm = as_map(rt.left);
    let rrm = as_map(rt.right);
    assert(orig.right == Some(rt));
    assert(as_map(orig.right) == rlm.union_prefer_right(rrm).insert(rt.key, rt.value));
    assert(as_map(orig.right).dom().contains(rt.key));
    assert(orig.key < rt.key);
    assert(bst(Some(rt)));
    assert(keys_below(rlm, rt.key));
    assert(keys_above(rrm, rt.key));
    assert forall|j: u64| #[trigger] rlm.dom().contains(j) implies orig.key < j && j < rt.key by {
        assert(as_map(orig.right).dom().contains(j));
    }
    assert forall|j: u64| #[trigger] rrm.dom().contains(j) implies rt.key < j by {
        assert(as_map(orig.right).dom().contains(j));
    }
    assert forall|j: u64| #[trigger] lm.dom().contains(j) implies j < orig.key by {}

    assert(r.left == Some(c));
    assert(as_map(Some(c)) == lm.union_prefer_right(rlm).insert(orig.key, orig.value));
    assert(as_map(Some(r)) == as_map(Some(c)).union_prefer_right(rrm).insert(rt.key, rt.value));
    assert(as_map(Some(orig)) == lm.union_prefer_right(as_map(orig.right)).insert(
        orig.key,
        orig.value,
    ));
    assert(as_map(Some(r)) =~= as_map(Some(orig)));

    // search ordering of the regrouped tree
    assert forall|j: u64| #[trigger] as_map(Some(c)).dom().contains(j) implies j < rt.key by {
        if j != orig.key {
            assert(lm.dom().contains(j) || rlm.dom().contains(j));
        }
    }
    assert(keys_below(as_map(r.left), r.key));
    assert(keys_above(as_map(r.right), r.key));
    assert(keys_below(as_map(c.left), c.key));
    assert(keys_above(as_map(c.right), c.key));
    assert(bst(Some(rt)));
    assert(bst(Some(c)));
    assert(bst(Some(r)));

    // black-heights
    assert(bh_uniform(Some(rt)));
    assert(black_height(Some(rt)) == black_height(rt.left));
    assert(black_height(Some(c)) == black_height(orig.left));
    assert(black_height(c.right) == black_height(rt.left));
    assert(bh_uniform(Some(c)));
    assert(black_height(r.right) == black_height(rt.right));
    assert(bh_uniform(Some(r)));
    assert(black_height(Some(r)) == black_height(Some(orig)));
}

/// A fully well-formed subtree in particular meets the relaxed shape
/// that rebalancing accepts.
proof fn lemma_wf_almost<V>(node: Option<Box<Node<V>>>)
    requires
        wf_node(node),
    ensures
        almost_wf(node),
{
    match node {
        Some(n) => {
            assert(no_red_red(Some(n)));
        },
        None => {},
    }
}

/// The regrouping done by a right rotation keeps the subtree's map, its
/// search ordering, and its black-height intact.
proof fn lemma_rotate_right_facts<V>(orig: Box<Node<V>>, r: Box<Node<V>>)
    requires
        red(orig.left),
        bst(Some(orig)),
        bh_uniform(Some(orig)),
        r.key == orig.left.unwrap().key,
        r.value == orig.left.unwrap().value,
        r.color == orig.color,
        r.left == orig.left.unwrap().left,
        r.right is Some,
        r.right.unwrap().color is Red,
        r.right.unwrap().key == orig.key,
        r.right.unwrap().value == orig.value,
        r.right.unwrap().left == orig.left.unwrap().right,
        r.right.unwrap().right == orig.right,
    ensures
        as_map(Some(r)) == as_map(Some(orig)),
        bst(Some(r)),
        bh_uniform(Some(r)),
        black_height(Some(r)) == black_height(Some(orig)),
{
    let lt = orig.left.unwrap();
    let c = r.right.unwrap();
    let llm = as_map(lt.left);
    let lrm = as_map(lt.right);
    let rm = as_map(orig.right);
    assert(orig.left == Some(lt));
    assert(as_map(orig.left) == llm.union_prefer_right(lrm).insert(lt.key, lt.value));
    assert(as_map(orig.left).dom().contains(lt.key));
    assert(lt.key < orig.key);
    assert(bst(Some(lt)));
    assert(keys_below(llm, lt.key));
    assert(keys_above(lrm, lt.key));
    assert forall|j: u64| #[trigger] lrm.dom().contains(j) implies lt.key < j && j < orig.key by {
        assert(as_map(orig.left).dom().contains(j));
    }
    assert forall|j: u64| #[trigger] llm.dom().contains(j) implies j < lt.key by {
        assert(as_map(orig.left).dom().contains(j));
    }
    assert forall|j: u64| #[trigger] rm.dom().contains(j) implies orig.key < j by {}

    assert(r.right == Some(c));
    assert(as_map(Some(c)) == lrm.union_prefer_right(rm).insert(orig.key, orig.value));
    assert(as_map(Some(r)) == llm.union_prefer_right(as_map(Some(c))).insert(lt.key, lt.value));
    assert(as_map(Some(orig)) == as_map(orig.left).union_prefer_right(rm).insert(
        orig.key,
        orig.value,
    ));
    assert(as_map(Some(r)) =~= as_map(Some(orig)));

    // search ordering of the regrouped tree
    assert forall|j: u64| #[trigger] as_map(Some(c)).dom().contains(j) implies lt.key < j by {
        if j != orig.key {
            assert(lrm.dom().contains(j) || rm.dom().contains(j));
        }
    }
    assert(keys_below(as_map(r.left), r.key));
    assert(keys_above(as_map(r.right), r.key));
    assert(keys_below(as_map(c.left), c.key));
    assert(keys_above(as_map(c.right), c.key));
    assert(bst(Some(c)));
    assert(bst(Some(r)));

    // black-heights
    assert(bh_uniform(Some(lt)));
    assert(black_height(Some(lt)) == black_height(lt.left));
    assert(black_height(Some(c)) == black_height(lt.right));
    assert(black_height(c.left) == black_height(lt.right));
    assert(bh_uniform(Some(c)));
    assert(black_height(r.left) == black_height(lt.left));
    assert(bh_uniform(Some(r)));
    assert(black_height(Some(r)) == black_height(Some(orig)));
}

impl<V> RedBlackTree<V> {
    /// Rotates the subtree right: the Red left child becomes the new
    /// root and keeps the old root's color; the old root turns Red,
    /// becomes the right child, and adopts the new root's former right
    /// subtree as its left child.
    fn rotate_right(node: Box<Node<V>>) -> (r: Box<Node<V>>)
        requires
            red(node.left),
            bst(Some(node)),
            bh_uniform(Some(node)),
        ensures
            r.key == node.left.unwrap().key,
            r.value == node.left.unwrap().value,
            r.color == node.color,
            r.left == node.left.unwrap().left,
            r.right is Some,
            r.right.unwrap().color is Red,
            r.right.unwrap().key == node.key,
            r.right.unwrap().value == node.value,
            r.right.unwrap().left == node.left.unwrap().right,
            r.right.unwrap().right == node.right,
            as_map(Some(r)) == as_map(Some(node)),
            bst(Some(r)),
            bh_uniform(Some(r)),
            black_height(Some(r)) == black_height(Some(node)),
    {
        let ghost orig = node;
        let mut node = node;
        let mut new_root = node.left.take().unwrap();
        node.left = new_root.right.take();
        new_root.color = node.color;
        node.color = Color::Red;
        new_root.right = Some(node);
        proof {
            lemma_rotate_right_facts(orig, new_root);
        }
        new_root
    }

    /// Rotates the subtree left: the Red right child becomes the new
    /// root and keeps the old root's color; the old root turns Red,
    /// becomes the left child, and adopts the new root's former left
    /// subtree as its right child.
    fn rotate_left(node: Box<Node<V>>) -> (r: Box<Node<V>>)
        requires
            red(node.right),
            bst(Some(node)),
            bh_uniform(Some(node)),
        ensures
            r.key == node.right.unwrap().key,
            r.value == node.right.unwrap().value,
            r.color == node.color,
            r.right == node.right.unwrap().right,
            r.left is Some,
            r.left.unwrap().color is Red,
            r.left.unwrap().key == node.key,
            r.left.unwrap().value == node.value,
            r.left.unwrap().left == node.left,
            r.left.unwrap().right == node.right.unwrap().left,
            as_map(Some(r)) == as_map(Some(node)),
            bst(Some(r)),
            bh_uniform(Some(r)),
            black_height(Some(r)) == black_height(Some(node)),
    {
        let ghost orig = node;
        let mut node = node;
        let mut new_root = node.right.take().unwrap();
        node.right = new_root.left.take();
        new_root.color = node.color;
        node.color = Color::Red;
        new_root.left = Some(node);
        proof {
            lemma_rotate_left_facts(orig, new_root);
        }
        new_root
    }
}

impl<V> Node<V> {
    /// Creates a leaf node with the given color and no children.
    pub fn new(key: u64, value: V, color: Color) -> (n: Node<V>)
        ensures
            n == (Node { key, value, color, left: None, right: None }),
    {
        Node { key, value, color, left: None, right: None }
    }
}

} // verus!
