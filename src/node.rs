//! Tree nodes, the mathematical model of a subtree, and the local restructurings
//! (rotations) that the balancing routines are built from.

use vstd::prelude::*;

verus! {

/// The color of a node. A missing child counts as `Black`.
#[derive(Clone, Copy, Debug, PartialEq, Eq, Structural)]
pub enum Color {
    Black,
    Red,
}

/// One entry of the tree: a key, the value stored under it, its color and its children.
pub struct Node<V> {
    pub key: usize,
    pub value: V,
    pub color: Color,
    pub left: Option<Box<Node<V>>>,
    pub right: Option<Box<Node<V>>>,
}

/// The entries of a subtree, as a map from keys to values.
pub open spec fn link_map<V>(t: Option<Box<Node<V>>>) -> Map<usize, V>
    decreases t,
{
    match t {
        None => Map::empty(),
        Some(n) => link_map(n.left).union_prefer_right(link_map(n.right)).insert(n.key, n.value),
    }
}

/// The entries of the subtree rooted at `n`.
pub open spec fn node_map<V>(n: Node<V>) -> Map<usize, V> {
    link_map(n.left).union_prefer_right(link_map(n.right)).insert(n.key, n.value)
}

/// Search-tree order of the subtree rooted at `n`.
pub open spec fn node_ordered<V>(n: Node<V>) -> bool {
    &&& ordered(n.left)
    &&& ordered(n.right)
    &&& forall|k: usize| link_map(n.left).contains_key(k) ==> k < n.key
    &&& forall|k: usize| link_map(n.right).contains_key(k) ==> n.key < k
}

/// Search-tree order: every key of a left subtree is smaller than the node's key,
/// every key of a right subtree is larger.
pub open spec fn ordered<V>(t: Option<Box<Node<V>>>) -> bool
    decreases t,
{
    match t {
        None => true,
        Some(n) => {
            &&& ordered(n.left)
            &&& ordered(n.right)
            &&& forall|k: usize| link_map(n.left).contains_key(k) ==> k < n.key
            &&& forall|k: usize| link_map(n.right).contains_key(k) ==> n.key < k
        },
    }
}

/// A subtree whose root is a red node. An absent subtree is black.
pub open spec fn is_red<V>(t: Option<Box<Node<V>>>) -> bool {
    match t {
        None => false,
        Some(n) => n.color == Color::Red,
    }
}

/// Number of black nodes on the path from the root of `t` down its left spine,
/// the root included. In a balanced subtree every path gives this number.
pub open spec fn black_height<V>(t: Option<Box<Node<V>>>) -> nat
    decreases t,
{
    match t {
        None => 0,
        Some(n) => black_height(n.left) + if n.color == Color::Black { 1nat } else { 0nat },
    }
}

/// Every path from a node to an absent child passes through the same number of black nodes.
pub open spec fn balanced<V>(t: Option<Box<Node<V>>>) -> bool
    decreases t,
{
    match t {
        None => true,
        Some(n) => {
            &&& balanced(n.left)
            &&& balanced(n.right)
            &&& black_height(n.left) == black_height(n.right)
        },
    }
}

/// No red node has a red child.
pub open spec fn no_red_red<V>(t: Option<Box<Node<V>>>) -> bool
    decreases t,
{
    match t {
        None => true,
        Some(n) => {
            &&& no_red_red(n.left)
            &&& no_red_red(n.right)
            &&& n.color == Color::Red ==> !is_red(n.left) && !is_red(n.right)
        },
    }
}

/// The number of nodes in a subtree.
pub open spec fn node_count<V>(t: Option<Box<Node<V>>>) -> nat
    decreases t,
{
    match t {
        None => 0,
        Some(n) => node_count(n.left) + node_count(n.right) + 1,
    }
}

/// In an ordered subtree each node holds its own key, so there are as many keys as nodes.
pub proof fn lemma_node_count_is_len<V>(t: Option<Box<Node<V>>>)
    requires
        ordered(t),
    ensures
        link_map(t).dom().finite(),
        link_map(t).len() == node_count(t),
    decreases t,
{
    if let Some(n) = t {
        lemma_node_count_is_len(n.left);
        lemma_node_count_is_len(n.right);
        let l = link_map(n.left).dom();
        let r = link_map(n.right).dom();
        assert(l.disjoint(r)) by {
            assert forall|k: usize| l.contains(k) implies !r.contains(k) by {
                assert(k < n.key);
            }
        }
        vstd::set_lib::lemma_set_disjoint_lens(l, r);
        assert(!(l + r).contains(n.key));
        assert(link_map(t).dom() =~= (l + r).insert(n.key));
    }
}

/// A subtree that obeys the search order and both coloring rules.
pub open spec fn red_black<V>(t: Option<Box<Node<V>>>) -> bool {
    ordered(t) && balanced(t) && no_red_red(t)
}

impl<V> Node<V> {
    /// The left child, if any.
    pub fn left(&self) -> (r: Option<&Node<V>>)
        ensures
            r is Some == self.left is Some,
            r is Some ==> *r.unwrap() == *self.left.unwrap(),
    {
        match &self.left {
            None => None,
            Some(b) => Some(&**b),
        }
    }

    /// The right child, if any.
    pub fn right(&self) -> (r: Option<&Node<V>>)
        ensures
            r is Some == self.right is Some,
            r is Some ==> *r.unwrap() == *self.right.unwrap(),
    {
        match &self.right {
            None => None,
            Some(b) => Some(&**b),
        }
    }
}

/// Two subtrees with the same keys and colors in the same places; values may differ.
pub open spec fn same_shape<V>(a: Option<Box<Node<V>>>, b: Option<Box<Node<V>>>) -> bool
    decreases a,
{
    match a {
        None => b is None,
        Some(x) => match b {
            None => false,
            Some(y) => {
                &&& x.key == y.key
                &&& x.color == y.color
                &&& same_shape(x.left, y.left)
                &&& same_shape(x.right, y.right)
            },
        },
    }
}

/// Every subtree has its own shape.
pub proof fn lemma_same_shape_reflexive<V>(t: Option<Box<Node<V>>>)
    ensures
        same_shape(t, t),
    decreases t,
{
    if let Some(n) = t {
        lemma_same_shape_reflexive(n.left);
        lemma_same_shape_reflexive(n.right);
    }
}

/// Whether a subtree's root is red; an absent subtree is black.
pub fn link_is_red<V>(t: &Option<Box<Node<V>>>) -> (r: bool)
    ensures
        r == is_red(*t),
{
    match t {
        None => false,
        Some(n) => n.color == Color::Red,
    }
}

/// The root is red and has a red child: the one defect that inserting a red node
/// can leave behind.
pub open spec fn red_red_at_root<V>(t: Option<Box<Node<V>>>) -> bool {
    match t {
        None => false,
        Some(n) => n.color == Color::Red && (is_red(n.left) || is_red(n.right)),
    }
}

/// The root has two red children.
pub open spec fn two_red_children<V>(t: Option<Box<Node<V>>>) -> bool {
    match t {
        None => false,
        Some(n) => is_red(n.left) && is_red(n.right),
    }
}

/// Both children of the root obey the red rule; the root itself may break it.
pub open spec fn no_red_red_below<V>(t: Option<Box<Node<V>>>) -> bool {
    match t {
        None => true,
        Some(n) => no_red_red(n.left) && no_red_red(n.right),
    }
}

/// Gives the root of a subtree the color `c`; entries, order and shape are untouched.
pub fn set_color<V>(n: Box<Node<V>>, c: Color) -> (r: Box<Node<V>>)
    ensures
        r.key == n.key,
        r.value == n.value,
        r.left == n.left,
        r.right == n.right,
        r.color == c,
        link_map(Some(r)) == link_map(Some(n)),
        ordered(Some(r)) == ordered(Some(n)),
        balanced(Some(r)) == balanced(Some(n)),
        black_height(Some(r)) == black_height(n.left) + if c == Color::Black { 1nat } else { 0nat },
{
    let mut n = n;
    n.color = c;
    n
}

/// Left rotation: the right child `y` of `x` takes `x`'s place, `x` becomes `y`'s left
/// child, and `y`'s former left subtree hangs off `x`'s right. Colors are unchanged.
pub fn rotate_left<V>(x: Box<Node<V>>) -> (r: Box<Node<V>>)
    requires
        x.right is Some,
    ensures
        ({
            let y = x.right.unwrap();
            &&& r.key == y.key
            &&& r.value == y.value
            &&& r.color == y.color
            &&& r.right == y.right
            &&& r.left is Some
            &&& r.left.unwrap().key == x.key
            &&& r.left.unwrap().value == x.value
            &&& r.left.unwrap().color == x.color
            &&& r.left.unwrap().left == x.left
            &&& r.left.unwrap().right == y.left
        }),
        ordered(Some(x)) ==> ordered(Some(r)),
        ordered(Some(x)) ==> link_map(Some(r)) == link_map(Some(x)),
{
    let ghost x0 = x;
    let mut x = x;
    let mut y = x.right.take().unwrap();
    x.right = y.left.take();
    y.left = Some(x);
    proof {
        if ordered(Some(x0)) {
            let y0 = x0.right.unwrap();
            assert(ordered(x0.right));
            assert(ordered(y0.left) && ordered(y0.right));
            let a = link_map(x0.left);
            let b = link_map(y0.left);
            let c = link_map(y0.right);
            assert(link_map(Some(y0)) == b.union_prefer_right(c).insert(y0.key, y0.value));
            assert(link_map(x0.right).contains_key(y0.key));
            assert(x0.key < y0.key);
            assert forall|k: usize| b.contains_key(k) implies x0.key < k by {
                assert(link_map(x0.right).contains_key(k));
            }
            assert(link_map(y.left) =~= a.union_prefer_right(b).insert(x0.key, x0.value));
            assert(!c.contains_key(x0.key) && !a.contains_key(y0.key));
            assert(forall|k: usize| c.contains_key(k) ==> y0.key < k);
            assert(forall|k: usize| a.contains_key(k) ==> k < x0.key);
            assert(link_map(Some(y)) =~= link_map(Some(x0)));
            assert(ordered(y.left));
        }
    }
    y
}

/// Right rotation, the mirror image of [`rotate_left`]: the left child `y` of `x` takes
/// `x`'s place, `x` becomes `y`'s right child, and `y`'s former right subtree hangs off
/// `x`'s left. Colors are unchanged.
pub fn rotate_right<V>(x: Box<Node<V>>) -> (r: Box<Node<V>>)
    requires
        x.left is Some,
    ensures
        ({
            let y = x.left.unwrap();
            &&& r.key == y.key
            &&& r.value == y.value
            &&& r.color == y.color
            &&& r.left == y.left
            &&& r.right is Some
            &&& r.right.unwrap().key == x.key
            &&& r.right.unwrap().value == x.value
            &&& r.right.unwrap().color == x.color
            &&& r.right.unwrap().right == x.right
            &&& r.right.unwrap().left == y.right
        }),
        ordered(Some(x)) ==> ordered(Some(r)),
        ordered(Some(x)) ==> link_map(Some(r)) == link_map(Some(x)),
{
    let ghost x0 = x;
    let mut x = x;
    let mut y = x.left.take().unwrap();
    x.left = y.right.take();
    y.right = Some(x);
    proof {
        if ordered(Some(x0)) {
            let y0 = x0.left.unwrap();
            assert(ordered(x0.left));
            assert(ordered(y0.left) && ordered(y0.right));
            let a = link_map(y0.left);
            let b = link_map(y0.right);
            let c = link_map(x0.right);
            assert(link_map(Some(y0)) == a.union_prefer_right(b).insert(y0.key, y0.value));
            assert(link_map(x0.left).contains_key(y0.key));
            assert(y0.key < x0.key);
            assert forall|k: usize| b.contains_key(k) implies k < x0.key by {
                assert(link_map(x0.left).contains_key(k));
            }
            assert(link_map(y.right) =~= b.union_prefer_right(c).insert(x0.key, x0.value));
            assert(!a.contains_key(x0.key) && !c.contains_key(y0.key));
            assert(forall|k: usize| a.contains_key(k) ==> k < y0.key);
            assert(forall|k: usize| c.contains_key(k) ==> x0.key < k);
            assert(link_map(Some(y)) =~= link_map(Some(x0)));
            assert(ordered(y.right));
        }
    }
    y
}

} // verus!
