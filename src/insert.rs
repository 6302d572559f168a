//! Insertion: a search-tree descent that places a red node, followed on the way back
//! up by the insert fixup, which repairs a red node with a red child at the grandparent.

use vstd::prelude::*;
use crate::node::{
    Color, Node, balanced, black_height, is_red, lemma_same_shape_reflexive, link_is_red, link_map,
    no_red_red, no_red_red_below, ordered, red_black, red_red_at_root, rotate_left, rotate_right,
    same_shape, set_color, two_red_children,
};

verus! {

/// Whether the root of `t` is red and has a red child.
fn has_red_red<V>(t: &Option<Box<Node<V>>>) -> (r: bool)
    ensures
        r == red_red_at_root(*t),
{
    match t {
        None => false,
        Some(n) => n.color == Color::Red && (link_is_red(&n.left) || link_is_red(&n.right)),
    }
}

/// Insert fixup at grandparent `g` after an insertion into its left subtree.
///
/// When the left child `p` is red with a red child: a red uncle is recolored black
/// together with `p` and `g` turns red (the defect may move up); otherwise a red right
/// child of `p` is first rotated into `p`'s place, then `g` turns red, the new `p` black,
/// and `g` is rotated right. An absent uncle counts as black.
fn fix_left<V>(g: Box<Node<V>>) -> (r: Box<Node<V>>)
    requires
        ordered(Some(g)),
        balanced(g.left),
        balanced(g.right),
        black_height(g.left) == black_height(g.right),
        no_red_red_below(g.left),
        no_red_red(g.right),
        red_red_at_root(g.left) ==> g.color == Color::Black,
        red_red_at_root(g.left) ==> !two_red_children(g.left),
        g.color == Color::Red ==> !is_red(g.right),
    ensures
        link_map(Some(r)) == link_map(Some(g)),
        ordered(Some(r)),
        balanced(Some(r)),
        black_height(Some(r)) == black_height(Some(g)),
        no_red_red_below(Some(r)),
        is_red(Some(r)) ==> !two_red_children(Some(r)),
        g.color == Color::Black ==> no_red_red(Some(r)),
        !red_red_at_root(g.left) ==> r == g,
{
    let mut g = g;
    if !has_red_red(&g.left) {
        assert(no_red_red(g.left));
        return g;
    }
    if link_is_red(&g.right) {
        let p = g.left.take().unwrap();
        g.left = Some(set_color(p, Color::Black));
        let u = g.right.take().unwrap();
        g.right = Some(set_color(u, Color::Black));
        set_color(g, Color::Red)
    } else {
        let p = g.left.take().unwrap();
        let ghost p0 = p;
        assert(balanced(Some(p0)));
        assert(balanced(p0.left) && balanced(p0.right));
        let p = if link_is_red(&p.left) {
            p
        } else {
            let z = rotate_left(p);
            proof {
                let z0 = p0.right.unwrap();
                assert(balanced(p0.right));
                assert(balanced(z0.left) && balanced(z0.right));
                assert(black_height(p0.right) == black_height(z0.left));
                assert(balanced(z.left));
                assert(no_red_red(p0.right));
                assert(!is_red(z0.left) && !is_red(z0.right));
                assert(no_red_red(z.left));
            }
            z
        };
        // `p` is red, its left child is red and its right child is not.
        assert(no_red_red(p.left) && no_red_red(p.right) && !is_red(p.right));
        assert(balanced(p.left) && balanced(p.right));
        assert(black_height(p.right) == black_height(g.right));
        g.left = Some(set_color(p, Color::Black));
        let r = rotate_right(set_color(g, Color::Red));
        assert(balanced(r.right));
        assert(no_red_red(r.right));
        r
    }
}

/// Insert fixup at grandparent `g` after an insertion into its right subtree: the
/// mirror image of [`fix_left`].
fn fix_right<V>(g: Box<Node<V>>) -> (r: Box<Node<V>>)
    requires
        ordered(Some(g)),
        balanced(g.right),
        balanced(g.left),
        black_height(g.right) == black_height(g.left),
        no_red_red_below(g.right),
        no_red_red(g.left),
        red_red_at_root(g.right) ==> g.color == Color::Black,
        red_red_at_root(g.right) ==> !two_red_children(g.right),
        g.color == Color::Red ==> !is_red(g.left),
    ensures
        link_map(Some(r)) == link_map(Some(g)),
        ordered(Some(r)),
        balanced(Some(r)),
        black_height(Some(r)) == black_height(Some(g)),
        no_red_red_below(Some(r)),
        is_red(Some(r)) ==> !two_red_children(Some(r)),
        g.color == Color::Black ==> no_red_red(Some(r)),
        !red_red_at_root(g.right) ==> r == g,
{
    let mut g = g;
    if !has_red_red(&g.right) {
        assert(no_red_red(g.right));
        return g;
    }
    if link_is_red(&g.left) {
        let p = g.right.take().unwrap();
        g.right = Some(set_color(p, Color::Black));
        let u = g.left.take().unwrap();
        g.left = Some(set_color(u, Color::Black));
        set_color(g, Color::Red)
    } else {
        let p = g.right.take().unwrap();
        let ghost p0 = p;
        assert(balanced(Some(p0)));
        assert(balanced(p0.right) && balanced(p0.left));
        let p = if link_is_red(&p.right) {
            p
        } else {
            let z = rotate_right(p);
            proof {
                let z0 = p0.left.unwrap();
                assert(balanced(p0.left));
                assert(balanced(z0.right) && balanced(z0.left));
                assert(black_height(p0.left) == black_height(z0.right));
                assert(balanced(z.right));
                assert(no_red_red(p0.left));
                assert(!is_red(z0.right) && !is_red(z0.left));
                assert(no_red_red(z.right));
            }
            z
        };
        // `p` is red, its right child is red and its left child is not.
        assert(no_red_red(p.right) && no_red_red(p.left) && !is_red(p.left));
        assert(balanced(p.right) && balanced(p.left));
        assert(black_height(p.left) == black_height(g.left));
        g.right = Some(set_color(p, Color::Black));
        let r = rotate_left(set_color(g, Color::Red));
        assert(balanced(r.left));
        assert(no_red_red(r.left));
        r
    }
}

/// A subtree shaped like one without the red-red defect at its root has none either.
proof fn lemma_no_new_red_red<V>(a: Option<Box<Node<V>>>, b: Option<Box<Node<V>>>)
    requires
        same_shape(a, b),
        no_red_red(b),
    ensures
        !red_red_at_root(a),
{
    if let Some(x) = a {
        let y = b.unwrap();
        assert(same_shape(x.left, y.left) && same_shape(x.right, y.right));
        assert(is_red(x.left) == is_red(y.left));
        assert(is_red(x.right) == is_red(y.right));
    }
}

/// Inserts `key` with `value` into the subtree `t`, overwriting the value of an equal key.
/// Returns the new subtree and whether the key was new.
///
/// A red-rooted result may carry one red child (repaired by the caller's fixup); a
/// black-rooted or empty `t` gives a red-black result.
pub(crate) fn insert_node<V>(t: Option<Box<Node<V>>>, key: usize, value: V) -> (r: (Box<Node<V>>, bool))
    requires
        red_black(t),
    ensures
        link_map(Some(r.0)) == link_map(t).insert(key, value),
        r.1 == !link_map(t).contains_key(key),
        ordered(Some(r.0)),
        balanced(Some(r.0)),
        black_height(Some(r.0)) == black_height(t),
        no_red_red_below(Some(r.0)),
        !two_red_children(Some(r.0)) || !is_red(Some(r.0)),
        !is_red(t) ==> no_red_red(Some(r.0)),
        !r.1 ==> same_shape(Some(r.0), t),
    decreases t,
{
    match t {
        None => {
            let n = Box::new(
                Node { key, value, color: Color::Red, left: None, right: None },
            );
            (n, true)
        },
        Some(n) => {
            let mut n = n;
            let ghost n0 = n;
            if key == n.key {
                n.value = value;
                proof {
                    lemma_same_shape_reflexive(n.left);
                    lemma_same_shape_reflexive(n.right);
                }
                assert(!link_map(n0.left).contains_key(key));
                assert(!link_map(n0.right).contains_key(key));
                assert(link_map(Some(n)) =~= link_map(t).insert(key, value));
                (n, false)
            } else if key < n.key {
                let (c, added) = insert_node(n.left.take(), key, value);
                n.left = Some(c);
                proof {
                    lemma_same_shape_reflexive(n.right);
                    if !added {
                        lemma_no_new_red_red(n.left, n0.left);
                    }
                }
                assert(!link_map(n0.right).contains_key(key));
                assert(link_map(Some(n)) =~= link_map(t).insert(key, value));
                (fix_left(n), added)
            } else {
                let (c, added) = insert_node(n.right.take(), key, value);
                n.right = Some(c);
                proof {
                    lemma_same_shape_reflexive(n.left);
                    if !added {
                        lemma_no_new_red_red(n.right, n0.right);
                    }
                }
                assert(!link_map(n0.left).contains_key(key));
                assert(link_map(Some(n)) =~= link_map(t).insert(key, value));
                (fix_right(n), added)
            }
        },
    }
}

} // verus!
