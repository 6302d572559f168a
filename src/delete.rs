//! Deletion: a search-tree removal that splices out one node, followed on the way back
//! up by the delete fixup, which restores the black height that the splice took away.

use vstd::prelude::*;
use crate::node::{
    Color, Node, balanced, black_height, is_red, link_is_red, link_map, no_red_red, ordered,
    red_black, rotate_left, rotate_right, set_color,
};

verus! {

/// Puts the only subtree `x` of a removed node of color `c` in that node's place.
/// Returns the subtree and whether it is one black node short: that is the case when a
/// black node left and `x` has no red root to take over its black.
fn splice<V>(c: Color, x: Option<Box<Node<V>>>) -> (r: (Option<Box<Node<V>>>, bool))
    requires
        red_black(x),
        c == Color::Red ==> !is_red(x),
    ensures
        link_map(r.0) == link_map(x),
        red_black(r.0),
        !is_red(r.0),
        black_height(r.0) + (if r.1 { 1nat } else { 0nat }) == black_height(x) + (
        if c == Color::Black { 1nat } else { 0nat }),
{
    match x {
        Some(n) => {
            if c == Color::Black && n.color == Color::Red {
                (Some(set_color(n, Color::Black)), false)
            } else {
                (Some(n), c == Color::Black)
            }
        },
        None => (None, c == Color::Black),
    }
}

/// Delete fixup, cases 2 to 4, at `p` whose left subtree is one black node short and
/// whose right child `w` is black.
///
/// Case 2 (both children of `w` black): `w` turns red and the shortfall moves to `p`,
/// which absorbs it if it is red. Case 3 (only `w`'s left child red): that child turns
/// black, `w` red, and `w` is rotated right, which gives case 4. Case 4 (`w`'s right
/// child red): `w` takes `p`'s color, `p` and that child turn black, and `p` is rotated
/// left, which ends the shortfall.
fn fix_left_black_sibling<V>(p: Box<Node<V>>) -> (r: (Box<Node<V>>, bool))
    requires
        ordered(Some(p)),
        balanced(p.left),
        no_red_red(p.left),
        balanced(p.right),
        no_red_red(p.right),
        !is_red(p.left),
        p.right is Some,
        p.right.unwrap().color == Color::Black,
        black_height(p.left) + 1 == black_height(p.right),
    ensures
        link_map(Some(r.0)) == link_map(Some(p)),
        red_black(Some(r.0)),
        black_height(Some(r.0)) + (if r.1 { 1nat } else { 0nat }) == black_height(p.right) + (
        if p.color == Color::Black { 1nat } else { 0nat }),
        is_red(Some(r.0)) ==> p.color == Color::Red,
        r.1 ==> p.color == Color::Black && r.0.color == Color::Black,
{
    let ghost p0 = p;
    let ghost w0 = p0.right.unwrap();
    let mut p = p;
    let mut w = p.right.take().unwrap();
    assert(ordered(Some(w0)));
    assert(balanced(w0.left) && balanced(w0.right) && no_red_red(w0.left) && no_red_red(w0.right));
    if !link_is_red(&w.left) && !link_is_red(&w.right) {
        p.right = Some(set_color(w, Color::Red));
        assert(no_red_red(p.right));
        assert(link_map(Some(p)) =~= link_map(Some(p0)));
        assert(ordered(Some(p)));
        assert(black_height(p.right) == black_height(p.left));
        assert(balanced(Some(p)));
        assert(no_red_red(Some(p)) || p.color == Color::Red);
        if p.color == Color::Red {
            (set_color(p, Color::Black), false)
        } else {
            (p, true)
        }
    } else {
        if !link_is_red(&w.right) {
            let ghost wl0 = w0.left.unwrap();
            let wl = w.left.take().unwrap();
            assert(balanced(wl0.left) && balanced(wl0.right));
            assert(no_red_red(wl0.left) && no_red_red(wl0.right));
            assert(!is_red(wl0.left) && !is_red(wl0.right));
            w.left = Some(set_color(wl, Color::Black));
            assert(link_map(Some(w)) =~= link_map(Some(w0)));
            assert(ordered(Some(w)));
            w = rotate_right(set_color(w, Color::Red));
            assert(balanced(w.right) && no_red_red(w.right));
            assert(black_height(w.left) == black_height(w.right));
        }
        let ghost w1 = w;
        assert(link_map(Some(w1)) == link_map(Some(w0)));
        assert(ordered(Some(w1)));
        let wr = w.right.take().unwrap();
        assert(balanced(w1.right) && no_red_red(w1.right));
        assert(balanced(wr.left) && balanced(wr.right) && no_red_red(wr.left) && no_red_red(wr.right));
        w.right = Some(set_color(wr, Color::Black));
        assert(link_map(Some(w)) =~= link_map(Some(w1)));
        assert(ordered(Some(w)));
        let pc = p.color;
        p.right = Some(set_color(w, pc));
        assert(link_map(Some(p)) =~= link_map(Some(p0)));
        assert(ordered(Some(p)));
        let r = rotate_left(set_color(p, Color::Black));
        assert(balanced(r.left) && no_red_red(r.left));
        assert(balanced(r.right) && no_red_red(r.right));
        assert(black_height(r.left) == black_height(p0.left) + 1);
        assert(black_height(r.right) == black_height(p0.left) + 1);
        assert(balanced(Some(r)));
        assert(no_red_red(Some(r)));
        (r, false)
    }
}

/// Delete fixup at `p` whose left subtree is one black node short. A red sibling is
/// first made black, `p` red, and `p` rotated left (case 1); the rest is done by
/// [`fix_left_black_sibling`] at `p`, now red with a black sibling.
fn fix_left_deficit<V>(p: Box<Node<V>>) -> (r: (Box<Node<V>>, bool))
    requires
        ordered(Some(p)),
        balanced(p.left),
        no_red_red(p.left),
        balanced(p.right),
        no_red_red(p.right),
        !is_red(p.left),
        p.color == Color::Red ==> !is_red(p.right),
        black_height(p.left) + 1 == black_height(p.right),
    ensures
        link_map(Some(r.0)) == link_map(Some(p)),
        red_black(Some(r.0)),
        black_height(Some(r.0)) + (if r.1 { 1nat } else { 0nat }) == black_height(p.right) + (
        if p.color == Color::Black { 1nat } else { 0nat }),
        is_red(Some(r.0)) ==> p.color == Color::Red,
        r.1 ==> p.color == Color::Black && r.0.color == Color::Black,
{
    let ghost p0 = p;
    let ghost w0 = p0.right.unwrap();
    if link_is_red(&p.right) {
        let mut p = p;
        let w = p.right.take().unwrap();
        assert(balanced(w0.left) && balanced(w0.right) && no_red_red(w0.left) && no_red_red(w0.right));
        assert(!is_red(w0.left) && !is_red(w0.right));
        p.right = Some(set_color(w, Color::Black));
        let mut top = rotate_left(set_color(p, Color::Red));
        let inner = top.left.take().unwrap();
        let (fixed, _) = fix_left_black_sibling(inner);
        top.left = Some(fixed);
        assert(link_map(Some(top)) =~= link_map(Some(p0)));
        (top, false)
    } else {
        fix_left_black_sibling(p)
    }
}

/// Delete fixup, cases 2 to 4, at `p` whose right subtree is one black node short:
/// the mirror image of [`fix_left_black_sibling`].
fn fix_right_black_sibling<V>(p: Box<Node<V>>) -> (r: (Box<Node<V>>, bool))
    requires
        ordered(Some(p)),
        balanced(p.right),
        no_red_red(p.right),
        balanced(p.left),
        no_red_red(p.left),
        !is_red(p.right),
        p.left is Some,
        p.left.unwrap().color == Color::Black,
        black_height(p.right) + 1 == black_height(p.left),
    ensures
        link_map(Some(r.0)) == link_map(Some(p)),
        red_black(Some(r.0)),
        black_height(Some(r.0)) + (if r.1 { 1nat } else { 0nat }) == black_height(p.left) + (
        if p.color == Color::Black { 1nat } else { 0nat }),
        is_red(Some(r.0)) ==> p.color == Color::Red,
        r.1 ==> p.color == Color::Black && r.0.color == Color::Black,
{
    let ghost p0 = p;
    let ghost w0 = p0.left.unwrap();
    let mut p = p;
    let mut w = p.left.take().unwrap();
    assert(ordered(Some(w0)));
    assert(balanced(w0.right) && balanced(w0.left) && no_red_red(w0.right) && no_red_red(w0.left));
    if !link_is_red(&w.right) && !link_is_red(&w.left) {
        p.left = Some(set_color(w, Color::Red));
        assert(no_red_red(p.left));
        assert(link_map(Some(p)) =~= link_map(Some(p0)));
        assert(ordered(Some(p)));
        assert(black_height(p.left) == black_height(p.right));
        assert(balanced(Some(p)));
        assert(no_red_red(Some(p)) || p.color == Color::Red);
        if p.color == Color::Red {
            (set_color(p, Color::Black), false)
        } else {
            (p, true)
        }
    } else {
        if !link_is_red(&w.left) {
            let ghost wl0 = w0.right.unwrap();
            let wl = w.right.take().unwrap();
            assert(balanced(wl0.right) && balanced(wl0.left));
            assert(no_red_red(wl0.right) && no_red_red(wl0.left));
            assert(!is_red(wl0.right) && !is_red(wl0.left));
            w.right = Some(set_color(wl, Color::Black));
            assert(link_map(Some(w)) =~= link_map(Some(w0)));
            assert(ordered(Some(w)));
            w = rotate_left(set_color(w, Color::Red));
            assert(balanced(w.left) && no_red_red(w.left));
            assert(black_height(w.right) == black_height(w.left));
        }
        let ghost w1 = w;
        assert(link_map(Some(w1)) == link_map(Some(w0)));
        assert(ordered(Some(w1)));
        let wr = w.left.take().unwrap();
        assert(balanced(w1.left) && no_red_red(w1.left));
        assert(balanced(wr.right) && balanced(wr.left) && no_red_red(wr.right) && no_red_red(wr.left));
        w.left = Some(set_color(wr, Color::Black));
        assert(link_map(Some(w)) =~= link_map(Some(w1)));
        assert(ordered(Some(w)));
        let pc = p.color;
        p.left = Some(set_color(w, pc));
        assert(link_map(Some(p)) =~= link_map(Some(p0)));
        assert(ordered(Some(p)));
        let r = rotate_right(set_color(p, Color::Black));
        assert(balanced(r.right) && no_red_red(r.right));
        assert(balanced(r.left) && no_red_red(r.left));
        assert(black_height(r.right) == black_height(p0.right) + 1);
        assert(black_height(r.left) == black_height(p0.right) + 1);
        assert(balanced(Some(r)));
        assert(no_red_red(Some(r)));
        (r, false)
    }
}

/// Delete fixup at `p` whose right subtree is one black node short: the mirror image
/// of [`fix_left_deficit`].
fn fix_right_deficit<V>(p: Box<Node<V>>) -> (r: (Box<Node<V>>, bool))
    requires
        ordered(Some(p)),
        balanced(p.right),
        no_red_red(p.right),
        balanced(p.left),
        no_red_red(p.left),
        !is_red(p.right),
        p.color == Color::Red ==> !is_red(p.left),
        black_height(p.right) + 1 == black_height(p.left),
    ensures
        link_map(Some(r.0)) == link_map(Some(p)),
        red_black(Some(r.0)),
        black_height(Some(r.0)) + (if r.1 { 1nat } else { 0nat }) == black_height(p.left) + (
        if p.color == Color::Black { 1nat } else { 0nat }),
        is_red(Some(r.0)) ==> p.color == Color::Red,
        r.1 ==> p.color == Color::Black && r.0.color == Color::Black,
{
    let ghost p0 = p;
    let ghost w0 = p0.left.unwrap();
    if link_is_red(&p.left) {
        let mut p = p;
        let w = p.left.take().unwrap();
        assert(balanced(w0.right) && balanced(w0.left) && no_red_red(w0.right) && no_red_red(w0.left));
        assert(!is_red(w0.right) && !is_red(w0.left));
        p.left = Some(set_color(w, Color::Black));
        let mut top = rotate_right(set_color(p, Color::Red));
        let inner = top.right.take().unwrap();
        let (fixed, _) = fix_right_black_sibling(inner);
        top.right = Some(fixed);
        assert(link_map(Some(top)) =~= link_map(Some(p0)));
        (top, false)
    } else {
        fix_right_black_sibling(p)
    }
}

/// Removes the entry with the smallest key from the subtree rooted at `n`. Returns the
/// remaining subtree, whether it is one black node short, and the removed key and value.
fn delete_min<V>(n: Box<Node<V>>) -> (r: (Option<Box<Node<V>>>, bool, usize, V))
    requires
        red_black(Some(n)),
    ensures
        link_map(Some(n)).contains_key(r.2),
        link_map(Some(n))[r.2] == r.3,
        forall|k: usize| link_map(Some(n)).contains_key(k) ==> r.2 <= k,
        link_map(r.0) == link_map(Some(n)).remove(r.2),
        red_black(r.0),
        black_height(r.0) + (if r.1 { 1nat } else { 0nat }) == black_height(Some(n)),
        is_red(r.0) ==> n.color == Color::Red,
        r.1 ==> !is_red(r.0),
    decreases n,
{
    let ghost n0 = n;
    let mut n = n;
    if n.left.is_none() {
        let Node { key, value, color, left: _, right } = *n;
        assert(link_map(n0.left) =~= Map::empty());
        assert(!link_map(right).contains_key(key));
        assert(link_map(right) =~= link_map(Some(n0)).remove(key));
        let (x, short) = splice(color, right);
        (x, short, key, value)
    } else {
        let (l, short, k, v) = delete_min(n.left.take().unwrap());
        n.left = l;
        assert(link_map(n0.left).contains_key(k));
        assert(!link_map(n0.right).contains_key(k));
        assert(link_map(Some(n)) =~= link_map(Some(n0)).remove(k));
        if short {
            let (m, s) = fix_left_deficit(n);
            (Some(m), s, k, v)
        } else {
            (Some(n), false, k, v)
        }
    }
}

/// Removes the entry under `key`, if any, from the subtree `t`. Returns the new subtree
/// and whether it is one black node short.
pub(crate) fn delete_node<V>(t: Option<Box<Node<V>>>, key: usize) -> (r: (
    Option<Box<Node<V>>>,
    bool,
))
    requires
        red_black(t),
    ensures
        link_map(r.0) == link_map(t).remove(key),
        red_black(r.0),
        black_height(r.0) + (if r.1 { 1nat } else { 0nat }) == black_height(t),
        is_red(r.0) ==> is_red(t),
        r.1 ==> !is_red(r.0),
    decreases t,
{
    match t {
        None => {
            assert(link_map(t) =~= link_map(t).remove(key));
            (None, false)
        },
        Some(n) => {
            let ghost n0 = n;
            let mut n = n;
            if key < n.key {
                let (l, short) = delete_node(n.left.take(), key);
                n.left = l;
                assert(!link_map(n0.right).contains_key(key));
                assert(link_map(Some(n)) =~= link_map(t).remove(key));
                if short {
                    let (m, s) = fix_left_deficit(n);
                    (Some(m), s)
                } else {
                    (Some(n), false)
                }
            } else if n.key < key {
                let (rt, short) = delete_node(n.right.take(), key);
                n.right = rt;
                assert(!link_map(n0.left).contains_key(key));
                assert(link_map(Some(n)) =~= link_map(t).remove(key));
                if short {
                    let (m, s) = fix_right_deficit(n);
                    (Some(m), s)
                } else {
                    (Some(n), false)
                }
            } else if n.left.is_none() {
                let Node { key: _, value: _, color, left: _, right } = *n;
                assert(link_map(n0.left) =~= Map::empty());
                assert(!link_map(right).contains_key(key));
                assert(link_map(right) =~= link_map(t).remove(key));
                splice(color, right)
            } else if n.right.is_none() {
                let Node { key: _, value: _, color, left, right: _ } = *n;
                assert(link_map(n0.right) =~= Map::empty());
                assert(!link_map(left).contains_key(key));
                assert(link_map(left) =~= link_map(t).remove(key));
                splice(color, left)
            } else {
                let (rt, short, k, v) = delete_min(n.right.take().unwrap());
                n.key = k;
                n.value = v;
                n.right = rt;
                assert(link_map(n0.right).contains_key(k));
                assert(!link_map(n0.left).contains_key(k));
                assert(!link_map(n0.left).contains_key(key));
                assert(!link_map(n0.right).contains_key(key));
                assert(link_map(Some(n)) =~= link_map(t).remove(key));
                if short {
                    let (m, s) = fix_right_deficit(n);
                    (Some(m), s)
                } else {
                    (Some(n), false)
                }
            }
        },
    }
}

} // verus!
