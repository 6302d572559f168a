//! The ordered map: a red-black tree that owns its nodes and counts its entries.

use vstd::prelude::*;
use crate::delete::delete_node;
use crate::insert::insert_node;
use crate::node::{
    Color, Node, is_red, lemma_node_count_is_len, link_map, node_count, node_map, node_ordered,
    ordered, red_black, same_shape, set_color,
};

verus! {

/// Why an operation on the tree did not take place.
#[derive(Clone, Copy, Debug, PartialEq, Eq, Structural)]
pub enum RBTreeError {
    /// The key to remove is not in the tree.
    NotFound,
}

/// An ordered map from `usize` keys to values of type `V`, kept as a red-black tree.
pub struct RBTree<V> {
    root: Option<Box<Node<V>>>,
    len: usize,
}

impl<V> View for RBTree<V> {
    type V = Map<usize, V>;

    /// The tree's entries.
    open spec fn view(&self) -> Map<usize, V> {
        link_map(self.root_link())
    }
}

impl<V> RBTree<V> {
    /// The root of the tree, absent when the tree is empty.
    pub closed spec fn root_link(&self) -> Option<Box<Node<V>>> {
        self.root
    }

    /// The stored entry count.
    pub closed spec fn count(&self) -> nat {
        self.len as nat
    }

    /// The tree's invariant: the search order holds, the root is black, no red node has
    /// a red child, every path from a node to an absent child meets the same number of
    /// black nodes, and the entry count is the number of nodes.
    pub open spec fn well_formed(&self) -> bool {
        &&& red_black(self.root_link())
        &&& !is_red(self.root_link())
        &&& self.count() == node_count(self.root_link())
    }

    /// An empty tree.
    pub fn new() -> (r: RBTree<V>)
        ensures
            r.well_formed(),
            r@ == Map::<usize, V>::empty(),
    {
        RBTree { root: None, len: 0 }
    }

    /// The number of entries.
    pub fn len(&self) -> (r: usize)
        requires
            self.well_formed(),
        ensures
            r == self@.len(),
    {
        proof {
            lemma_node_count_is_len(self.root);
        }
        self.len
    }

    /// The root node, absent when the tree is empty.
    pub fn root(&self) -> (r: Option<&Node<V>>)
        ensures
            r is Some == self.root_link() is Some,
            r is Some ==> *r.unwrap() == *self.root_link().unwrap(),
    {
        match &self.root {
            None => None,
            Some(b) => Some(&**b),
        }
    }

    /// Stores `value` under `key`. An entry already under `key` has its value replaced;
    /// the entry count and the tree's shape then stay as they were. Inserting never fails
    /// on a well-formed tree.
    pub fn insert(&mut self, key: usize, value: V) -> (r: Result<(), RBTreeError>)
        requires
            old(self).well_formed(),
            old(self)@.len() < usize::MAX,
        ensures
            final(self).well_formed(),
            final(self)@ == old(self)@.insert(key, value),
            old(self)@.contains_key(key) ==> same_shape(final(self).root_link(), old(self).root_link()),
            r is Ok,
    {
        proof {
            lemma_node_count_is_len(self.root);
        }
        let root = self.root.take();
        let (n, added) = insert_node(root, key, value);
        proof {
            lemma_node_count_is_len(Some(n));
        }
        self.root = Some(set_color(n, Color::Black));
        if added {
            self.len = self.len + 1;
        }
        Ok(())
    }

    /// Removes the entry under `key`. Fails with `NotFound`, leaving the tree as it was,
    /// when there is none.
    pub fn remove(&mut self, key: usize) -> (r: Result<(), RBTreeError>)
        requires
            old(self).well_formed(),
        ensures
            final(self).well_formed(),
            r is Ok == old(self)@.contains_key(key),
            r is Ok ==> final(self)@ == old(self)@.remove(key),
            r is Ok ==> final(self)@.len() == old(self)@.len() - 1,
            r is Err ==> r == Err::<(), RBTreeError>(RBTreeError::NotFound) && *final(self)
                == *old(self),
    {
        proof {
            lemma_node_count_is_len(self.root);
        }
        if self.find(key).is_none() {
            return Err(RBTreeError::NotFound);
        }
        let root = self.root.take();
        let (t, _) = delete_node(root, key);
        proof {
            lemma_node_count_is_len(t);
        }
        self.root = t;
        self.len = self.len - 1;
        Ok(())
    }

    /// The node that holds `key`, absent when the tree has no entry under `key`.
    pub fn find(&self, key: usize) -> (r: Option<&Node<V>>)
        requires
            self.well_formed(),
        ensures
            r is Some == self@.contains_key(key),
            r is Some ==> r.unwrap().key == key && r.unwrap().value == self@[key],
    {
        let mut cur = &self.root;
        loop
            invariant
                ordered(*cur),
                self@.contains_key(key) == link_map(*cur).contains_key(key),
                link_map(*cur).contains_key(key) ==> link_map(*cur)[key] == self@[key],
            decreases *cur,
        {
            match cur {
                None => {
                    return None;
                },
                Some(n) => {
                    if n.key == key {
                        return Some(&**n);
                    } else if key < n.key {
                        assert(!link_map(n.right).contains_key(key));
                        cur = &n.left;
                    } else {
                        assert(!link_map(n.left).contains_key(key));
                        cur = &n.right;
                    }
                },
            }
        }
    }

    /// The node with the smallest key in the subtree rooted at `partial`: the end of its
    /// chain of left children.
    pub fn find_minimum<'a>(&self, partial: &'a Node<V>) -> (r: &'a Node<V>)
        requires
            node_ordered(*partial),
        ensures
            r.left is None,
            node_map(*partial).contains_key(r.key),
            node_map(*partial)[r.key] == r.value,
            forall|k: usize| node_map(*partial).contains_key(k) ==> r.key <= k,
    {
        let mut cur = partial;
        while cur.left.is_some()
            invariant
                node_ordered(*cur),
                forall|k: usize| #[trigger]
                    node_map(*cur).contains_key(k) ==> node_map(*partial).contains_key(k)
                        && node_map(*partial)[k] == node_map(*cur)[k],
                forall|k: usize| node_map(*partial).contains_key(k) ==> node_map(*cur).contains_key(k)
                    || cur.key < k,
            decreases *cur,
        {
            let next = cur.left.as_ref().unwrap();
            assert(link_map(cur.left) == node_map(**next));
            assert(ordered(cur.left));
            assert forall|k: usize| #[trigger]
                node_map(**next).contains_key(k) implies node_map(*cur).contains_key(k)
                && node_map(*cur)[k] == node_map(**next)[k] by {
                assert(link_map(cur.left).contains_key(k));
                assert(!link_map(cur.right).contains_key(k));
            }
            assert(link_map(cur.left).contains_key(next.key));
            cur = &**next;
        }
        assert(node_map(*cur).contains_key(cur.key));
        cur
    }

    /// The node with the smallest key above `key`, absent when no key of the tree is
    /// above `key`.
    pub fn next(&self, key: usize) -> (r: Option<&Node<V>>)
        requires
            self.well_formed(),
        ensures
            r is Some == exists|k: usize| self@.contains_key(k) && key < k,
            r is Some ==> {
                &&& key < r.unwrap().key
                &&& self@.contains_key(r.unwrap().key)
                &&& self@[r.unwrap().key] == r.unwrap().value
                &&& forall|k: usize| self@.contains_key(k) && key < k ==> r.unwrap().key <= k
            },
    {
        let mut cur = &self.root;
        let mut best: Option<&Node<V>> = None;
        loop
            invariant
                ordered(*cur),
                forall|k: usize| #[trigger]
                    link_map(*cur).contains_key(k) ==> self@.contains_key(k) && self@[k]
                        == link_map(*cur)[k],
                best is Some ==> {
                    &&& key < best.unwrap().key
                    &&& self@.contains_key(best.unwrap().key)
                    &&& self@[best.unwrap().key] == best.unwrap().value
                    &&& forall|k: usize| link_map(*cur).contains_key(k) ==> k < best.unwrap().key
                },
                forall|k: usize|
                    #![trigger self@.contains_key(k)]
                    self@.contains_key(k) && key < k ==> link_map(*cur).contains_key(k) || (
                    best is Some && best.unwrap().key <= k),
            decreases *cur,
        {
            match cur {
                None => {
                    return best;
                },
                Some(n) => {
                    assert(link_map(*cur).contains_key(n.key));
                    assert forall|k: usize| #[trigger]
                        link_map(n.left).contains_key(k) implies link_map(*cur).contains_key(k)
                        && link_map(*cur)[k] == link_map(n.left)[k] by {
                        assert(!link_map(n.right).contains_key(k));
                    }
                    assert forall|k: usize| #[trigger]
                        link_map(n.right).contains_key(k) implies link_map(*cur).contains_key(k)
                        && link_map(*cur)[k] == link_map(n.right)[k] by {}
                    let ghost before = *cur;
                    if key < n.key {
                        best = Some(&**n);
                        cur = &n.left;
                    } else {
                        cur = &n.right;
                    }
                    assert forall|k: usize| self@.contains_key(k) && #[trigger] link_map(before).contains_key(k)
                        && k != n.key && !link_map(n.left).contains_key(k) implies link_map(n.right).contains_key(k) by {}
                },
            }
        }
    }

    /// The node with the largest key below `key`, absent when no key of the tree is
    /// below `key`.
    pub fn prev(&self, key: usize) -> (r: Option<&Node<V>>)
        requires
            self.well_formed(),
        ensures
            r is Some == exists|k: usize| self@.contains_key(k) && k < key,
            r is Some ==> {
                &&& r.unwrap().key < key
                &&& self@.contains_key(r.unwrap().key)
                &&& self@[r.unwrap().key] == r.unwrap().value
                &&& forall|k: usize| self@.contains_key(k) && k < key ==> k <= r.unwrap().key
            },
    {
        let mut cur = &self.root;
        let mut best: Option<&Node<V>> = None;
        loop
            invariant
                ordered(*cur),
                forall|k: usize| #[trigger]
                    link_map(*cur).contains_key(k) ==> self@.contains_key(k) && self@[k]
                        == link_map(*cur)[k],
                best is Some ==> {
                    &&& best.unwrap().key < key
                    &&& self@.contains_key(best.unwrap().key)
                    &&& self@[best.unwrap().key] == best.unwrap().value
                    &&& forall|k: usize| link_map(*cur).contains_key(k) ==> best.unwrap().key < k
                },
                forall|k: usize|
                    #![trigger self@.contains_key(k)]
                    self@.contains_key(k) && k < key ==> link_map(*cur).contains_key(k) || (
                    best is Some && k <= best.unwrap().key),
            decreases *cur,
        {
            match cur {
                None => {
                    return best;
                },
                Some(n) => {
                    assert(link_map(*cur).contains_key(n.key));
                    assert forall|k: usize| #[trigger]
                        link_map(n.left).contains_key(k) implies link_map(*cur).contains_key(k)
                        && link_map(*cur)[k] == link_map(n.left)[k] by {
                        assert(!link_map(n.right).contains_key(k));
                    }
                    assert forall|k: usize| #[trigger]
                        link_map(n.right).contains_key(k) implies link_map(*cur).contains_key(k)
                        && link_map(*cur)[k] == link_map(n.right)[k] by {}
                    let ghost before = *cur;
                    if n.key < key {
                        best = Some(&**n);
                        cur = &n.right;
                    } else {
                        cur = &n.left;
                    }
                    assert forall|k: usize| self@.contains_key(k) && #[trigger] link_map(before).contains_key(k)
                        && k != n.key && !link_map(n.left).contains_key(k) implies link_map(n.right).contains_key(k) by {}
                },
            }
        }
    }
}

} // verus!
