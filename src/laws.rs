//! Laws that relate successive operations on a tree, stated over its view.

use vstd::prelude::*;
use crate::tree::RBTree;

verus! {

/// A lookup after an insertion: the inserted key is found with the inserted value, and
/// every other key is found, or not, with the value it had before.
pub proof fn lemma_find_after_insert<V>(
    before: RBTree<V>,
    after: RBTree<V>,
    key: usize,
    value: V,
    other: usize,
)
    requires
        after@ == before@.insert(key, value),
    ensures
        after@.contains_key(key),
        after@[key] == value,
        other != key ==> after@.contains_key(other) == before@.contains_key(other),
        other != key && before@.contains_key(other) ==> after@[other] == before@[other],
{
}

/// A lookup after a removal: the removed key is no longer found, and every other key is
/// found, or not, with the value it had before.
pub proof fn lemma_find_after_remove<V>(
    before: RBTree<V>,
    after: RBTree<V>,
    key: usize,
    other: usize,
)
    requires
        after@ == before@.remove(key),
    ensures
        !after@.contains_key(key),
        other != key ==> after@.contains_key(other) == before@.contains_key(other),
        other != key && before@.contains_key(other) ==> after@[other] == before@[other],
{
}

/// Inserting one key twice, with two values, stores one entry: the count is that of the
/// first insertion, and the key is found with the second value.
pub proof fn lemma_insert_twice<V>(
    start: RBTree<V>,
    once: RBTree<V>,
    twice: RBTree<V>,
    key: usize,
    first: V,
    second: V,
)
    requires
        start.well_formed(),
        once@ == start@.insert(key, first),
        twice@ == once@.insert(key, second),
    ensures
        twice@.len() == once@.len(),
        twice@.contains_key(key),
        twice@[key] == second,
        twice@ == start@.insert(key, second),
{
    assert(twice@ =~= start@.insert(key, second));
    assert(once@.dom().insert(key) =~= once@.dom());
}

/// Inserting a key that the tree does not hold and removing it again gives back the
/// same entries, hence the same count and the same lookups.
pub proof fn lemma_insert_then_remove<V>(
    start: RBTree<V>,
    inserted: RBTree<V>,
    removed: RBTree<V>,
    key: usize,
    value: V,
)
    requires
        start.well_formed(),
        !start@.contains_key(key),
        inserted@ == start@.insert(key, value),
        removed@ == inserted@.remove(key),
    ensures
        removed@ == start@,
        removed@.len() == start@.len(),
{
    assert(removed@ =~= start@);
}

} // verus!
