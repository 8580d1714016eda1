use std::collections::{BTreeSet, HashSet};
use std::hash::Hash;

use vstd::laws_cmp::obeys_cmp;
use vstd::prelude::*;
use vstd::std_specs::hash::obeys_key_model;

verus! {

broadcast use vstd::std_specs::hash::group_hash_axioms;

/// A set of items with membership, whichever collection holds them.
pub trait ItemSet<T>: Sized {
    /// The items held.
    spec fn items(&self) -> Set<T>;

    /// Whether the item type behaves as the collection needs (hashing or
    /// ordering consistent with equality).
    spec fn obeys_item_model() -> bool;

    fn new() -> (r: Self)
        ensures
            r.items() == Set::<T>::empty();

    /// Adds `item`; `true` when it was not held before.
    fn insert(&mut self, item: T) -> (r: bool)
        requires
            Self::obeys_item_model(),
        ensures
            final(self).items() == old(self).items().insert(item),
            r == !old(self).items().contains(item);

    fn contains(&self, item: &T) -> (r: bool)
        requires
            Self::obeys_item_model(),
        ensures
            r == self.items().contains(*item);
}

impl<T: Hash + Eq> ItemSet<T> for HashSet<T> {
    open spec fn items(&self) -> Set<T> {
        self@
    }

    open spec fn obeys_item_model() -> bool {
        obeys_key_model::<T>()
    }

    fn new() -> (r: Self) {
        HashSet::new()
    }

    fn insert(&mut self, item: T) -> (r: bool) {
        HashSet::insert(self, item)
    }

    fn contains(&self, item: &T) -> (r: bool) {
        HashSet::contains(self, item)
    }
}

impl<T: Ord> ItemSet<T> for BTreeSet<T> {
    open spec fn items(&self) -> Set<T> {
        self@
    }

    open spec fn obeys_item_model() -> bool {
        obeys_cmp::<T>()
    }

    fn new() -> (r: Self) {
        BTreeSet::new()
    }

    fn insert(&mut self, item: T) -> (r: bool) {
        BTreeSet::insert(self, item)
    }

    fn contains(&self, item: &T) -> (r: bool) {
        BTreeSet::contains(self, item)
    }
}

} // verus!
