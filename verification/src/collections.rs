//! Building a collection that holds one item.

use vstd::prelude::*;
use std::collections::{HashMap, HashSet};
use std::collections::hash_map::RandomState;
use std::hash::Hash;
use vstd::std_specs::hash::{obeys_key_model, builds_valid_hashers};

verus! {

/// A collection that can be made from a single item.
pub trait Singleton: Sized {
    type Item;

    fn singleton(item: Self::Item) -> Self;
}

impl<T: Eq + Hash> Singleton for HashSet<T> {
    type Item = T;

    /// The set of just `item`.
    fn singleton(item: T) -> (s: HashSet<T>)
        ensures
            obeys_key_model::<T>() && builds_valid_hashers::<RandomState>() ==> s@ == Set::<T>::empty().insert(item),
    {
        let mut hs = HashSet::new();
        hs.insert(item);
        hs
    }
}

impl<K: Eq + Hash, V> Singleton for HashMap<K, V> {
    type Item = (K, V);

    /// The map of just the pair `item`.
    fn singleton(item: (K, V)) -> (m: HashMap<K, V>)
        ensures
            obeys_key_model::<K>() && builds_valid_hashers::<RandomState>() ==> m@ == Map::<K, V>::empty().insert(item.0, item.1),
    {
        let mut hm = HashMap::new();
        hm.insert(item.0, item.1);
        hm
    }
}

} // verus!
