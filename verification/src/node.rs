use vstd::prelude::*;

use crate::key::Key;

verus! {

/// A key/value pair stored in a cell of the tree.
pub struct Entry<K, V> {
    pub item: (K, V),
}

impl<K, V> Entry<K, V> {
    pub fn new(key: K, val: V) -> (e: Self)
        ensures
            e.item == (key, val),
    {
        Entry { item: (key, val) }
    }

    /// Same as `new`, from a tuple.
    pub fn from_tuple(t: (K, V)) -> (e: Self)
        ensures
            e.item == t,
    {
        Entry { item: t }
    }

    pub fn into_tuple(self) -> (t: (K, V))
        ensures
            t == self.item,
    {
        self.item
    }

    pub fn as_tuple(&self) -> (t: &(K, V))
        ensures
            *t == self.item,
    {
        &self.item
    }

    pub fn key(&self) -> (k: &K)
        ensures
            *k == self.item.0,
    {
        &self.item.0
    }

    pub fn val(&self) -> (v: &V)
        ensures
            *v == self.item.1,
    {
        &self.item.1
    }
}

/// The rank of the key of an entry.
pub open spec fn erank<K: Key, V>(e: Entry<K, V>) -> int {
    e.item.0.rank()
}

} // verus!
