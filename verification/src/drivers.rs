use vstd::prelude::*;

use crate::key::Key;
use std::ops::Range;

verus! {

/// Where a bulk traversal must continue from a node: into the left subtree, into the right
/// subtree, or both (then the node itself is selected).
#[derive(Clone, Copy)]
pub struct RangeDecision {
    pub left: bool,
    pub right: bool,
}

impl RangeDecision {
    pub fn left(&self) -> (r: bool)
        ensures
            r == self.left,
    {
        self.left
    }

    pub fn right(&self) -> (r: bool)
        ensures
            r == self.right,
    {
        self.right
    }
}

/// Decides, for each key met, where a bulk deletion continues.
pub trait TraversalDriver<K: Key> {
    /// Entries with this key may have selected entries to their left.
    spec fn goes_left(&self, key: K) -> bool;

    /// Entries with this key may have selected entries to their right.
    spec fn goes_right(&self, key: K) -> bool;

    fn decide(&self, key: &K) -> (d: RangeDecision)
        ensures
            d.left == self.goes_left(*key),
            d.right == self.goes_right(*key);
}

/// The driver selects the entries with this key.
pub open spec fn selects<K: Key, D: TraversalDriver<K>>(d: &D, key: K) -> bool {
    d.goes_left(key) && d.goes_right(key)
}

/// Keys lying above the selected keys.
pub open spec fn above<K: Key, D: TraversalDriver<K>>(d: &D, key: K) -> bool {
    d.goes_left(key) && !d.goes_right(key)
}

/// The selected keys form an interval of the key order: the keys below it and the keys
/// above it are closed downwards and upwards.
pub open spec fn interval_driver<K: Key, D: TraversalDriver<K>>(d: &D) -> bool {
    &&& forall|a: K, b: K|
        #![trigger d.goes_left(a), d.goes_left(b)]
        a.rank() <= b.rank() && d.goes_left(a) ==> d.goes_left(b)
    &&& forall|a: K, b: K|
        #![trigger d.goes_right(a), d.goes_right(b)]
        a.rank() <= b.rank() && above(d, a) ==> above(d, b)
}

/// Selects the keys of a half-open range; the start key is selected even when the range
/// is empty.
pub struct RangeDriver<K> {
    pub range: Range<K>,
}

impl<K: Key> RangeDriver<K> {
    pub fn new(range: Range<K>) -> (d: Self)
        ensures
            d.range == range,
    {
        RangeDriver { range: range }
    }

    pub fn from(&self) -> (k: &K)
        ensures
            *k == self.range.start,
    {
        &self.range.start
    }

    pub fn to(&self) -> (k: &K)
        ensures
            *k == self.range.end,
    {
        &self.range.end
    }

    pub proof fn lemma_interval(&self)
        ensures
            interval_driver(self),
    {
    }
}

impl<K: Key> TraversalDriver<K> for RangeDriver<K> {
    open spec fn goes_left(&self, key: K) -> bool {
        self.range.start.rank() <= key.rank()
    }

    open spec fn goes_right(&self, key: K) -> bool {
        key.rank() < self.range.end.rank() || key.rank() == self.range.start.rank()
    }

    fn decide(&self, key: &K) -> (d: RangeDecision) {
        let left = !key.key_lt(&self.range.start);
        let right = key.key_lt(&self.range.end) || self.range.start.key_eq(key);
        RangeDecision { left: left, right: right }
    }
}

/// Selects the keys of a half-open range given by references.
pub struct RangeRefDriver<'a, K> {
    pub range: Range<&'a K>,
}

impl<'a, K: Key> RangeRefDriver<'a, K> {
    pub fn new(range: Range<&'a K>) -> (d: Self)
        ensures
            d.range == range,
    {
        RangeRefDriver { range: range }
    }

    pub fn from(&self) -> (k: &'a K)
        ensures
            *k == *self.range.start,
    {
        self.range.start
    }

    pub fn to(&self) -> (k: &'a K)
        ensures
            *k == *self.range.end,
    {
        self.range.end
    }

    pub proof fn lemma_interval(&self)
        ensures
            interval_driver(self),
    {
    }
}

impl<'a, K: Key> TraversalDriver<K> for RangeRefDriver<'a, K> {
    open spec fn goes_left(&self, key: K) -> bool {
        self.range.start.rank() <= key.rank()
    }

    open spec fn goes_right(&self, key: K) -> bool {
        key.rank() < self.range.end.rank()
    }

    fn decide(&self, key: &K) -> (d: RangeDecision) {
        let left = !key.key_lt(self.range.start);
        let right = key.key_lt(self.range.end);
        RangeDecision { left: left, right: right }
    }
}

} // verus!
