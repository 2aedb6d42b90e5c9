use vstd::prelude::*;

verus! {

/// Keys of the tree: totally ordered by an integer rank.
pub trait Key: Sized + Copy {
    /// The position of the key in the total order of its type.
    spec fn rank(self) -> int;

    /// Two keys of the same rank are the same key.
    proof fn lemma_rank_injective(a: Self, b: Self)
        ensures
            a.rank() == b.rank() ==> a == b;

    /// `self < other` in the order of the keys.
    fn key_lt(&self, other: &Self) -> (r: bool)
        ensures
            r == (self.rank() < other.rank());

    /// `self == other` for keys.
    fn key_eq(&self, other: &Self) -> (r: bool)
        ensures
            r == (self.rank() == other.rank());
}

impl Key for usize {
    open spec fn rank(self) -> int {
        self as int
    }

    proof fn lemma_rank_injective(a: Self, b: Self) {
    }

    fn key_lt(&self, other: &Self) -> (r: bool) {
        *self < *other
    }

    fn key_eq(&self, other: &Self) -> (r: bool) {
        *self == *other
    }
}

} // verus!
