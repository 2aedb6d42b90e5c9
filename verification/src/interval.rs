use vstd::prelude::*;

use crate::key::Key;
use crate::node::Entry;
use std::ops::Range;

verus! {

/// Intervals `[a, b)` of `usize` bounds, ordered by `a` and then by `b`.
pub trait Interval: Key {
    /// The lower bound.
    spec fn lo(&self) -> int;

    /// The upper bound.
    spec fn hi(&self) -> int;

    /// The key order is the order of the bounds, lower bound first.
    proof fn lemma_rank_bounds(x: Self, y: Self)
        ensures
            x.rank() < y.rank() <==> (x.lo() < y.lo() || (x.lo() == y.lo() && x.hi() < y.hi())),
            x.rank() == y.rank() <==> (x.lo() == y.lo() && x.hi() == y.hi()),
            0 <= x.lo() <= usize::MAX,
            0 <= x.hi() <= usize::MAX;

    fn a(&self) -> (r: usize)
        ensures
            r == self.lo();

    fn b(&self) -> (r: usize)
        ensures
            r == self.hi();
}

/// Two intervals overlap when they share a point; an empty interval is read as the point at
/// its lower bound, which overlaps any interval with the same lower bound.
pub open spec fn overlaps_spec(a1: int, b1: int, a2: int, b2: int) -> bool {
    (a1 < b2 && a2 < b1) || a1 == a2
}

/// `x` and `y` overlap.
pub fn overlaps<I: Interval, J: Interval>(x: &I, y: &J) -> (r: bool)
    ensures
        r == overlaps_spec(x.lo(), x.hi(), y.lo(), y.hi()),
{
    (x.a() < y.b() && y.a() < x.b()) || x.a() == y.a()
}

/// The range `a..b` of an interval.
pub fn to_range<I: Interval>(x: &I) -> (r: Range<usize>)
    ensures
        r.start == x.lo(),
        r.end == x.hi(),
{
    x.a()..x.b()
}

/// A number is the interval that holds just that number.
impl Interval for usize {
    open spec fn lo(&self) -> int {
        *self as int
    }

    open spec fn hi(&self) -> int {
        *self as int
    }

    proof fn lemma_rank_bounds(x: Self, y: Self) {
    }

    fn a(&self) -> (r: usize) {
        *self
    }

    fn b(&self) -> (r: usize) {
        *self
    }
}

/// An interval `[a, b)` given by its bounds.
#[derive(Clone, Copy, Debug, PartialEq, Eq, Structural, PartialOrd, Ord, Hash)]
pub struct KeyInterval {
    pub a: usize,
    pub b: usize,
}

impl KeyInterval {
    pub fn new(a: usize, b: usize) -> (iv: Self)
        ensures
            iv.a == a,
            iv.b == b,
    {
        KeyInterval { a: a, b: b }
    }

    /// The interval of a range.
    pub fn from_range(r: &Range<usize>) -> (iv: Self)
        ensures
            iv.a == r.start,
            iv.b == r.end,
    {
        Self::new(r.start, r.end)
    }

    /// The interval of a range.
    pub fn from(range: Range<usize>) -> (iv: Self)
        ensures
            iv.a == range.start,
            iv.b == range.end,
    {
        Self::from_range(&range)
    }
}

impl Key for KeyInterval {
    open spec fn rank(self) -> int {
        self.a * (usize::MAX + 1) + self.b
    }

    proof fn lemma_rank_injective(x: Self, y: Self) {
        if x.rank() == y.rank() {
            assert(x.a == y.a) by (nonlinear_arith)
                requires
                    x.a * (usize::MAX + 1) + x.b == y.a * (usize::MAX + 1) + y.b,
                    x.b <= usize::MAX,
                    y.b <= usize::MAX,
                    x.a >= 0,
                    y.a >= 0,
            {
                if x.a < y.a {
                    assert(x.a * (usize::MAX + 1) + (usize::MAX + 1) <= y.a * (usize::MAX + 1));
                } else if x.a > y.a {
                    assert(y.a * (usize::MAX + 1) + (usize::MAX + 1) <= x.a * (usize::MAX + 1));
                }
            }
        }
    }

    fn key_lt(&self, other: &Self) -> (r: bool) {
        proof {
            Self::lemma_rank_bounds(*self, *other);
        }
        self.a < other.a || (self.a == other.a && self.b < other.b)
    }

    fn key_eq(&self, other: &Self) -> (r: bool) {
        proof {
            Self::lemma_rank_bounds(*self, *other);
        }
        self.a == other.a && self.b == other.b
    }
}

impl Interval for KeyInterval {
    open spec fn lo(&self) -> int {
        self.a as int
    }

    open spec fn hi(&self) -> int {
        self.b as int
    }

    proof fn lemma_rank_bounds(x: Self, y: Self) {
        let m = usize::MAX + 1;
        assert(x.a * m + x.b < (x.a + 1) * m) by (nonlinear_arith)
            requires
                x.b < m,
        ;
        assert(y.a * m + y.b < (y.a + 1) * m) by (nonlinear_arith)
            requires
                y.b < m,
        ;
        if x.a < y.a {
            assert((x.a + 1) * m <= y.a * m) by (nonlinear_arith)
                requires
                    x.a + 1 <= y.a,
                    m > 0,
            ;
        } else if x.a > y.a {
            assert((y.a + 1) * m <= x.a * m) by (nonlinear_arith)
                requires
                    y.a + 1 <= x.a,
                    m > 0,
            ;
        }
    }

    fn a(&self) -> (r: usize) {
        self.a
    }

    fn b(&self) -> (r: usize) {
        self.b
    }
}

/// A node of the interval tree: an entry and the largest upper bound in its subtree.
pub struct IvNode<Iv, V> {
    pub entry: Entry<Iv, V>,
    pub maxb: usize,
}

impl<Iv: Interval, V> IvNode<Iv, V> {
    pub fn new(key: Iv, val: V) -> (n: Self)
        ensures
            n.entry.item == (key, val),
            n.maxb == key.hi(),
    {
        let maxb = key.b();
        IvNode { entry: Entry::new(key, val), maxb: maxb }
    }

    pub fn from_tuple(t: (Iv, V)) -> (n: Self)
        ensures
            n.entry.item == t,
            n.maxb == t.0.hi(),
    {
        let maxb = t.0.b();
        IvNode { entry: Entry::from_tuple(t), maxb: maxb }
    }

    pub fn into_entry(self) -> (e: Entry<Iv, V>)
        ensures
            e == self.entry,
    {
        self.entry
    }

    pub fn into_tuple(self) -> (t: (Iv, V))
        ensures
            t == self.entry.item,
    {
        self.entry.into_tuple()
    }
}

} // verus!
