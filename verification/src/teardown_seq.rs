use vstd::prelude::*;

use rand::Rng;
use rand::XorShiftRng;
use std::ops::Range;

verus! {

/// The random number generator used to shuffle a teardown sequence.
#[verifier::external_type_specification]
#[verifier::external_body]
pub struct ExXorShiftRng(XorShiftRng);

/// `rand::Rng::gen_range` on `usize`: a number drawn from `[low, high)`; it panics when
/// `low >= high`.  Which number comes out depends on the generator's state, so only the
/// bounds are stated.
#[verifier::external_body]
fn gen_range(rng: &mut XorShiftRng, low: usize, high: usize) -> (r: usize)
    requires
        low < high,
    ensures
        low <= r < high,
{
    rng.gen_range(low, high)
}

/// The number of ranges of `rm_items` items (the last one may be shorter) that cover `0..n`.
pub open spec fn range_count(n: nat, rm_items: nat) -> nat
    recommends
        rm_items > 0,
{
    n / rm_items + if n % rm_items != 0 { 1nat } else { 0nat }
}

/// The `c`-th range of `rm_items` items within `0..n`.
pub open spec fn chunk(c: int, rm_items: int, n: int) -> (int, int) {
    (c * rm_items, if c * rm_items + rm_items < n { c * rm_items + rm_items } else { n })
}

/// `r` is one of the ranges of `rm_items` items that cover `0..n`.
pub open spec fn is_chunk(r: Range<usize>, rm_items: int, n: int) -> bool {
    exists|c: int|
        0 <= c < range_count(n as nat, rm_items as nat) && r.start == #[trigger] chunk(c, rm_items, n).0 && r.end
            == chunk(c, rm_items, n).1
}

/// The draws fit the shrinking pool: the `i`-th of them is below the number of ranges
/// left, `nr - i`, and there is one per range.
pub open spec fn valid_draws(draws: Seq<usize>, nr: nat) -> bool {
    &&& draws.len() == nr
    &&& forall|i: int| 0 <= i < draws.len() ==> #[trigger] draws[i] < nr - i
}

/// The pool of range numbers after `i` draws: at first `0, 1, ..., nr - 1`; each draw
/// removes the element at the drawn position and puts the last element there.
pub open spec fn pool_after(nr: nat, draws: Seq<usize>, i: nat) -> Seq<usize>
    decreases i,
{
    if i == 0 {
        Seq::new(nr, |j: int| j as usize)
    } else {
        let p = pool_after(nr, draws, (i - 1) as nat);
        p.update(draws[i - 1] as int, p.last()).drop_last()
    }
}

/// The range number that the `i`-th draw picks.
pub open spec fn drawn(nr: nat, draws: Seq<usize>, i: int) -> usize {
    pool_after(nr, draws, i as nat)[draws[i] as int]
}

/// The range that the `i`-th draw picks.
pub open spec fn drawn_range(n: int, rm_items: int, draws: Seq<usize>, i: int) -> (int, int) {
    chunk(drawn(range_count(n as nat, rm_items as nat), draws, i) as int, rm_items, n)
}

/// The ranges in the order that the draws give.
pub open spec fn drawn_ranges(n: int, rm_items: int, draws: Seq<usize>) -> Seq<Range<usize>> {
    Seq::new(
        draws.len(),
        |i: int| (drawn_range(n, rm_items, draws, i).0 as usize)..(drawn_range(n, rm_items, draws, i).1 as usize),
    )
}

/// Splits `0..n` into ranges of `rm_items` items (the last one may be shorter) and orders
/// them by the drawn numbers: the range numbers start as a pool `0, 1, ...`; the `i`-th
/// draw picks the pool's element at that position for the `i`-th range, and the pool's
/// last element takes its place.  Every range comes out exactly once.
pub fn ranges_from_draws(n: usize, rm_items: usize, draws: Vec<usize>) -> (ranges: Vec<Range<usize>>)
    requires
        rm_items > 0,
        n + rm_items <= usize::MAX,
        valid_draws(draws@, range_count(n as nat, rm_items as nat)),
    ensures
        ranges@.len() == range_count(n as nat, rm_items as nat),
        forall|i: int|
            0 <= i < ranges@.len() ==> (#[trigger] ranges@[i]).start == drawn_range(n as int, rm_items as int, draws@, i).0
                && ranges@[i].end == drawn_range(n as int, rm_items as int, draws@, i).1,
        forall|i: int| 0 <= i < ranges@.len() ==> is_chunk(#[trigger] ranges@[i], rm_items as int, n as int),
        forall|i: int, j: int|
            0 <= i < ranges@.len() && 0 <= j < ranges@.len() && i != j ==> (#[trigger] ranges@[i]).start
                != (#[trigger] ranges@[j]).start,
{
    let nranges = n / rm_items + if n % rm_items != 0 {
        1
    } else {
        0
    };
    proof {
        assert(nranges * rm_items <= n + rm_items - 1) by (nonlinear_arith)
            requires
                nranges == n / rm_items + if n % rm_items != 0 { 1int } else { 0int },
                rm_items > 0,
        ;
    }
    // a random permutation of the range numbers
    let ghost nr = nranges as nat;
    let mut pool: Vec<usize> = Vec::new();
    let mut k: usize = 0;
    while k < nranges
        invariant
            k <= nranges,
            pool@.len() == k,
            forall|j: int| 0 <= j < k ==> #[trigger] pool@[j] == j,
        decreases nranges - k,
    {
        pool.push(k);
        k = k + 1;
    }
    proof {
        assert(pool@ =~= pool_after(nr, draws@, 0));
    }
    let mut ranges: Vec<Range<usize>> = Vec::new();
    let ghost mut taken: Seq<usize> = Seq::empty();
    let mut i: usize = 0;
    while i < nranges
        invariant
            i <= nranges,
            nranges * rm_items <= n + rm_items - 1,
            nranges == range_count(n as nat, rm_items as nat),
            rm_items > 0,
            n + rm_items <= usize::MAX,
            pool@.len() + taken.len() == nranges,
            taken.len() == i,
            ranges@.len() == i,
            forall|j: int| 0 <= j < pool@.len() ==> #[trigger] pool@[j] < nranges,
            forall|j: int| 0 <= j < taken.len() ==> #[trigger] taken[j] < nranges,
            forall|a: int, b: int| 0 <= a < b < pool@.len() ==> pool@[a] != pool@[b],
            forall|a: int, b: int| 0 <= a < b < taken.len() ==> taken[a] != taken[b],
            forall|a: int, b: int| 0 <= a < pool@.len() && 0 <= b < taken.len() ==> pool@[a] != taken[b],
            forall|j: int|
                0 <= j < i ==> (#[trigger] ranges@[j]).start == chunk(taken[j] as int, rm_items as int, n as int).0
                    && ranges@[j].end == chunk(taken[j] as int, rm_items as int, n as int).1,
            nr == nranges,
            valid_draws(draws@, nr),
            pool@ == pool_after(nr, draws@, i as nat),
            forall|j: int| 0 <= j < i ==> #[trigger] taken[j] == drawn(nr, draws@, j),
        decreases nranges - i,
    {
        let r = draws[i];
        let ghost p0 = pool@;
        let range_idx = pool.swap_remove(r);
        proof {
            assert(pool@ == pool_after(nr, draws@, (i + 1) as nat));
            assert(range_idx == drawn(nr, draws@, i as int));
        }
        proof {
            assert forall|j: int| 0 <= j < pool@.len() implies exists|a: int|
                0 <= a < p0.len() && a != r && #[trigger] pool@[j] == p0[a] by {
                if j == r {
                    assert(pool@[j] == p0[p0.len() - 1]);
                } else {
                    assert(pool@[j] == p0[j]);
                }
            }
            assert forall|a: int, b: int| 0 <= a < b < pool@.len() implies pool@[a] != pool@[b] by {
                if a == r {
                    assert(pool@[a] == p0[p0.len() - 1] && pool@[b] == p0[b]);
                } else if b == r {
                    assert(pool@[b] == p0[p0.len() - 1] && pool@[a] == p0[a]);
                } else {
                    assert(pool@[a] == p0[a] && pool@[b] == p0[b]);
                }
            }
        }
        proof {
            assert(range_idx == p0[r as int]);
            assert(range_idx < nranges);
            assert(range_idx * rm_items <= (nranges - 1) * rm_items) by (nonlinear_arith)
                requires
                    range_idx <= nranges - 1,
                    rm_items > 0,
            ;
            assert((nranges - 1) * rm_items == nranges * rm_items - rm_items) by (nonlinear_arith);
        }
        let from = range_idx * rm_items;
        let to = if from + rm_items < n {
            from + rm_items
        } else {
            n
        };
        ranges.push(from..to);
        proof {
            let t0 = taken;
            taken = taken.push(range_idx);
            assert forall|a: int, b: int| 0 <= a < b < taken.len() implies taken[a] != taken[b] by {
                if b == t0.len() {
                    assert(p0[r as int] == range_idx);
                    assert(p0[r as int] != t0[a]);
                }
            }
            assert forall|a: int, b: int| 0 <= a < pool@.len() && 0 <= b < taken.len() implies pool@[a]
                != taken[b] by {
                let a0 = choose|a0: int| 0 <= a0 < p0.len() && a0 != r && #[trigger] pool@[a] == p0[a0];
                if b < t0.len() {
                    assert(p0[a0] != t0[b]);
                } else {
                    assert(p0[a0] != p0[r as int]);
                }
            }
            assert forall|j: int| 0 <= j < pool@.len() implies #[trigger] pool@[j] < nranges by {
                let a0 = choose|a0: int| 0 <= a0 < p0.len() && a0 != r && #[trigger] pool@[j] == p0[a0];
            }
            assert forall|j: int| 0 <= j < i + 1 implies (#[trigger] ranges@[j]).start == chunk(
                taken[j] as int,
                rm_items as int,
                n as int,
            ).0 && ranges@[j].end == chunk(taken[j] as int, rm_items as int, n as int).1 by {
                if j < i {
                    assert(taken[j] == t0[j]);
                }
            }
            assert forall|j: int| 0 <= j < i + 1 implies #[trigger] taken[j] == drawn(nr, draws@, j) by {
                if j < i {
                    assert(taken[j] == t0[j]);
                }
            }
        }
        i = i + 1;
    }
    proof {
        assert forall|j: int| 0 <= j < ranges@.len() implies is_chunk(#[trigger] ranges@[j], rm_items as int, n as int) by {
            let c = taken[j] as int;
            assert(c < nranges);
            assert(0 <= c < range_count(n as nat, rm_items as nat) && ranges@[j].start == chunk(
                c,
                rm_items as int,
                n as int,
            ).0 && ranges@[j].end == chunk(c, rm_items as int, n as int).1);
        }
        assert forall|a: int, b: int|
            0 <= a < ranges@.len() && 0 <= b < ranges@.len() && a != b implies (#[trigger] ranges@[a]).start
                != (#[trigger] ranges@[b]).start by {
            let x = taken[a] as int;
            let y = taken[b] as int;
            assert(x != y);
            if x * (rm_items as int) == y * (rm_items as int) {
                assert(x == y) by (nonlinear_arith)
                    requires
                        x * (rm_items as int) == y * (rm_items as int),
                        rm_items > 0,
                ;
            }
        }
    }
    proof {
        assert forall|j: int| 0 <= j < ranges@.len() implies (#[trigger] ranges@[j]).start == drawn_range(
            n as int,
            rm_items as int,
            draws@,
            j,
        ).0 && ranges@[j].end == drawn_range(n as int, rm_items as int, draws@, j).1 by {
            assert(taken[j] == drawn(nr, draws@, j));
        }
    }
    ranges
}

/// Splits `0..n` into ranges of `rm_items` items (the last one may be shorter) and returns
/// them in random order: it draws, for the `i`-th range, a position below the number of
/// ranges left, and orders the ranges by those draws as `ranges_from_draws` does.
pub fn make_teardown_seq(n: usize, rm_items: usize, rng: &mut XorShiftRng) -> (ranges: Vec<Range<usize>>)
    requires
        rm_items > 0,
        n + rm_items <= usize::MAX,
    ensures
        exists|draws: Seq<usize>|
            valid_draws(draws, range_count(n as nat, rm_items as nat)) && #[trigger] drawn_ranges(
                n as int,
                rm_items as int,
                draws,
            ) == ranges@,
        ranges@.len() == range_count(n as nat, rm_items as nat),
        forall|i: int| 0 <= i < ranges@.len() ==> is_chunk(#[trigger] ranges@[i], rm_items as int, n as int),
        forall|i: int, j: int|
            0 <= i < ranges@.len() && 0 <= j < ranges@.len() && i != j ==> (#[trigger] ranges@[i]).start
                != (#[trigger] ranges@[j]).start,
{
    let nranges = n / rm_items + if n % rm_items != 0 {
        1
    } else {
        0
    };
    let mut draws: Vec<usize> = Vec::new();
    let mut i: usize = 0;
    while i < nranges
        invariant
            i <= nranges,
            draws@.len() == i,
            forall|j: int| 0 <= j < i ==> #[trigger] draws@[j] < nranges - j,
        decreases nranges - i,
    {
        let d = gen_range(rng, 0, nranges - i);
        draws.push(d);
        i = i + 1;
    }
    let ghost ds = draws@;
    let ranges = ranges_from_draws(n, rm_items, draws);
    proof {
        assert(drawn_ranges(n as int, rm_items as int, ds) =~= ranges@);
    }
    ranges
}

} // verus!
