use vstd::prelude::*;

use crate::build_iters::{lemma_depth_p2, lemma_p2_mono, p2};
use crate::node::Entry;
use crate::tree_repr::depth;
use crate::tree_spec::{all_none, is_desc, lemma_children, present};

verus! {

/// The height of a nearly complete tree of `n` entries: the number of its levels.
pub open spec fn build_height(n: nat) -> nat {
    if n == 0 {
        0
    } else {
        (depth(n - 1) + 1) as nat
    }
}

/// Every cell of the subtree at `i` above relative depth `h` holds an entry.
pub open spec fn full_to<K, V>(s: Seq<Option<Entry<K, V>>>, i: int, h: nat) -> bool
    decreases h,
{
    if h == 0 {
        true
    } else {
        present(s, i) && full_to(s, 2 * i + 1, (h - 1) as nat) && full_to(s, 2 * i + 2, (h - 1) as nat)
    }
}

/// No cell of the subtree at `i` at relative depth `h` or below holds an entry.
pub open spec fn empty_from<K, V>(s: Seq<Option<Entry<K, V>>>, i: int, h: nat) -> bool
    decreases h,
{
    if h == 0 {
        all_none(s, i)
    } else {
        empty_from(s, 2 * i + 1, (h - 1) as nat) && empty_from(s, 2 * i + 2, (h - 1) as nat)
    }
}

/// Every cell of the subtree at `i` above relative depth `h` lies in a storage of `len` cells.
pub open spec fn fits(len: int, i: int, h: nat) -> bool
    decreases h,
{
    if h == 0 {
        true
    } else {
        0 <= i < len && fits(len, 2 * i + 1, (h - 1) as nat) && fits(len, 2 * i + 2, (h - 1) as nat)
    }
}

/// The rightmost cell of the subtree at `i` at relative depth `k`.
pub open spec fn rightmost(i: int, k: nat) -> int
    decreases k,
{
    if k == 0 {
        i
    } else {
        rightmost(2 * i + 2, (k - 1) as nat)
    }
}

/// The rightmost cell at depth `k` below cell `i` is `(i + 2) 2^k - 2`.
pub proof fn lemma_rightmost(i: int, k: nat)
    ensures
        rightmost(i, k) == (i + 2) * p2(k) - 2,
    decreases k,
{
    if k > 0 {
        lemma_rightmost(2 * i + 2, (k - 1) as nat);
        let q = p2((k - 1) as nat);
        assert(p2(k) == 2 * q);
        assert((2 * i + 2 + 2) * q == (i + 2) * (2 * q)) by (nonlinear_arith);
    } else {
        assert(p2(0) == 1);
        assert((i + 2) * 1 == i + 2);
    }
}

/// The cells at a relative depth are ordered as their subtrees' roots.
pub proof fn lemma_rightmost_mono(a: int, b: int, k: nat)
    requires
        0 <= a < b,
    ensures
        a <= rightmost(a, k) < rightmost(b, k),
    decreases k,
{
    if k > 0 {
        lemma_rightmost_mono(2 * a + 2, 2 * b + 2, (k - 1) as nat);
        lemma_rightmost_mono(2 * a + 2, 2 * a + 3, (k - 1) as nat);
    }
}

/// A subtree fits down to relative depth `h` exactly when its rightmost cell at depth
/// `h - 1` lies in the storage.
pub proof fn lemma_fits_rightmost(len: int, i: int, h: nat)
    requires
        0 <= i,
        h >= 1,
    ensures
        fits(len, i, h) <==> rightmost(i, (h - 1) as nat) < len,
    decreases h,
{
    if h == 1 {
        assert(fits(len, 2 * i + 1, 0) && fits(len, 2 * i + 2, 0));
    } else {
        lemma_fits_rightmost(len, 2 * i + 1, (h - 1) as nat);
        lemma_fits_rightmost(len, 2 * i + 2, (h - 1) as nat);
        lemma_rightmost_mono(2 * i + 1, 2 * i + 2, (h - 2) as nat);
        lemma_rightmost_mono(i, 2 * i + 2, (h - 2) as nat);
    }
}

/// The shape of a subtree depends only on its own cells.
pub proof fn lemma_shape_frame<K, V>(s1: Seq<Option<Entry<K, V>>>, s2: Seq<Option<Entry<K, V>>>, i: int, h: nat)
    requires
        0 <= i,
        s1.len() == s2.len(),
        forall|j: int| 0 <= j < s1.len() && #[trigger] is_desc(j, i) ==> s1[j] == s2[j],
    ensures
        full_to(s1, i, h) == full_to(s2, i, h),
        empty_from(s1, i, h) == empty_from(s2, i, h),
    decreases h,
{
    lemma_children(i);
    assert(is_desc(i, i));
    if h == 0 {
        crate::tree_spec::lemma_frame(s1, s2, i);
    } else {
        lemma_shape_frame(s1, s2, 2 * i + 1, (h - 1) as nat);
        lemma_shape_frame(s1, s2, 2 * i + 2, (h - 1) as nat);
    }
}

/// The entries of a nearly complete tree of `n >= 1` entries: `2^(h-1) <= n < 2^h`.
pub proof fn lemma_build_height_bounds(n: nat)
    requires
        n >= 1,
    ensures
        build_height(n) >= 1,
        p2((build_height(n) - 1) as nat) <= n < p2(build_height(n)),
{
    lemma_depth_p2(n - 1);
}

/// Deeper rightmost cells have larger numbers.
pub proof fn lemma_rightmost_grow(i: int, a: nat, b: nat)
    requires
        0 <= i,
        a <= b,
    ensures
        rightmost(i, a) <= rightmost(i, b),
{
    lemma_rightmost(i, a);
    lemma_rightmost(i, b);
    lemma_p2_mono(a, b);
    assert((i + 2) * p2(a) <= (i + 2) * p2(b)) by (nonlinear_arith)
        requires
            i + 2 >= 0,
            p2(a) <= p2(b),
    ;
}

/// Whether every cell of the subtree at `idx` above relative depth `h` lies in a storage of
/// `len` cells: whether its rightmost cell at depth `h - 1` does.
pub fn subtree_fits(len: usize, idx: usize, h: usize) -> (r: bool)
    requires
        len < usize::MAX / 2,
    ensures
        r == fits(len as int, idx as int, h as nat),
{
    if h == 0 {
        return true;
    }
    proof {
        lemma_fits_rightmost(len as int, idx as int, h as nat);
    }
    if idx >= len {
        proof {
            lemma_rightmost_grow(idx as int, 0, (h - 1) as nat);
        }
        return false;
    }
    let mut rm = idx;
    let mut k: usize = 0;
    while k + 1 < h
        invariant
            rm == rightmost(idx as int, k as nat),
            rm < len,
            len < usize::MAX / 2,
            k < h,
            h >= 1,
            fits(len as int, idx as int, h as nat) <==> rightmost(idx as int, (h - 1) as nat) < len,
        decreases h - k,
    {
        let nxt = 2 * rm + 2;
        proof {
            lemma_rightmost_shift(idx as int, k as nat);
        }
        if nxt >= len {
            proof {
                lemma_rightmost_grow(idx as int, (k + 1) as nat, (h - 1) as nat);
            }
            return false;
        }
        rm = nxt;
        k = k + 1;
    }
    true
}

/// One level deeper, the rightmost cell is the right child of the rightmost cell.
pub proof fn lemma_rightmost_shift(i: int, k: nat)
    ensures
        rightmost(i, k + 1) == 2 * rightmost(i, k) + 2,
    decreases k,
{
    assert(rightmost(i, k + 1) == rightmost(2 * i + 2, k));
    if k > 0 {
        lemma_rightmost_shift(2 * i + 2, (k - 1) as nat);
        assert(rightmost(i, k) == rightmost(2 * i + 2, (k - 1) as nat));
    } else {
        assert(rightmost(2 * i + 2, 0) == 2 * i + 2);
    }
}

/// The leftmost cell of the subtree at `i` at relative depth `k`.
pub open spec fn leftmost(i: int, k: nat) -> int
    decreases k,
{
    if k == 0 {
        i
    } else {
        leftmost(2 * i + 1, (k - 1) as nat)
    }
}

/// The leftmost cell at depth `k` below cell `i` is `(i + 1) 2^k - 1`.
pub proof fn lemma_leftmost(i: int, k: nat)
    ensures
        leftmost(i, k) == (i + 1) * p2(k) - 1,
    decreases k,
{
    if k > 0 {
        lemma_leftmost(2 * i + 1, (k - 1) as nat);
        let q = p2((k - 1) as nat);
        assert(p2(k) == 2 * q);
        assert((2 * i + 1 + 1) * q == (i + 1) * (2 * q)) by (nonlinear_arith);
    } else {
        assert(p2(0) == 1);
        assert((i + 1) * 1 == i + 1);
    }
}

/// A subtree whose cells at relative depth `h` lie beyond the storage is empty from there.
pub proof fn lemma_empty_beyond<K, V>(s: Seq<Option<Entry<K, V>>>, i: int, h: nat)
    requires
        0 <= i,
        leftmost(i, h) >= s.len(),
    ensures
        empty_from(s, i, h),
    decreases h,
{
    if h > 0 {
        lemma_leftmost(2 * i + 1, (h - 1) as nat);
        lemma_leftmost(2 * i + 2, (h - 1) as nat);
        lemma_p2_mono(0, (h - 1) as nat);
        assert((2 * i + 2 + 1) * p2((h - 1) as nat) >= (2 * i + 1 + 1) * p2((h - 1) as nat)) by (nonlinear_arith)
            requires
                p2((h - 1) as nat) >= 1,
        ;
        lemma_empty_beyond(s, 2 * i + 1, (h - 1) as nat);
        lemma_empty_beyond(s, 2 * i + 2, (h - 1) as nat);
    }
}

/// A storage whose every cell holds an entry fills every subtree that fits in it.
pub proof fn lemma_full_fits<K, V>(s: Seq<Option<Entry<K, V>>>, i: int, h: nat)
    requires
        0 <= i,
        fits(s.len() as int, i, h),
        forall|j: int| 0 <= j < s.len() ==> (#[trigger] s[j]) is Some,
    ensures
        full_to(s, i, h),
    decreases h,
{
    if h > 0 {
        lemma_full_fits(s, 2 * i + 1, (h - 1) as nat);
        lemma_full_fits(s, 2 * i + 2, (h - 1) as nat);
    }
}

/// A storage of `n` cells, all holding entries, holds a nearly complete tree of height
/// `build_height(n)`: every level above the last is full, and nothing lies below.
pub proof fn lemma_complete_shape<K, V>(s: Seq<Option<Entry<K, V>>>)
    requires
        forall|j: int| 0 <= j < s.len() ==> (#[trigger] s[j]) is Some,
    ensures
        s.len() > 0 ==> full_to(s, 0, (build_height(s.len()) - 1) as nat),
        empty_from(s, 0, build_height(s.len())),
{
    let n = s.len();
    if n == 0 {
        assert(all_none(s, 0));
    } else {
        lemma_build_height_bounds(n);
        let hh = build_height(n);
        lemma_leftmost(0, hh);
        lemma_empty_beyond(s, 0, hh);
        if hh >= 2 {
            lemma_rightmost(0, (hh - 2) as nat);
            lemma_fits_rightmost(n as int, 0, (hh - 1) as nat);
            lemma_full_fits(s, 0, (hh - 1) as nat);
        }
    }
}

/// The walk over the bottom-level slots of a nearly complete tree that spreads `m` leaves
/// with gaps between them: after `s` slots, the number of leaves placed, the gap still to
/// skip, and how many of the longer gaps are left.  A slot with no gap left takes a leaf and
/// opens a gap of `fg` slots, one more while longer gaps are left; a slot inside a gap stays
/// empty.  Once `m` leaves are placed the walk stops.
pub open spec fn gap_state(m: nat, fg: nat, rem: nat, s: nat) -> (nat, nat, nat)
    decreases s,
{
    if s == 0 {
        (0, 0, rem)
    } else {
        let (p, g, r) = gap_state(m, fg, rem, (s - 1) as nat);
        if p >= m {
            (p, g, r)
        } else if g == 0 {
            (p + 1, fg + if r > 0 { 1nat } else { 0nat }, if r > 0 { (r - 1) as nat } else { 0 })
        } else {
            (p, (g - 1) as nat, r)
        }
    }
}

/// Slot `s` of the bottom level takes a leaf.
pub open spec fn gap_filled(m: nat, fg: nat, rem: nat, s: nat) -> bool {
    gap_state(m, fg, rem, s).0 < m && gap_state(m, fg, rem, s).1 == 0
}

/// The leaves of a nearly complete tree of `n` entries and height `h`: `n` less the full
/// levels above the bottom.
pub open spec fn spread_leaves(n: nat) -> nat {
    (n - (p2((build_height(n) - 1) as nat) - 1)) as nat
}

/// Slot `s` of the bottom level of a nearly complete tree of `n >= 1` entries holds a leaf:
/// the empty slots are spread as evenly as they divide among the leaves, the first gaps one
/// longer.
pub open spec fn spread_filled(n: nat, s: nat) -> bool {
    let m = spread_leaves(n);
    let nils = (p2((build_height(n) - 1) as nat) - m) as nat;
    gap_filled(m, nils / m, nils % m, s)
}

/// The slot of the `k`-th leaf.
pub open spec fn leaf_slot(fg: nat, rem: nat, k: nat) -> nat {
    k * (fg + 1) + if k < rem { k } else { rem }
}

/// Inside a gap, the walk only counts the gap down.
proof fn lemma_gap_skip(m: nat, fg: nat, rem: nat, s: nat, j: nat)
    requires
        gap_state(m, fg, rem, s).0 < m,
        j <= gap_state(m, fg, rem, s).1,
    ensures
        gap_state(m, fg, rem, s + j) == (
            gap_state(m, fg, rem, s).0,
            (gap_state(m, fg, rem, s).1 - j) as nat,
            gap_state(m, fg, rem, s).2,
        ),
    decreases j,
{
    if j > 0 {
        lemma_gap_skip(m, fg, rem, s, (j - 1) as nat);
        assert(gap_state(m, fg, rem, s + j) == {
            let (p, g, r) = gap_state(m, fg, rem, (s + j - 1) as nat);
            if p >= m {
                (p, g, r)
            } else if g == 0 {
                (p + 1, fg + if r > 0 { 1nat } else { 0nat }, if r > 0 { (r - 1) as nat } else { 0 })
            } else {
                (p, (g - 1) as nat, r)
            }
        });
    }
}

/// The walk reaches the slot of the `k`-th leaf with `k` leaves placed and no gap left.
proof fn lemma_gap_leaf(m: nat, fg: nat, rem: nat, k: nat)
    requires
        k < m,
        rem < m,
    ensures
        gap_state(m, fg, rem, leaf_slot(fg, rem, k)) == (k, 0nat, (rem - if k < rem { k } else { rem }) as nat),
    decreases k,
{
    if k > 0 {
        let k0 = (k - 1) as nat;
        lemma_gap_leaf(m, fg, rem, k0);
        let s0 = leaf_slot(fg, rem, k0);
        let r0 = (rem - if k0 < rem { k0 } else { rem }) as nat;
        let g0 = fg + if r0 > 0 { 1nat } else { 0nat };
        assert(gap_state(m, fg, rem, s0 + 1) == (k, g0, if r0 > 0 { (r0 - 1) as nat } else { 0 }));
        lemma_gap_skip(m, fg, rem, s0 + 1, g0);
        assert(k * (fg + 1) == k0 * (fg + 1) + fg + 1) by (nonlinear_arith)
            requires
                k == k0 + 1,
        ;
        assert(leaf_slot(fg, rem, k) == s0 + 1 + g0);
    }
}

/// Once all leaves are placed the walk stays put.
proof fn lemma_gap_done(m: nat, fg: nat, rem: nat, s: nat, t: nat)
    requires
        gap_state(m, fg, rem, s).0 >= m,
        s <= t,
    ensures
        gap_state(m, fg, rem, t) == gap_state(m, fg, rem, s),
    decreases t - s,
{
    if s < t {
        lemma_gap_done(m, fg, rem, s, (t - 1) as nat);
    }
}

/// The leaves placed grow by one at a filled slot and stay otherwise.
pub proof fn lemma_gap_step(m: nat, fg: nat, rem: nat, s: nat)
    ensures
        gap_state(m, fg, rem, s + 1).0 == gap_state(m, fg, rem, s).0 + if gap_filled(m, fg, rem, s) {
            1nat
        } else {
            0nat
        },
{
    assert(gap_state(m, fg, rem, s + 1) == {
        let (p, g, r) = gap_state(m, fg, rem, s);
        if p >= m {
            (p, g, r)
        } else if g == 0 {
            (p + 1, fg + if r > 0 { 1nat } else { 0nat }, if r > 0 { (r - 1) as nat } else { 0 })
        } else {
            (p, (g - 1) as nat, r)
        }
    });
}

/// With `m >= 1` leaves and `nils = m fg + rem` empty slots, the walk places every leaf
/// within the `m + nils` slots.
pub proof fn lemma_gap_all(m: nat, fg: nat, rem: nat)
    requires
        m >= 1,
        rem < m,
    ensures
        gap_state(m, fg, rem, m * fg + rem + m).0 == m,
{
    let k = (m - 1) as nat;
    lemma_gap_leaf(m, fg, rem, k);
    let s = leaf_slot(fg, rem, k);
    lemma_gap_step(m, fg, rem, s);
    assert(k * (fg + 1) + fg + 1 == m * (fg + 1)) by (nonlinear_arith)
        requires
            k + 1 == m,
    ;
    assert(m * (fg + 1) == m * fg + m) by (nonlinear_arith);
    lemma_gap_done(m, fg, rem, s + 1, m * fg + rem + m);
}

/// The leaves placed only grow along the walk.
pub proof fn lemma_gap_count_mono(m: nat, fg: nat, rem: nat, a: nat, b: nat)
    requires
        a <= b,
    ensures
        gap_state(m, fg, rem, a).0 <= gap_state(m, fg, rem, b).0,
    decreases b - a,
{
    if a < b {
        lemma_gap_count_mono(m, fg, rem, a, (b - 1) as nat);
        lemma_gap_step(m, fg, rem, (b - 1) as nat);
    }
}

/// At most one leaf is placed per slot.
pub proof fn lemma_gap_count_bound(m: nat, fg: nat, rem: nat, a: nat, k: nat)
    ensures
        gap_state(m, fg, rem, a + k).0 <= gap_state(m, fg, rem, a).0 + k,
    decreases k,
{
    if k > 0 {
        lemma_gap_count_bound(m, fg, rem, a, (k - 1) as nat);
        lemma_gap_step(m, fg, rem, (a + k - 1) as nat);
    }
}

/// The cells of the subtree at `i` at relative depth `k` are `leftmost(i, k) + j` for
/// `j < 2^k`.
pub proof fn lemma_bottom_desc(i: int, k: nat, j: int)
    requires
        0 <= i,
        0 <= j < p2(k),
    ensures
        is_desc(leftmost(i, k) + j, i),
    decreases k,
{
    if k == 0 {
        assert(p2(0) == 1);
        assert(is_desc(i, i));
    } else {
        let h = p2((k - 1) as nat);
        assert(p2(k) == 2 * h);
        lemma_children(i);
        lemma_leftmost(2 * i + 1, (k - 1) as nat);
        lemma_leftmost(2 * i + 2, (k - 1) as nat);
        if j < h {
            lemma_bottom_desc(2 * i + 1, (k - 1) as nat, j);
        } else {
            assert(leftmost(2 * i + 1, (k - 1) as nat) + j == leftmost(2 * i + 2, (k - 1) as nat) + (j - h))
                by (nonlinear_arith)
                requires
                    leftmost(2 * i + 1, (k - 1) as nat) == (2 * i + 1 + 1) * h - 1,
                    leftmost(2 * i + 2, (k - 1) as nat) == (2 * i + 2 + 1) * h - 1,
            ;
            lemma_bottom_desc(2 * i + 2, (k - 1) as nat, j - h);
        }
    }
}

/// One step of the walk, spelled out.
pub proof fn lemma_gap_next(m: nat, fg: nat, rem: nat, s: nat)
    ensures
        ({
            let a = gap_state(m, fg, rem, s);
            let b = gap_state(m, fg, rem, s + 1);
            if a.0 >= m {
                b == a
            } else if a.1 == 0 {
                b.0 == a.0 + 1 && b.1 == fg + (if a.2 > 0 { 1nat } else { 0nat }) && b.2 == (if a.2 > 0 {
                    (a.2 - 1) as nat
                } else {
                    0nat
                })
            } else {
                b.0 == a.0 && b.1 == a.1 - 1 && b.2 == a.2
            }
        }),
{
    assert(gap_state(m, fg, rem, s + 1) == {
        let (p, g, r) = gap_state(m, fg, rem, s);
        if p >= m {
            (p, g, r)
        } else if g == 0 {
            (p + 1, fg + if r > 0 { 1nat } else { 0nat }, if r > 0 { (r - 1) as nat } else { 0 })
        } else {
            (p, (g - 1) as nat, r)
        }
    });
}

} // verus!
