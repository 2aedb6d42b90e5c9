use vstd::prelude::*;

use crate::bulk_delete::{lemma_entries_of_items, lemma_items_of_entries, pairs};
use crate::interval_tree::lemma_all_none_desc;
use crate::key::Key;
use crate::node::{erank, Entry};
use crate::tree_building::{popped, to_entries};
use crate::tree_repr::{depth_of, lefti, righti, TreeRepr};
use crate::build_iters::{lemma_p2_mono, p2};
use crate::layout::{
    build_height, empty_from, fits, full_to, gap_filled, gap_state, lemma_bottom_desc, lemma_build_height_bounds,
    lemma_fits_rightmost, lemma_gap_all, lemma_gap_count_bound, lemma_gap_count_mono, lemma_gap_next, lemma_gap_step, lemma_leftmost,
    lemma_rightmost, lemma_shape_frame, leftmost, spread_filled, spread_leaves, subtree_fits,
};
use crate::tree_repr::depth;
use crate::tree_spec::same_outside;
use crate::tree_spec::{
    all_none, cell_measure, clean, entries_le, inorder, is_desc, lemma_children, lemma_decompose, lemma_desc_nested,
    lemma_desc_split, lemma_desc_trans, lemma_frame, lemma_replace_subtree, lemma_sorted_join, lemma_sorted_parts,
    path_measure, path_present, prefix, present, sorted_entries, suffix,
};

verus! {

/// The entries before (after) the subtree of `i` within the subtree of `a` are those before
/// (after) the subtree of `r`, where `r` lies between them, and those before (after) `i`
/// within `r`.
pub proof fn lemma_prefix_compose<K, V>(s: Seq<Option<Entry<K, V>>>, a: int, r: int, i: int)
    requires
        0 <= a,
        is_desc(r, a),
        is_desc(i, r),
    ensures
        prefix(s, a, i) == prefix(s, a, r) + prefix(s, r, i),
        suffix(s, a, i) == suffix(s, r, i) + suffix(s, a, r),
    decreases path_measure(a, r),
{
    crate::tree_spec::lemma_desc_trans(i, r, a);
    if a == r {
        assert(prefix(s, a, r) == Seq::<Entry<K, V>>::empty());
        assert(suffix(s, a, r) == Seq::<Entry<K, V>>::empty());
        assert(prefix(s, a, i) =~= prefix(s, a, r) + prefix(s, r, i));
        assert(suffix(s, a, i) =~= suffix(s, r, i) + suffix(s, a, r));
    } else {
        assert(a < r);
        lemma_desc_split(r, a);
        lemma_children(a);
        let c = if is_desc(r, 2 * a + 1) { 2 * a + 1 } else { 2 * a + 2 };
        assert(is_desc(r, c));
        crate::tree_spec::lemma_desc_trans(i, r, c);
        assert(i > a) by {
            lemma_desc_nested(i, a, r);
            if i == a {
                assert(is_desc(r, i));
                assert(r <= i);
            }
        }
        lemma_prefix_compose(s, c, r, i);
        if c == 2 * a + 1 {
            assert(is_desc(i, 2 * a + 1));
        } else {
            assert(!is_desc(r, 2 * a + 1));
            assert(!is_desc(i, 2 * a + 1));
            assert(prefix(s, a, i) =~= prefix(s, a, r) + prefix(s, r, i));
        }
        assert(prefix(s, a, i) =~= prefix(s, a, r) + prefix(s, r, i));
        assert(suffix(s, a, i) =~= suffix(s, r, i) + suffix(s, a, r));
    }
}

/// A subtree whose every cell is empty is empty.
pub proof fn lemma_cells_none<K, V>(s: Seq<Option<Entry<K, V>>>, i: int)
    requires
        0 <= i,
        forall|j: int| 0 <= j < s.len() && #[trigger] is_desc(j, i) ==> s[j] is None,
    ensures
        all_none(s, i),
    decreases cell_measure(s.len() as int, i),
{
    if i < s.len() {
        assert(is_desc(i, i));
        lemma_children(i);
        lemma_cells_none(s, 2 * i + 1);
        lemma_cells_none(s, 2 * i + 2);
    }
}

impl<K: Key, V> TreeRepr<K, V> {
    /// Puts the last `cnt` pairs of `src`, the last one first, in order into the empty
    /// subtree at `idx` as a nearly complete tree of height `h`: every cell above the bottom
    /// level is filled, no cell below it is, and the empty cells of the bottom level are
    /// spread among its leaves as `spread_filled` says: a leaf, then a gap of `nils / m`
    /// empty slots, one more for the first `nils % m` gaps, where `m` is the number of leaves
    /// and `nils` the number of empty bottom slots.
    pub fn fill_count(data: &mut Vec<Option<Entry<K, V>>>, src: &mut Vec<(K, V)>, idx: usize, cnt: usize) -> (h:
        usize)
        requires
            old(data)@.len() < usize::MAX / 2,
            idx <= 2 * old(data)@.len(),
            forall|j: int| 0 <= j < old(data)@.len() && #[trigger] is_desc(j, idx as int) ==> old(data)@[j] is None,
            fits(old(data)@.len() as int, idx as int, build_height(cnt as nat)),
            old(src)@.len() >= cnt,
        ensures
            final(data)@.len() == old(data)@.len(),
            crate::tree_spec::same_outside(old(data)@, final(data)@, idx as int),
            final(src)@ == old(src)@.take(old(src)@.len() - cnt),
            inorder(final(data)@, idx as int) == to_entries(popped(old(src)@, cnt as int)),
            clean(final(data)@, idx as int),
            h == build_height(cnt as nat),
            h >= 1 ==> full_to(final(data)@, idx as int, (h - 1) as nat),
            empty_from(final(data)@, idx as int, h as nat),
            h >= 1 ==> forall|j: int|
                0 <= j < p2((h - 1) as nat) ==> #[trigger] present(final(data)@, leftmost(idx as int, (h - 1) as nat) + j)
                    == spread_filled(cnt as nat, j as nat),
    {
        let ghost s0 = data@;
        let ghost src0 = src@;
        let ghost i = idx as int;
        if cnt == 0 {
            proof {
                assert(src0.take(src0.len() as int) =~= src0);
                assert(popped(src0, 0) =~= Seq::<(K, V)>::empty());
                lemma_cells_none(s0, i);
                crate::tree_spec::lemma_all_none(s0, i);
                assert(to_entries(popped(src0, 0)) =~= Seq::<Entry<K, V>>::empty());
            }
            return 0;
        }
        let ghost hh = build_height(cnt as nat);
        proof {
            lemma_build_height_bounds(cnt as nat);
        }
        let h = depth_of(cnt - 1) + 1;
        // the number of bottom slots: 2^(h-1)
        let mut span: usize = 1;
        let mut k: usize = 0;
        while k + 1 < h
            invariant
                k + 1 <= h,
                h == hh,
                span == p2(k as nat),
                p2((hh - 1) as nat) <= cnt,
            decreases h - k,
        {
            proof {
                lemma_p2_mono((k + 1) as nat, (hh - 1) as nat);
            }
            span = span * 2;
            k = k + 1;
        }
        let m = cnt - (span - 1);
        let nils = span - m;
        let fg = nils / m;
        let rem = nils % m;
        proof {
            assert(m == spread_leaves(cnt as nat));
            assert(nils == m * fg + rem) by (nonlinear_arith)
                requires
                    fg == nils / m,
                    rem == nils % m,
                    m > 0,
            ;
            lemma_gap_all(m as nat, fg as nat, rem as nat);
            assert(m * fg + rem + m == span);
        }
        // the leaves placed before each bottom slot
        let mut pre: Vec<usize> = Vec::new();
        pre.push(0);
        let mut s: usize = 0;
        let mut pl: usize = 0;
        let mut gap: usize = 0;
        let mut r: usize = rem;
        while s < span
            invariant
                s <= span,
                span <= cnt,
                m <= cnt,
                fg <= nils,
                nils < span,
                rem < m,
                (pl as nat, gap as nat, r as nat) == gap_state(m as nat, fg as nat, rem as nat, s as nat),
                pl <= m,
                gap <= fg + 1,
                pre@.len() == s + 1,
                forall|x: int| 0 <= x <= s ==> #[trigger] pre@[x] == gap_state(m as nat, fg as nat, rem as nat, x as nat).0,
            decreases span - s,
        {
            proof {
                lemma_gap_next(m as nat, fg as nat, rem as nat, s as nat);
            }
            if pl >= m {
            } else if gap == 0 {
                pl = pl + 1;
                if r > 0 {
                    gap = fg + 1;
                    r = r - 1;
                } else {
                    gap = fg;
                }
            } else {
                gap = gap - 1;
            }
            pre.push(pl);
            s = s + 1;
        }
        proof {
            assert(pre@[span as int] == m);
            assert(pre@[0] == 0);
            assert(span == p2((hh - 1) as nat));
        }
        Self::fill_spread(
            data,
            src,
            idx,
            span,
            0,
            &pre,
            cnt,
            Ghost((hh - 1) as nat),
            Ghost(m as nat),
            Ghost(fg as nat),
            Ghost(rem as nat),
        );
        h
    }

    /// Fills the empty subtree at `idx`, whose bottom level holds the `span` slots from `lo`
    /// of the whole bottom level, with the last `cnt` pairs of `src`: every cell above its
    /// bottom level, and the bottom slots that the gap walk fills.  `pre` counts the leaves
    /// the walk has placed before each slot.
    #[verifier::rlimit(40)]
    #[verifier::spinoff_prover]
    fn fill_spread(
        data: &mut Vec<Option<Entry<K, V>>>,
        src: &mut Vec<(K, V)>,
        idx: usize,
        span: usize,
        lo: usize,
        pre: &Vec<usize>,
        cnt: usize,
        Ghost(d): Ghost<nat>,
        Ghost(m): Ghost<nat>,
        Ghost(fg): Ghost<nat>,
        Ghost(rem): Ghost<nat>,
    )
        requires
            old(data)@.len() < usize::MAX / 2,
            span == p2(d),
            lo + span < pre@.len(),
            pre@.len() <= usize::MAX,
            forall|x: int| 0 <= x < pre@.len() ==> #[trigger] pre@[x] == gap_state(m, fg, rem, x as nat).0,
            cnt == span - 1 + pre@[lo + span] - pre@[lo as int],
            fits(old(data)@.len() as int, idx as int, d + 1),
            forall|j: int| 0 <= j < old(data)@.len() && #[trigger] is_desc(j, idx as int) ==> old(data)@[j] is None,
            old(src)@.len() >= cnt,
        ensures
            final(data)@.len() == old(data)@.len(),
            crate::tree_spec::same_outside(old(data)@, final(data)@, idx as int),
            final(src)@ == old(src)@.take(old(src)@.len() - cnt),
            inorder(final(data)@, idx as int) == to_entries(popped(old(src)@, cnt as int)),
            clean(final(data)@, idx as int),
            full_to(final(data)@, idx as int, d),
            empty_from(final(data)@, idx as int, d + 1),
            forall|j: int|
                0 <= j < span ==> #[trigger] present(final(data)@, leftmost(idx as int, d) + j) == gap_filled(
                    m,
                    fg,
                    rem,
                    (lo + j) as nat,
                ),
        decreases span,
    {
        let ghost s0 = data@;
        let ghost src0 = src@;
        let ghost i = idx as int;
        let ghost n = s0.len() as int;
        proof {
            lemma_children(i);
            assert(is_desc(i, i));
        }
        if span == 1 {
            proof {
                assert(d == 0) by {
                    if d > 0 {
                        lemma_p2_mono(1, d);
                        assert(p2(1) == 2);
                    }
                }
                lemma_gap_step(m, fg, rem, lo as nat);
                assert forall|j: int| 0 <= j < n && #[trigger] is_desc(j, 2 * i + 1) implies s0[j] is None by {
                }
                assert forall|j: int| 0 <= j < n && #[trigger] is_desc(j, 2 * i + 2) implies s0[j] is None by {
                }
                lemma_cells_none(s0, 2 * i + 1);
                lemma_cells_none(s0, 2 * i + 2);
                crate::tree_spec::lemma_all_none(s0, 2 * i + 1);
                crate::tree_spec::lemma_all_none(s0, 2 * i + 2);
            }
            if cnt == 1 {
                let item = src.pop().unwrap();
                data.set(idx, Some(Entry::from_tuple(item)));
                proof {
                    let s1 = data@;
                    assert forall|j: int| 0 <= j < n && #[trigger] is_desc(j, 2 * i + 1) implies s0[j] == s1[j] by {
                        assert(j > i);
                    }
                    assert forall|j: int| 0 <= j < n && #[trigger] is_desc(j, 2 * i + 2) implies s0[j] == s1[j] by {
                        assert(j > i);
                    }
                    crate::tree_spec::lemma_frame(s0, s1, 2 * i + 1);
                    crate::tree_spec::lemma_frame(s0, s1, 2 * i + 2);
                    lemma_shape_frame(s0, s1, 2 * i + 1, 0);
                    lemma_shape_frame(s0, s1, 2 * i + 2, 0);
                    assert(src@ =~= src0.take(src0.len() - 1));
                    assert(to_entries(popped(src0, 1)) =~= seq![Entry { item: src0[src0.len() - 1] }]);
                    assert(inorder(s1, i) =~= Seq::<Entry<K, V>>::empty() + seq![s1[i].unwrap()]
                        + Seq::<Entry<K, V>>::empty());
                    assert(leftmost(i, 0) == i);
                    assert forall|j: int| 0 <= j < n && !#[trigger] is_desc(j, i) implies s0[j] == s1[j] by {
                    }
                    assert(empty_from(s1, 2 * i + 1, 0) && empty_from(s1, 2 * i + 2, 0));
                    assert(empty_from(s1, i, 1));
                }
            } else {
                proof {
                    assert(src0.take(src0.len() as int) =~= src0);
                    assert(popped(src0, 0) =~= Seq::<(K, V)>::empty());
                    lemma_cells_none(s0, i);
                    crate::tree_spec::lemma_all_none(s0, i);
                    assert(to_entries(popped(src0, 0)) =~= Seq::<Entry<K, V>>::empty());
                    assert(leftmost(i, 0) == i);
                    assert(empty_from(s0, 2 * i + 1, 0) && empty_from(s0, 2 * i + 2, 0));
                    assert(empty_from(s0, i, 1));
                }
            }
            return;
        }
        let ghost dd = (d - 1) as nat;
        proof {
            assert(d >= 1) by {
                if d == 0 {
                    assert(p2(0) == 1);
                }
            }
            assert(p2(d) == 2 * p2(dd));
            lemma_p2_mono(0, dd);
            lemma_gap_count_mono(m, fg, rem, lo as nat, (lo + span / 2) as nat);
            lemma_gap_count_mono(m, fg, rem, (lo + span / 2) as nat, (lo + span) as nat);
            lemma_gap_count_bound(m, fg, rem, lo as nat, (span / 2) as nat);
            lemma_gap_count_bound(m, fg, rem, (lo + span / 2) as nat, (span / 2) as nat);
        }
        let half = span / 2;
        let mid = lo + half;
        let cl = half - 1 + (pre[mid] - pre[lo]);
        let cr = cnt - 1 - cl;
        Self::fill_spread(data, src, lefti(idx), half, lo, pre, cl, Ghost(dd), Ghost(m), Ghost(fg), Ghost(rem));
        let ghost s1 = data@;
        let ghost src1 = src@;
        let item = src.pop().unwrap();
        data.set(idx, Some(Entry::from_tuple(item)));
        let ghost s2 = data@;
        let ghost src2 = src@;
        proof {
            assert forall|j: int| 0 <= j < n && #[trigger] is_desc(j, 2 * i + 2) implies s2[j] is None by {
                assert(!is_desc(j, 2 * i + 1));
                assert(j != i);
            }
        }
        Self::fill_spread(data, src, righti(idx), half, mid, pre, cr, Ghost(dd), Ghost(m), Ghost(fg), Ghost(rem));
        let ghost s3 = data@;
        proof {
            let c = cl + 1 + cr;
            assert(c == cnt);
            assert forall|j: int| 0 <= j < n && !#[trigger] is_desc(j, i) implies s0[j] == s3[j] by {
                assert(!is_desc(j, 2 * i + 1));
                assert(!is_desc(j, 2 * i + 2));
            }
            assert forall|j: int| 0 <= j < n && #[trigger] is_desc(j, 2 * i + 1) implies s1[j] == s3[j] by {
                assert(!is_desc(j, 2 * i + 2));
                assert(j != i);
            }
            lemma_frame(s1, s3, 2 * i + 1);
            lemma_shape_frame(s1, s3, 2 * i + 1, dd);
            lemma_shape_frame(s1, s3, 2 * i + 1, d);
            assert(s3[i] == Some(Entry { item: src0[src0.len() - 1 - cl] }));
            assert(src1 =~= src0.take(src0.len() - cl));
            assert(src@ =~= src0.take(src0.len() - c));
            assert(popped(src2, cr as int) =~= popped(src0, c).subrange(cl + 1, c));
            assert(popped(src0, cl as int) =~= popped(src0, c).subrange(0, cl as int));
            assert(to_entries(popped(src0, c)) =~= to_entries(popped(src0, cl as int)) + seq![
                Entry { item: src0[src0.len() - 1 - cl] },
            ] + to_entries(popped(src2, cr as int)));
            assert(full_to(s3, i, d));
            assert(empty_from(s3, i, d + 1));
            // the bottom slots
            lemma_leftmost(2 * i + 1, dd);
            lemma_leftmost(2 * i + 2, dd);
            assert(leftmost(i, d) == leftmost(2 * i + 1, dd));
            assert forall|j: int| 0 <= j < span implies #[trigger] present(s3, leftmost(i, d) + j) == gap_filled(
                m,
                fg,
                rem,
                (lo + j) as nat,
            ) by {
                if j < half {
                    lemma_bottom_desc(2 * i + 1, dd, j);
                    let c = leftmost(2 * i + 1, dd) + j;
                    assert(present(s1, c) == gap_filled(m, fg, rem, (lo + j) as nat));
                    if c < n {
                        assert(s1[c] == s3[c]);
                    }
                } else {
                    assert(present(s3, leftmost(2 * i + 2, dd) + (j - half)) == gap_filled(
                        m,
                        fg,
                        rem,
                        (mid + (j - half)) as nat,
                    ));
                    assert(leftmost(i, d) + j == leftmost(2 * i + 2, dd) + (j - half)) by (nonlinear_arith)
                        requires
                            leftmost(i, d) == leftmost(2 * i + 1, dd),
                            leftmost(2 * i + 1, dd) == (2 * i + 1 + 1) * p2(dd) - 1,
                            leftmost(2 * i + 2, dd) == (2 * i + 2 + 1) * p2(dd) - 1,
                            half == p2(dd),
                    ;
                }
            }
        }
    }
}


/// Putting an entry between the entries no greater and the entries no smaller than it keeps a
/// sorted sequence sorted.
pub proof fn lemma_insert_sorted<K: Key, V>(x: Seq<Entry<K, V>>, pos: int, e: Entry<K, V>)
    requires
        sorted_entries(x),
        0 <= pos <= x.len(),
        forall|j: int| 0 <= j < pos ==> erank(#[trigger] x[j]) <= erank(e),
        forall|j: int| pos <= j < x.len() ==> erank(e) <= erank(#[trigger] x[j]),
    ensures
        sorted_entries(x.insert(pos, e)),
{
    let y = x.insert(pos, e);
    assert forall|a: int, b: int| 0 <= a <= b < y.len() implies erank(#[trigger] y[a]) <= erank(#[trigger] y[b]) by {
        if a < pos && b < pos {
            assert(y[a] == x[a] && y[b] == x[b]);
        } else if a < pos && b == pos {
            assert(y[a] == x[a]);
        } else if a < pos {
            assert(y[a] == x[a] && y[b] == x[b - 1]);
        } else if a == pos && b > pos {
            assert(y[b] == x[b - 1]);
        } else if a > pos {
            assert(y[a] == x[a - 1] && y[b] == x[b - 1]);
        }
    }
}

impl<K: Key, V> TreeRepr<K, V> {
    /// Rebuilds the subtree at `root` from its entries and `item`, whose key lies between the
    /// entries before and after the empty cell `target` below `root`; the subtree has a cell
    /// for each of them.
    #[verifier::rlimit(50)]
    #[verifier::spinoff_prover]
    pub fn rebuild_subtree(&mut self, root: usize, target: usize, item: (K, V))
        requires
            old(self).wf(),
            is_desc(root as int, 0),
            is_desc(target as int, root as int),
            !present(old(self).data@, target as int),
            path_present(old(self).data@, 0, target as int),
            forall|a: int| 0 <= a < prefix(old(self).data@, 0, target as int).len()
                ==> erank(#[trigger] prefix(old(self).data@, 0, target as int)[a]) < item.0.rank(),
            forall|b: int| 0 <= b < suffix(old(self).data@, 0, target as int).len()
                ==> erank(#[trigger] suffix(old(self).data@, 0, target as int)[b]) > item.0.rank(),
            fits(
                old(self).data@.len() as int,
                root as int,
                build_height(inorder(old(self).data@, root as int).len() + 1),
            ),
        ensures
            final(self).wf(),
            final(self).data@.len() == old(self).data@.len(),
            exists|p: int| 0 <= p <= old(self)@.len() && final(self)@ == old(self)@.insert(p, Entry { item: item }),
            same_outside(old(self).data@, final(self).data@, root as int),
            full_to(
                final(self).data@,
                root as int,
                (build_height(inorder(old(self).data@, root as int).len() + 1) - 1) as nat,
            ),
            empty_from(final(self).data@, root as int, build_height(inorder(old(self).data@, root as int).len() + 1)),
            forall|j: int|
                0 <= j < p2((build_height(inorder(old(self).data@, root as int).len() + 1) - 1) as nat)
                    ==> #[trigger] present(
                    final(self).data@,
                    leftmost(root as int, (build_height(inorder(old(self).data@, root as int).len() + 1) - 1) as nat)
                        + j,
                ) == spread_filled(inorder(old(self).data@, root as int).len() + 1, j as nat),
    {
        let ghost s0 = self.data@;
        let ghost r = root as int;
        let ghost t = target as int;
        let ghost e = Entry { item: item };
        proof {
            crate::tree_building::lemma_inorder_len(s0, 0);
            assert forall|j: int| #[trigger] is_desc(j, 0) && is_desc(r, j) && j != r implies present(s0, j) by {
                lemma_desc_trans(t, r, j);
                assert(j < r);
            }
            assert forall|j: int| #[trigger] is_desc(j, r) && is_desc(t, j) && j != t implies present(s0, j) by {
                lemma_desc_trans(j, r, 0);
            }
            assert(r < s0.len()) by {
                lemma_build_height_bounds((inorder(s0, r).len() + 1) as nat);
            }
            lemma_replace_subtree(s0, s0, r);
            lemma_decompose(s0, r, t);
            lemma_prefix_compose(s0, 0, r, t);
            assert(inorder(s0, t) =~= Seq::<Entry<K, V>>::empty());
        }
        let ghost pre = prefix(s0, 0, r);
        let ghost suf = suffix(s0, 0, r);
        let ghost x = inorder(s0, r);
        proof {
            lemma_sorted_parts(pre, x, suf);
            assert forall|a: int| 0 <= a < pre.len() implies erank(#[trigger] pre[a]) < item.0.rank() by {
                assert(pre[a] == prefix(s0, 0, t)[a]);
            }
            assert forall|b: int| 0 <= b < suf.len() implies erank(#[trigger] suf[b]) > item.0.rank() by {
                assert(suf[b] == suffix(s0, 0, t)[suffix(s0, r, t).len() + b]);
            }
        }
        let mut all: Vec<(K, V)> = Vec::new();
        self.consume_subtree(&mut all, root);
        let ghost s1 = self.data@;
        proof {
            lemma_entries_of_items(x);
            assert(all@ =~= pairs(x));
        }
        let mut pos: usize = 0;
        while pos < all.len() && all[pos].0.key_lt(&item.0)
            invariant
                pos <= all@.len(),
                all@ == pairs(x),
                forall|j: int| 0 <= j < pos ==> (#[trigger] all@[j]).0.rank() < item.0.rank(),
            decreases all@.len() - pos,
        {
            pos = pos + 1;
        }
        proof {
            assert forall|j: int| 0 <= j < pos implies erank(#[trigger] x[j]) <= erank(e) by {
                assert(all@[j] == x[j].item);
            }
            assert forall|j: int| pos <= j < x.len() implies erank(e) <= erank(#[trigger] x[j]) by {
                assert(all@[pos as int] == x[pos as int].item);
                assert(erank(x[pos as int]) <= erank(x[j]));
            }
            lemma_insert_sorted(x, pos as int, e);
        }
        all.insert(pos, item);
        let ghost xs = all@;
        proof {
            lemma_items_of_entries(xs);
            assert(to_entries(xs) =~= x.insert(pos as int, e));
        }
        let n = all.len();
        let mut src: Vec<(K, V)> = Vec::new();
        while all.len() > 0
            invariant
                all@ == xs.take(all@.len() as int),
                src@ =~= popped(xs, (xs.len() - all@.len()) as int),
                all@.len() <= xs.len(),
                src@.len() == xs.len() - all@.len(),
            decreases all@.len(),
        {
            let y = all.pop().unwrap();
            src.push(y);
            proof {
                assert(all@ =~= xs.take(all@.len() as int));
            }
        }
        proof {
            assert forall|j: int| 0 <= j < s1.len() && #[trigger] is_desc(j, r) implies s1[j] is None by {
                lemma_all_none_desc(s1, r, j);
            }
        }
        let hb = Self::fill_count(&mut self.data, &mut src, root, n);
        let ghost s2 = self.data@;
        proof {
            assert(same_outside(s0, s2, r));
            assert(popped(popped(xs, n as int), n as int) =~= xs);
            assert(inorder(s2, r) == x.insert(pos as int, e));
            crate::tree_spec::lemma_outside(s0, s2, 0, r);
            lemma_replace_subtree(s0, s2, r);
            let xi = x.insert(pos as int, e);
            assert(entries_le(pre, xi)) by {
                assert forall|a: int, b: int| 0 <= a < pre.len() && 0 <= b < xi.len() implies erank(#[trigger] pre[a])
                    <= erank(#[trigger] xi[b]) by {
                    if b < pos {
                        assert(xi[b] == x[b]);
                    } else if b > pos {
                        assert(xi[b] == x[b - 1]);
                    }
                }
            }
            assert(entries_le(xi, suf)) by {
                assert forall|a: int, b: int| 0 <= a < xi.len() && 0 <= b < suf.len() implies erank(#[trigger] xi[a])
                    <= erank(#[trigger] suf[b]) by {
                    if a < pos {
                        assert(xi[a] == x[a]);
                    } else if a > pos {
                        assert(xi[a] == x[a - 1]);
                    }
                }
            }
            lemma_sorted_join(pre, xi, suf);
            assert(pre + xi + suf =~= (pre + x + suf).insert(pre.len() + pos, e));
            assert(self.size == old(self).size - x.len());
        }
        self.size = self.size + n;
        proof {
            let p = pre.len() + pos;
            assert(0 <= p <= old(self)@.len() && self@ == old(self)@.insert(p, Entry { item: item }));
        }
    }
}

/// Depths are not negative.
pub proof fn lemma_depth_nonneg(i: int)
    ensures
        crate::tree_repr::depth(i) >= 0,
    decreases i,
{
    if i > 0 {
        lemma_depth_nonneg((i - 1) / 2);
    }
}

/// The count of a complete subtree `k` levels above a target, doubled at each level and
/// held at its bound once that is passed.
pub open spec fn climb_count(k: nat) -> int
    decreases k,
{
    if k == 0 {
        0
    } else {
        let c = climb_count((k - 1) as nat);
        if c < 0x1000_0000_0000_0000 {
            2 * c + 1
        } else {
            c
        }
    }
}

/// A subtree rooted at `a`, `k` levels above the insertion point, with `cnt` entries
/// counting the new one, is sparse enough in a storage of `len` cells: near the bottom it
/// must not be fuller than a complete subtree; higher up the allowed density falls with the
/// depth.
pub open spec fn sparse_enough(len: int, a: int, k: nat, cnt: int) -> bool {
    let h = depth(len);
    let d = depth(a);
    let cc = climb_count(k);
    if h - depth(h) <= d + 1 {
        cnt <= cc
    } else {
        cnt * 2 * (h - 1) <= cc * (h - 1 + d)
    }
}

/// The subtree at `a` of the cells `s`, `k` levels above the insertion point, may be rebuilt
/// with one more entry: it is sparse enough and its storage holds a nearly complete tree of
/// its entries and the new one.
pub open spec fn rebuild_candidate<K, V>(s: Seq<Option<Entry<K, V>>>, a: int, k: nat) -> bool {
    let cnt = inorder(s, a).len() + 1;
    sparse_enough(s.len() as int, a, k, cnt as int) && fits(s.len() as int, a, build_height(cnt))
}

impl<K: Key, V> TreeRepr<K, V> {
    /// Makes room for `item`, whose place is the cell `target` beyond the storage: walks up
    /// from `target` to the first subtree that is sparse enough and whose storage holds a
    /// nearly complete tree of its entries and `item`, rebuilds that subtree and returns its
    /// root.  The root of the tree always qualifies, since the storage is at least twice as
    /// large as the tree with `item`.
    pub fn partial_rebuild(&mut self, target: usize, item: (K, V)) -> (r: usize)
        requires
            old(self).wf(),
            is_desc(target as int, 0),
            target >= old(self).data@.len(),
            target <= 2 * old(self).data@.len(),
            path_present(old(self).data@, 0, target as int),
            forall|a: int| 0 <= a < prefix(old(self).data@, 0, target as int).len()
                ==> erank(#[trigger] prefix(old(self).data@, 0, target as int)[a]) < item.0.rank(),
            forall|b: int| 0 <= b < suffix(old(self).data@, 0, target as int).len()
                ==> erank(#[trigger] suffix(old(self).data@, 0, target as int)[b]) > item.0.rank(),
            2 * (old(self).size + 1) <= old(self).data@.len(),
        ensures
            final(self).wf(),
            final(self).data@.len() == old(self).data@.len(),
            exists|p: int| 0 <= p <= old(self)@.len() && final(self)@ == old(self)@.insert(p, Entry { item: item }),
            is_desc(target as int, r as int),
            r < target,
            same_outside(old(self).data@, final(self).data@, r as int),
            full_to(
                final(self).data@,
                r as int,
                (build_height(inorder(old(self).data@, r as int).len() + 1) - 1) as nat,
            ),
            empty_from(final(self).data@, r as int, build_height(inorder(old(self).data@, r as int).len() + 1)),
            forall|j: int|
                0 <= j < p2((build_height(inorder(old(self).data@, r as int).len() + 1) - 1) as nat) ==> #[trigger] present(
                    final(self).data@,
                    leftmost(r as int, (build_height(inorder(old(self).data@, r as int).len() + 1) - 1) as nat) + j,
                ) == spread_filled(inorder(old(self).data@, r as int).len() + 1, j as nat),
            r == 0 || rebuild_candidate(old(self).data@, r as int, (depth(target as int) - depth(r as int)) as nat),
            forall|a: int|
                #[trigger] is_desc(target as int, a) && is_desc(a, r as int) && a != r && a != target
                    ==> !rebuild_candidate(old(self).data@, a, (depth(target as int) - depth(a)) as nat),
    {
        let len = self.data.len();
        let h = depth_of(len);
        proof {
            assert(depth(len as int) == depth((len - 1) / 2) + 1);
            assert(depth((len - 1) / 2) >= 0) by {
                lemma_depth_nonneg((len - 1) / 2);
            }
        }
        let full_rebuild_depth = h - depth_of(h);
        let mut idx = target;
        let mut complete_count: u128 = 0;
        let ghost mut k: nat = 0;
        let ghost s = self.data@;
        let ghost t = target as int;
        loop
            invariant
                self == old(self),
                s == self.data@,
                self.wf(),
                len == self.data@.len(),
                2 * (self.size + 1) <= len,
                1 <= h <= len,
                h == depth(len as int),
                full_rebuild_depth == h - depth(h as int),
                idx <= target,
                len <= target <= 2 * len,
                t == target,
                path_present(self.data@, 0, target as int),
                forall|a: int| 0 <= a < prefix(self.data@, 0, target as int).len()
                    ==> erank(#[trigger] prefix(self.data@, 0, target as int)[a]) < item.0.rank(),
                forall|b: int| 0 <= b < suffix(self.data@, 0, target as int).len()
                    ==> erank(#[trigger] suffix(self.data@, 0, target as int)[b]) > item.0.rank(),
                idx > 0,
                is_desc(t, idx as int),
                k == depth(t) - depth(idx as int),
                complete_count == climb_count(k),
                complete_count <= 0x2000_0000_0000_0000u128,
                forall|a: int|
                    #[trigger] is_desc(t, a) && is_desc(a, idx as int) && a != t ==> !rebuild_candidate(
                        s,
                        a,
                        (depth(t) - depth(a)) as nat,
                    ),
            decreases idx,
        {
            let ghost child = idx as int;
            let parent = (idx - 1) / 2;
            proof {
                assert(is_desc(parent as int, parent as int));
                assert(is_desc(idx as int, parent as int));
                lemma_desc_trans(t, idx as int, parent as int);
                crate::tree_building::lemma_desc_root(parent as int);
                assert(depth(idx as int) == depth(parent as int) + 1);
            }
            idx = parent;
            if complete_count < 0x1000_0000_0000_0000u128 {
                complete_count = 2 * complete_count + 1;
            }
            proof {
                k = k + 1;
            }
            let d = depth_of(idx);
            proof {
                crate::tree_building::lemma_inorder_len(self.data@, idx as int);
            }
            let count = self.count_nodes(idx) + 1;
            let height = depth_of(count - 1) + 1;
            let fit = subtree_fits(len, idx, height);
            let cnt = count as u128;
            let hh = (h - 1) as u128;
            let dd = d as u128;
            proof {
                assert(cnt * 2 * hh <= 0x8000_0000_0000_0000u128 * 2 * 0x8000_0000_0000_0000u128) by (nonlinear_arith)
                    requires
                        cnt <= 0x8000_0000_0000_0000u128,
                        hh <= 0x8000_0000_0000_0000u128,
                ;
                assert(complete_count * (hh + dd) <= 0x2000_0000_0000_0000u128 * 0x3_0000_0000_0000_0000u128)
                    by (nonlinear_arith)
                    requires
                        complete_count <= 0x2000_0000_0000_0000u128,
                        hh + dd <= 0x3_0000_0000_0000_0000u128,
                ;
            }
            let balanced = if full_rebuild_depth <= d + 1 {
                cnt <= complete_count
            } else {
                cnt * 2 * hh <= complete_count * (hh + dd)
            };
            proof {
                assert(balanced == sparse_enough(len as int, idx as int, k, count as int));
                assert(fit && balanced <==> rebuild_candidate(s, idx as int, k));
                // the subtrees between the target and this cell did not qualify
                assert forall|a: int|
                    #[trigger] is_desc(t, a) && is_desc(a, parent as int) && a != parent && a != t implies !rebuild_candidate(
                    s,
                    a,
                    (depth(t) - depth(a)) as nat,
                ) by {
                    lemma_between(t, a, child);
                }
            }
            if idx == 0 || (balanced && fit) {
                proof {
                    if idx == 0 {
                        lemma_root_fits(len as int, count as nat);
                    }
                }
                self.rebuild_subtree(idx, target, item);
                return idx;
            }
            proof {
                assert forall|a: int|
                    #[trigger] is_desc(t, a) && is_desc(a, idx as int) && a != t implies !rebuild_candidate(
                    s,
                    a,
                    (depth(t) - depth(a)) as nat,
                ) by {
                    if a != idx {
                        lemma_between(t, a, child);
                    }
                }
            }
        }
    }
}

/// An ancestor `a` of `t` strictly below the parent of `child`, where `child` is an
/// ancestor of `t` too, lies in the subtree of `child`.
pub proof fn lemma_between(t: int, a: int, child: int)
    requires
        child > 0,
        is_desc(t, child),
        is_desc(t, a),
        is_desc(a, (child - 1) / 2),
        a != (child - 1) / 2,
    ensures
        is_desc(a, child),
{
    let p = (child - 1) / 2;
    assert(a > p);
    if a <= child {
        lemma_desc_nested(t, a, child);
        if a != child {
            assert(is_desc((child - 1) / 2, a));
            assert(p >= a);
        }
    } else {
        lemma_desc_nested(t, child, a);
    }
    assert(is_desc(child, child));
}

/// At the root, a storage of at least twice `cnt` cells, less one, holds a nearly complete tree of `cnt`
/// entries.
pub proof fn lemma_root_fits(len: int, cnt: nat)
    requires
        cnt >= 1,
        2 * cnt <= len + 1,
    ensures
        fits(len, 0, build_height(cnt)),
{
    lemma_build_height_bounds(cnt);
    let hh = build_height(cnt);
    lemma_rightmost(0, (hh - 1) as nat);
    lemma_fits_rightmost(len, 0, hh);
}

} // verus!
