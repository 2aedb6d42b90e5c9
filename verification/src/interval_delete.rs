use vstd::prelude::*;

use crate::bulk_delete::{
    kept_by, lemma_by_filters, lemma_by_len, lemma_items_add, lemma_items_empty, lemma_items_single, lemma_kept_by_sorted, lemma_none_by, lemma_split_by, pairs,
    picked_by,
};
use crate::interval::{overlaps, overlaps_spec, Interval};
use crate::interval_tree::{lemma_smax_bound, lemma_smax_frame, maxb_ok, overlapping, ov_pred, smax, IvTree};
use crate::item_filter::{ItemFilter, NoopFilter};
use crate::tree_building::lemma_desc_root;
use crate::key::Key;
use crate::node::Entry;
use crate::sink::Sink;
use crate::tree_repr::{lefti, parenti, righti};
use crate::tree_spec::{
    all_none, cell_measure, clean, inorder, is_desc, lemma_all_none, lemma_children, lemma_desc_trans, lemma_frame,
    lemma_sorted_split, present, same_outside, sorted_entries,
};

verus! {

/// Every cell of the subtree at `i` that holds an entry knows the largest upper bound of
/// its own subtree.
pub open spec fn maxb_in<Iv: Interval, V>(s: Seq<Option<Entry<Iv, V>>>, mb: Seq<usize>, i: int) -> bool {
    &&& mb.len() == s.len()
    &&& forall|j: int| 0 <= j < s.len() && #[trigger] is_desc(j, i) && s[j] is Some ==> mb[j] == smax(s, j)
}

/// `maxb_in` except on the cells of the subtree at `i` above `c`.
pub open spec fn maxb_in_below<Iv: Interval, V>(s: Seq<Option<Entry<Iv, V>>>, mb: Seq<usize>, i: int, c: int) -> bool {
    &&& mb.len() == s.len()
    &&& forall|j: int|
        0 <= j < s.len() && #[trigger] is_desc(j, i) && s[j] is Some && !is_desc(c, j) ==> mb[j] == smax(s, j)
}

/// The bounds of a subtree stay right when neither its cells nor their bounds change.
pub proof fn lemma_maxb_in_frame<Iv: Interval, V>(
    s1: Seq<Option<Entry<Iv, V>>>,
    m1: Seq<usize>,
    s2: Seq<Option<Entry<Iv, V>>>,
    m2: Seq<usize>,
    i: int,
)
    requires
        maxb_in(s1, m1, i),
        s2.len() == s1.len(),
        m2.len() == m1.len(),
        forall|j: int| 0 <= j < s1.len() && #[trigger] is_desc(j, i) ==> s1[j] == s2[j] && m1[j] == m2[j],
    ensures
        maxb_in(s2, m2, i),
{
    assert forall|j: int| 0 <= j < s2.len() && #[trigger] is_desc(j, i) && s2[j] is Some implies m2[j] == smax(s2, j) by {
        assert forall|c: int| 0 <= c < s1.len() && #[trigger] is_desc(c, j) implies s1[c] == s2[c] by {
            lemma_desc_trans(c, j, i);
        }
        lemma_smax_frame(s1, s2, j);
    }
}

/// The bounds of a subtree are those of its two child subtrees and its root.
pub proof fn lemma_maxb_in_children<Iv: Interval, V>(s: Seq<Option<Entry<Iv, V>>>, mb: Seq<usize>, i: int)
    requires
        i >= 0,
        maxb_in(s, mb, i),
    ensures
        maxb_in(s, mb, 2 * i + 1),
        maxb_in(s, mb, 2 * i + 2),
{
    lemma_children(i);
}

/// Moving entries only along the path down to `last` (and into the root `i`) leaves the
/// bounds right on every cell of the subtree off that path.
pub proof fn lemma_maxb_off_path<Iv: Interval, V>(
    s1: Seq<Option<Entry<Iv, V>>>,
    s2: Seq<Option<Entry<Iv, V>>>,
    mb: Seq<usize>,
    i: int,
    last: int,
)
    requires
        i >= 0,
        maxb_in(s1, mb, 2 * i + 1),
        maxb_in(s1, mb, 2 * i + 2),
        s2.len() == s1.len(),
        is_desc(last, i),
        forall|j: int| 0 <= j < s1.len() && j != i && s1[j] != s2[j] ==> is_desc(last, j),
    ensures
        maxb_in_below(s2, mb, i, last),
{
    lemma_children(i);
    assert forall|j: int|
        0 <= j < s2.len() && #[trigger] is_desc(j, i) && s2[j] is Some && !is_desc(last, j) implies mb[j] == smax(
        s2,
        j,
    ) by {
        assert(j != i);
        assert forall|c: int| 0 <= c < s1.len() && #[trigger] is_desc(c, j) implies s1[c] == s2[c] by {
            if c == i {
                crate::tree_spec::lemma_desc_nested(c, i, j);
            }
            if s1[c] != s2[c] && c != i {
                lemma_desc_trans(last, c, j);
            }
        }
        lemma_smax_frame(s1, s2, j);
        assert(is_desc(j, j));
    }
}

/// The intervals that overlap `[lo, hi)` and that a filter accepts.
pub open spec fn overlap_sel<Iv: Interval, F: ItemFilter<Iv>>(lo: int, hi: int, f: F) -> spec_fn(Iv) -> bool {
    |k: Iv| overlaps_spec(k.lo(), k.hi(), lo, hi) && f.accepts(k)
}

/// The entries of `s` whose intervals do not overlap `[lo, hi)`, in order.
pub open spec fn overlap_kept<Iv: Interval, V>(s: Seq<Entry<Iv, V>>, lo: int, hi: int) -> Seq<Entry<Iv, V>> {
    s.filter(|e: Entry<Iv, V>| !overlaps_spec(e.item.0.lo(), e.item.0.hi(), lo, hi))
}

/// Filtering by overlap with the filter that accepts everything keeps the entries that do
/// not overlap and picks those that do.
pub proof fn lemma_overlap_noop<Iv: Interval, V>(lo: int, hi: int, s: Seq<Entry<Iv, V>>)
    ensures
        kept_by(overlap_sel(lo, hi, NoopFilter), s) == overlap_kept(s, lo, hi),
        picked_by(overlap_sel(lo, hi, NoopFilter), s) == overlapping(s, lo, hi),
{
    lemma_by_filters(overlap_sel(lo, hi, NoopFilter), s, |e: Entry<Iv, V>| !overlaps_spec(e.item.0.lo(), e.item.0.hi(), lo, hi), ov_pred(lo, hi));
}

impl<Iv: Interval, V> IvTree<Iv, V> {
    /// Restores the largest upper bounds on the path from `c` up to `top`.
    fn fix_up(&mut self, c: usize, top: usize)
        requires
            old(self).repr.data@.len() < usize::MAX / 2,
            c < old(self).repr.data@.len(),
            is_desc(c as int, top as int),
            maxb_in_below(old(self).repr.data@, old(self).maxb@, top as int, c as int),
        ensures
            final(self).repr == old(self).repr,
            maxb_in(final(self).repr.data@, final(self).maxb@, top as int),
            forall|j: int|
                0 <= j < old(self).maxb@.len() && !#[trigger] is_desc(j, top as int) ==> final(self).maxb@[j]
                    == old(self).maxb@[j],
    {
        let ghost s = self.repr.data@;
        let ghost t = top as int;
        let mut cur = c;
        loop
            invariant
                self.repr == old(self).repr,
                s == self.repr.data@,
                t == top as int,
                s.len() < usize::MAX / 2,
                cur < s.len(),
                is_desc(cur as int, t),
                maxb_in_below(s, self.maxb@, t, cur as int),
                self.maxb@.len() == old(self).maxb@.len(),
                forall|j: int|
                    0 <= j < old(self).maxb@.len() && !#[trigger] is_desc(j, t) ==> self.maxb@[j]
                        == old(self).maxb@[j],
            decreases cur,
        {
            let ghost ci = cur as int;
            proof {
                lemma_children(ci);
                assert(ci >= 0);
            }
            if !self.repr.is_nil(cur) {
                proof {
                    assert(!is_desc(ci, 2 * ci + 1));
                    assert(!is_desc(ci, 2 * ci + 2));
                    assert(is_desc(2 * ci + 1, ci));
                    assert(is_desc(2 * ci + 2, ci));
                    if 2 * ci + 1 < s.len() {
                        lemma_desc_trans(2 * ci + 1, ci, t);
                    }
                    if 2 * ci + 2 < s.len() {
                        lemma_desc_trans(2 * ci + 2, ci, t);
                    }
                }
                self.fix_maxb(cur);
            }
            proof {
                assert forall|j: int|
                    0 <= j < s.len() && #[trigger] is_desc(j, t) && s[j] is Some && (!is_desc(ci, j) || j == ci)
                        implies self.maxb@[j] == smax(s, j) by {
                }
            }
            if cur == top {
                proof {
                    assert forall|j: int| 0 <= j < s.len() && #[trigger] is_desc(j, t) && s[j] is Some implies self.maxb@[j]
                        == smax(s, j) by {
                        assert(ci == t);
                        assert(j >= t);
                        if is_desc(ci, j) {
                            assert(ci >= j);
                        }
                        assert(!is_desc(ci, j) || j == ci);
                    }
                }
                return;
            }
            let p = parenti(cur);
            proof {
                let pi = p as int;
                assert(is_desc(pi, t));
                assert forall|j: int|
                    0 <= j < s.len() && #[trigger] is_desc(j, t) && s[j] is Some && !is_desc(pi, j) implies self.maxb@[j]
                        == smax(s, j) by {
                    if is_desc(ci, j) && j != ci {
                        assert(is_desc((ci - 1) / 2, j));
                    }
                }
            }
            cur = p;
        }
    }
}

impl<Iv: Interval, V> IvTree<Iv, V> {
    /// Removes from the subtree at `idx` the entries whose intervals `sel` chooses (those
    /// that overlap `query` and that the filter accepts), feeding them into `sink` in order,
    /// packs the rest back into a clean subtree at `idx` and restores its bounds.  The
    /// largest upper bounds prune the search.
    #[verifier::rlimit(80)]
    #[verifier::spinoff_prover]
    fn filter_overlap_rec<Q: Interval, F: ItemFilter<Iv>, S: Sink<(Iv, V)>>(
        &mut self,
        query: &Q,
        flt: &mut F,
        sink: &mut S,
        idx: usize,
        Ghost(sel): Ghost<spec_fn(Iv) -> bool>,
    )
        requires
            old(self).repr.data@.len() < usize::MAX / 2,
            clean(old(self).repr.data@, idx as int),
            sorted_entries(inorder(old(self).repr.data@, idx as int)),
            old(self).repr.size >= inorder(old(self).repr.data@, idx as int).len(),
            maxb_in(old(self).repr.data@, old(self).maxb@, idx as int),
            forall|k: Iv| #[trigger] sel(k) == (overlaps_spec(k.lo(), k.hi(), query.lo(), query.hi()) && old(flt).accepts(k)),
        ensures
            old(sink).faithful() ==> final(sink).faithful(),
            final(self).repr.data@.len() == old(self).repr.data@.len(),
            inorder(final(self).repr.data@, idx as int) == kept_by(sel, inorder(old(self).repr.data@, idx as int)),
            clean(final(self).repr.data@, idx as int),
            same_outside(old(self).repr.data@, final(self).repr.data@, idx as int),
            final(sink).consumed() == old(sink).consumed() + pairs(
                picked_by(sel, inorder(old(self).repr.data@, idx as int)),
            ),
            final(self).repr.size == old(self).repr.size - picked_by(sel, inorder(old(self).repr.data@, idx as int)).len(),
            final(self).repr.delete_range_cache == old(self).repr.delete_range_cache,
            forall|k: Iv| #[trigger] final(flt).accepts(k) == old(flt).accepts(k),
            maxb_in(final(self).repr.data@, final(self).maxb@, idx as int),
            forall|j: int|
                0 <= j < old(self).maxb@.len() && !#[trigger] is_desc(j, idx as int) ==> final(self).maxb@[j]
                    == old(self).maxb@[j],
        decreases cell_measure(old(self).repr.data@.len() as int, idx as int),
    {
        let ghost s0 = self.repr.data@;
        let ghost m0 = self.maxb@;
        let ghost i = idx as int;
        let ghost out0 = sink.consumed();
        if self.repr.is_nil(idx) {
            proof {
                assert(inorder(s0, i) =~= Seq::<Entry<Iv, V>>::empty());
                lemma_none_by(sel, inorder(s0, i));
                lemma_items_empty::<Iv, V>();
                assert(out0 + pairs(picked_by(sel, inorder(s0, i))) =~= out0);
            }
            return;
        }
        proof {
            lemma_children(i);
            lemma_sorted_split(s0, i);
            assert(is_desc(i, i));
            lemma_by_len(sel, inorder(s0, 2 * i + 1));
            lemma_by_len(sel, inorder(s0, 2 * i + 2));
            lemma_maxb_in_children(s0, m0, i);
            lemma_smax_bound(s0, 2 * i + 1);
            lemma_smax_bound(s0, 2 * i + 2);
            Q::lemma_rank_bounds(*query, *query);
            assert(present(s0, 2 * i + 1) ==> m0[2 * i + 1] == smax(s0, 2 * i + 1)) by {
                assert(is_desc(2 * i + 1, 2 * i + 1));
            }
            assert(present(s0, 2 * i + 2) ==> m0[2 * i + 2] == smax(s0, 2 * i + 2)) by {
                assert(is_desc(2 * i + 2, 2 * i + 2));
            }
        }
        let ghost l = inorder(s0, 2 * i + 1);
        let ghost r = inorder(s0, 2 * i + 2);
        let ghost x = s0[i].unwrap();
        let k: Iv = *self.repr.key(idx);
        let qa = query.a();
        let qb = query.b();
        let ka = k.a();
        // the left subtree holds intervals that start no later than this one
        let skip_left = ka < qa && (!self.repr.has_left(idx) || self.maxb[lefti(idx)] <= qa);
        // the right subtree holds intervals that start no earlier than this one
        let skip_right = ka > qa && (ka >= qb || !self.repr.has_right(idx) || self.maxb[righti(idx)] <= qa);
        let mut chosen = false;
        if overlaps(&k, query) {
            chosen = flt.accept(&k);
        }
        assert(chosen == sel(k));
        let mut item: Option<Entry<Iv, V>> = None;
        if chosen {
            proof {
                assert(l.len() + 1 + r.len() == inorder(s0, i).len());
            }
            item = Some(self.repr.take(idx));
        }
        let ghost s1 = self.repr.data@;
        proof {
            assert forall|j: int| 0 <= j < s0.len() && #[trigger] is_desc(j, 2 * i + 1) implies s0[j] == s1[j] by {
                assert(j > i);
            }
            assert forall|j: int| 0 <= j < s0.len() && #[trigger] is_desc(j, 2 * i + 2) implies s0[j] == s1[j] by {
                assert(j > i);
            }
            lemma_frame(s0, s1, 2 * i + 1);
            lemma_frame(s0, s1, 2 * i + 2);
            lemma_maxb_in_frame(s0, m0, s1, m0, 2 * i + 1);
            lemma_maxb_in_frame(s0, m0, s1, m0, 2 * i + 2);
        }
        if !skip_left {
            self.filter_overlap_rec(query, flt, sink, lefti(idx), Ghost(sel));
        } else {
            proof {
                assert forall|a: int| 0 <= a < l.len() implies !sel((#[trigger] l[a]).item.0) by {
                    Iv::lemma_rank_bounds(l[a].item.0, x.item.0);
                    assert(l[a] == inorder(s0, 2 * i + 1)[a]);
                    assert(present(s0, 2 * i + 1));
                }
                lemma_none_by(sel, l);
                lemma_items_empty::<Iv, V>();
                assert(out0 + pairs(picked_by(sel, l)) =~= out0);
            }
        }
        let ghost s2 = self.repr.data@;
        let ghost m2 = self.maxb@;
        let ghost out1 = sink.consumed();
        proof {
            lemma_frame(s1, s2, 2 * i + 2);
            assert(s2[i] == s1[i]);
            assert(out1 == out0 + pairs(picked_by(sel, l)));
            assert(inorder(s2, 2 * i + 1) == kept_by(sel, l));
            assert(clean(s2, 2 * i + 1));
            assert forall|j: int| 0 <= j < s1.len() && #[trigger] is_desc(j, 2 * i + 2) implies s1[j] == s2[j] && m0[j]
                == m2[j] by {
                assert(!is_desc(j, 2 * i + 1));
            }
            lemma_maxb_in_frame(s1, m0, s2, m2, 2 * i + 2);
        }
        if chosen {
            let e = item.unwrap();
            sink.consume(e.into_tuple());
        }
        let ghost out2 = sink.consumed();
        if !skip_right {
            self.filter_overlap_rec(query, flt, sink, righti(idx), Ghost(sel));
        } else {
            proof {
                assert forall|a: int| 0 <= a < r.len() implies !sel((#[trigger] r[a]).item.0) by {
                    Iv::lemma_rank_bounds(x.item.0, r[a].item.0);
                    assert(r[a] == inorder(s0, 2 * i + 2)[a]);
                    assert(present(s0, 2 * i + 2));
                }
                lemma_none_by(sel, r);
                lemma_items_empty::<Iv, V>();
                assert(out2 + pairs(picked_by(sel, r)) =~= out2);
            }
        }
        let ghost s3 = self.repr.data@;
        let ghost m3 = self.maxb@;
        proof {
            lemma_frame(s2, s3, 2 * i + 1);
            assert(s3[i] == s1[i]);
            assert(inorder(s3, 2 * i + 2) == kept_by(sel, r));
            assert forall|j: int| 0 <= j < s2.len() && #[trigger] is_desc(j, 2 * i + 1) implies s2[j] == s3[j] && m2[j]
                == m3[j] by {
                assert(!is_desc(j, 2 * i + 2));
            }
            lemma_maxb_in_frame(s2, m2, s3, m3, 2 * i + 1);
            lemma_split_by(sel, l, x, r);
            assert(inorder(s0, i) == l + seq![x] + r);
            lemma_items_add(picked_by(sel, l), if sel(x.item.0) { seq![x] } else { Seq::empty() });
            lemma_items_add(
                picked_by(sel, l) + (if sel(x.item.0) { seq![x] } else { Seq::empty() }),
                picked_by(sel, r),
            );
            lemma_items_single(x);
            lemma_items_empty::<Iv, V>();
            assert(out2 == out1 + pairs(if sel(x.item.0) { seq![x] } else { Seq::<Entry<Iv, V>>::empty() })) by {
                if sel(x.item.0) {
                    assert(out2 == out1.push(x.item));
                    assert(out1.push(x.item) =~= out1 + seq![x.item]);
                } else {
                    assert(out1 =~= out1 + Seq::<(Iv, V)>::empty());
                }
            }
            assert(sink.consumed() =~= out0 + pairs(picked_by(sel, inorder(s0, i))));
        }
        if chosen {
            if self.repr.has_left(idx) {
                let last = self.repr.delete_max(idx, lefti(idx));
                let ghost s4 = self.repr.data@;
                proof {
                    let kl = kept_by(sel, l);
                    assert forall|j: int| 0 <= j < s0.len() && #[trigger] is_desc(j, 2 * i + 2) implies s3[j] == s4[j] by {
                        assert(!is_desc(j, 2 * i + 1));
                        assert(j != i);
                    }
                    lemma_frame(s3, s4, 2 * i + 2);
                    assert(kl.drop_last() + seq![kl.last()] =~= kl);
                    assert(inorder(s4, i) == kl.drop_last() + seq![kl.last()] + kept_by(sel, r));
                    lemma_desc_trans(last as int, 2 * i + 1, i);
                    lemma_maxb_off_path(s3, s4, m3, i, last as int);
                }
                self.fix_up(last, idx);
            } else if self.repr.has_right(idx) {
                proof {
                    assert(all_none(s3, 2 * i + 1));
                    lemma_all_none(s3, 2 * i + 1);
                }
                let last = self.repr.delete_min(idx, righti(idx));
                let ghost s4 = self.repr.data@;
                proof {
                    let kr = kept_by(sel, r);
                    assert forall|j: int| 0 <= j < s0.len() && #[trigger] is_desc(j, 2 * i + 1) implies s3[j] == s4[j] by {
                        assert(!is_desc(j, 2 * i + 2));
                        assert(j != i);
                    }
                    lemma_frame(s3, s4, 2 * i + 1);
                    assert(seq![kr.first()] + kr.drop_first() =~= kr);
                    assert(inorder(s4, i) == Seq::<Entry<Iv, V>>::empty() + seq![kr.first()] + kr.drop_first());
                    lemma_desc_trans(last as int, 2 * i + 2, i);
                    lemma_maxb_off_path(s3, s4, m3, i, last as int);
                }
                self.fix_up(last, idx);
            } else {
                proof {
                    assert(all_none(s3, 2 * i + 1));
                    assert(all_none(s3, 2 * i + 2));
                    lemma_all_none(s3, 2 * i + 1);
                    lemma_all_none(s3, 2 * i + 2);
                    assert(all_none(s3, i));
                    assert forall|j: int| 0 <= j < s3.len() && #[trigger] is_desc(j, i) && s3[j] is Some implies m3[j]
                        == smax(s3, j) by {
                        assert(j != i);
                    }
                }
            }
        } else {
            proof {
                assert(present(s3, 2 * i + 1) ==> m3[2 * i + 1] == smax(s3, 2 * i + 1)) by {
                    assert(is_desc(2 * i + 1, 2 * i + 1));
                }
                assert(present(s3, 2 * i + 2) ==> m3[2 * i + 2] == smax(s3, 2 * i + 2)) by {
                    assert(is_desc(2 * i + 2, 2 * i + 2));
                }
            }
            self.fix_maxb(idx);
            proof {
                assert forall|j: int| 0 <= j < s3.len() && #[trigger] is_desc(j, i) && s3[j] is Some implies self.maxb@[j]
                    == smax(s3, j) by {
                    if j != i {
                        assert(!is_desc(i, j)) by {
                            if is_desc(i, j) {
                                assert(j <= i);
                            }
                        }
                    }
                }
            }
        }
        let ghost s5 = self.repr.data@;
        proof {
            assert(inorder(s5, i) =~= kept_by(sel, inorder(s0, i)));
            assert forall|j: int| 0 <= j < s0.len() && !#[trigger] is_desc(j, i) implies s0[j] == s5[j] by {
                assert(!is_desc(j, 2 * i + 1));
                assert(!is_desc(j, 2 * i + 2));
            }
            assert forall|j: int| 0 <= j < m0.len() && !#[trigger] is_desc(j, i) implies self.maxb@[j] == m0[j] by {
                assert(!is_desc(j, 2 * i + 1));
                assert(!is_desc(j, 2 * i + 2));
            }
        }
    }
}

/// A tree whose every cell has the right bound has the right bounds in every subtree, and
/// conversely.
pub proof fn lemma_maxb_root<Iv: Interval, V>(s: Seq<Option<Entry<Iv, V>>>, mb: Seq<usize>)
    ensures
        maxb_in(s, mb, 0) <==> maxb_ok(s, mb),
{
    if maxb_in(s, mb, 0) {
        assert forall|j: int| 0 <= j < s.len() && #[trigger] s[j] is Some implies mb[j] == smax(s, j) by {
            lemma_desc_root(j);
        }
    }
}

impl<Iv: Interval, V> IvTree<Iv, V> {
    /// Deletes the entries whose intervals overlap `query` and that `filter` accepts, and
    /// feeds them into `sink`, in order.
    pub fn filter_overlap<Q: Interval, F: ItemFilter<Iv>, S: Sink<(Iv, V)>>(&mut self, query: &Q, sink: S, filter: F) -> (out: S)
        requires
            old(self).wf(),
        ensures
            sink.faithful() ==> out.faithful(),
            final(self).wf(),
            final(self).repr.data@.len() == old(self).repr.data@.len(),
            final(self)@ == kept_by(overlap_sel(query.lo(), query.hi(), filter), old(self)@),
            out.consumed() == sink.consumed() + pairs(picked_by(overlap_sel(query.lo(), query.hi(), filter), old(self)@)),
    {
        let mut sink = sink;
        let mut filter = filter;
        let ghost sel = overlap_sel(query.lo(), query.hi(), filter);
        proof {
            lemma_maxb_root(self.repr.data@, self.maxb@);
        }
        self.filter_overlap_rec(query, &mut filter, &mut sink, 0, Ghost(sel));
        proof {
            lemma_maxb_root(self.repr.data@, self.maxb@);
            lemma_by_len(sel, old(self)@);
            lemma_kept_by_sorted(sel, old(self)@);
        }
        sink
    }

    /// Deletes the entries whose intervals overlap `query` and feeds them into `sink`, in
    /// order.
    pub fn delete_overlap<Q: Interval, S: Sink<(Iv, V)>>(&mut self, query: &Q, sink: S) -> (out: S)
        requires
            old(self).wf(),
        ensures
            sink.faithful() ==> out.faithful(),
            final(self).wf(),
            final(self).repr.data@.len() == old(self).repr.data@.len(),
            final(self)@ == overlap_kept(old(self)@, query.lo(), query.hi()),
            out.consumed() == sink.consumed() + pairs(overlapping(old(self)@, query.lo(), query.hi())),
    {
        let out = self.filter_overlap(query, sink, NoopFilter);
        proof {
            lemma_overlap_noop::<Iv, V>(query.lo(), query.hi(), old(self)@);
        }
        out
    }
}

} // verus!
