use vstd::prelude::*;

use crate::bulk_delete::{
    lemma_entries_of_items, lemma_filter_add3, lemma_filter_none, lemma_filter_single, lemma_items_add,
    lemma_items_empty, lemma_items_single, pairs,
};
use crate::interval::{overlaps, overlaps_spec, Interval, IvNode};
use crate::key::Key;
use crate::node::{Entry, erank};
use crate::plain_tree::{derefs, lemma_sorted_remove};
use crate::sink::Sink;
use crate::tree_building::{sorted_items, to_entries, with_rank};
use crate::tree_repr::{has_key, lefti, parenti, righti, TreeRepr};
use crate::tree_spec::{
    all_none, cell_measure, clean, inorder, is_desc, lemma_all_none, lemma_children, lemma_desc_nested,
    lemma_desc_trans, lemma_frame, lemma_replace_at, lemma_sorted_split, path_present, prefix, present, same_outside,
    sorted_entries,
};

verus! {

pub open spec fn max3(a: int, b: int, c: int) -> int {
    if a >= b && a >= c {
        a
    } else if b >= c {
        b
    } else {
        c
    }
}

/// The largest upper bound of the intervals in the subtree of `i` (0 for an empty one).
pub open spec fn smax<Iv: Interval, V>(s: Seq<Option<Entry<Iv, V>>>, i: int) -> int
    decreases cell_measure(s.len() as int, i),
{
    if present(s, i) {
        max3(s[i].unwrap().item.0.hi(), smax(s, 2 * i + 1), smax(s, 2 * i + 2))
    } else {
        0
    }
}

/// Every cell that holds an entry knows the largest upper bound of its subtree.
pub open spec fn maxb_ok<Iv: Interval, V>(s: Seq<Option<Entry<Iv, V>>>, mb: Seq<usize>) -> bool {
    &&& mb.len() == s.len()
    &&& forall|j: int| 0 <= j < s.len() && #[trigger] s[j] is Some ==> mb[j] == smax(s, j)
}

/// `maxb_ok` except on the path from the root down to `c`.
pub open spec fn maxb_ok_below<Iv: Interval, V>(s: Seq<Option<Entry<Iv, V>>>, mb: Seq<usize>, c: int) -> bool {
    &&& mb.len() == s.len()
    &&& forall|j: int| 0 <= j < s.len() && #[trigger] s[j] is Some && !is_desc(c, j) ==> mb[j] == smax(s, j)
}

/// The entries whose intervals overlap `[lo, hi)`.
pub open spec fn ov_pred<Iv: Interval, V>(lo: int, hi: int) -> spec_fn(Entry<Iv, V>) -> bool {
    |e: Entry<Iv, V>| overlaps_spec(e.item.0.lo(), e.item.0.hi(), lo, hi)
}

/// The entries of `s` whose intervals overlap `[lo, hi)`, in order.
pub open spec fn overlapping<Iv: Interval, V>(s: Seq<Entry<Iv, V>>, lo: int, hi: int) -> Seq<Entry<Iv, V>> {
    s.filter(ov_pred(lo, hi))
}

/// Every interval of a subtree ends at or before its largest upper bound.
pub proof fn lemma_smax_bound<Iv: Interval, V>(s: Seq<Option<Entry<Iv, V>>>, i: int)
    ensures
        smax(s, i) >= 0,
        forall|k: int| 0 <= k < inorder(s, i).len() ==> (#[trigger] inorder(s, i)[k]).item.0.hi() <= smax(s, i),
    decreases cell_measure(s.len() as int, i),
{
    if present(s, i) {
        lemma_smax_bound(s, 2 * i + 1);
        lemma_smax_bound(s, 2 * i + 2);
        let l = inorder(s, 2 * i + 1);
        let r = inorder(s, 2 * i + 2);
        let x = s[i].unwrap();
        assert(inorder(s, i) == l + seq![x] + r);
        assert forall|k: int| 0 <= k < inorder(s, i).len() implies (#[trigger] inorder(s, i)[k]).item.0.hi() <= smax(s, i) by {
            if k < l.len() {
                assert(inorder(s, i)[k] == l[k]);
            } else if k > l.len() {
                assert(inorder(s, i)[k] == r[k - l.len() - 1]);
            }
        }
    }
}

/// The largest upper bound depends only on the cells of the subtree.
pub proof fn lemma_smax_frame<Iv: Interval, V>(s1: Seq<Option<Entry<Iv, V>>>, s2: Seq<Option<Entry<Iv, V>>>, i: int)
    requires
        s1.len() == s2.len(),
        forall|j: int| 0 <= j < s1.len() && #[trigger] is_desc(j, i) ==> s1[j] == s2[j],
    ensures
        smax(s1, i) == smax(s2, i),
    decreases cell_measure(s1.len() as int, i),
{
    if 0 <= i < s1.len() {
        assert(is_desc(i, i));
        lemma_children(i);
        lemma_smax_frame(s1, s2, 2 * i + 1);
        lemma_smax_frame(s1, s2, 2 * i + 2);
    }
}

/// An interval tree: a teardown tree of intervals whose cells also know the largest upper
/// bound of their subtrees.
pub struct IvTree<Iv, V> {
    pub repr: TreeRepr<Iv, V>,
    pub maxb: Vec<usize>,
}

impl<Iv: Interval, V> View for IvTree<Iv, V> {
    type V = Seq<Entry<Iv, V>>;

    /// The entries of the tree, ordered by interval.
    open spec fn view(&self) -> Seq<Entry<Iv, V>> {
        self.repr@
    }
}

impl<Iv: Interval, V> IvTree<Iv, V> {
    pub open spec fn wf(&self) -> bool {
        &&& self.repr.wf()
        &&& maxb_ok(self.repr.data@, self.maxb@)
    }

    /// Sets the largest upper bound of cell `c` from its interval and its children.
    pub(crate) fn fix_maxb(&mut self, c: usize)
        requires
            present(old(self).repr.data@, c as int),
            old(self).repr.data@.len() < usize::MAX / 2,
            old(self).maxb@.len() == old(self).repr.data@.len(),
            present(old(self).repr.data@, 2 * c + 1) ==> old(self).maxb@[2 * c + 1] == smax(
                old(self).repr.data@,
                2 * c + 1,
            ),
            present(old(self).repr.data@, 2 * c + 2) ==> old(self).maxb@[2 * c + 2] == smax(
                old(self).repr.data@,
                2 * c + 2,
            ),
        ensures
            final(self).repr == old(self).repr,
            final(self).maxb@ == old(self).maxb@.update(c as int, smax(old(self).repr.data@, c as int) as usize),
            0 <= smax(old(self).repr.data@, c as int) <= usize::MAX,
    {
        let ghost s = self.repr.data@;
        let ghost i = c as int;
        proof {
            lemma_smax_bound(s, 2 * i + 1);
            lemma_smax_bound(s, 2 * i + 2);
            Iv::lemma_rank_bounds(s[i].unwrap().item.0, s[i].unwrap().item.0);
        }
        let mut m = self.repr.key(c).b();
        if self.repr.has_left(c) {
            let l = self.maxb[lefti(c)];
            if l > m {
                m = l;
            }
        }
        if self.repr.has_right(c) {
            let r = self.maxb[righti(c)];
            if r > m {
                m = r;
            }
        }
        self.maxb.set(c, m);
    }

    /// Sets the largest upper bounds of every cell of the subtree at `idx`.
    fn init_maxb(&mut self, idx: usize)
        requires
            old(self).repr.data@.len() < usize::MAX / 2,
            old(self).maxb@.len() == old(self).repr.data@.len(),
            idx <= 2 * old(self).repr.data@.len(),
            clean(old(self).repr.data@, idx as int),
        ensures
            final(self).repr == old(self).repr,
            final(self).maxb@.len() == old(self).maxb@.len(),
            forall|j: int|
                0 <= j < final(self).maxb@.len() && #[trigger] is_desc(j, idx as int) && present(
                    final(self).repr.data@,
                    j,
                ) ==> final(self).maxb@[j] == smax(final(self).repr.data@, j),
            forall|j: int|
                0 <= j < final(self).maxb@.len() && !#[trigger] is_desc(j, idx as int) ==> final(self).maxb@[j]
                    == old(self).maxb@[j],
        decreases cell_measure(old(self).repr.data@.len() as int, idx as int),
    {
        let ghost s = self.repr.data@;
        let ghost i = idx as int;
        if self.repr.is_nil(idx) {
            proof {
                assert forall|j: int|
                    0 <= j < self.maxb@.len() && #[trigger] is_desc(j, i) && present(s, j) implies self.maxb@[j]
                        == smax(s, j) by {
                    if i < s.len() {
                        assert(all_none(s, i));
                        lemma_all_none_desc(s, i, j);
                    } else {
                        lemma_desc_nested(j, i, i);
                    }
                }
            }
            return;
        }
        proof {
            lemma_children(i);
            assert(is_desc(i, i));
        }
        let ghost m0 = self.maxb@;
        self.init_maxb(lefti(idx));
        let ghost m1 = self.maxb@;
        self.init_maxb(righti(idx));
        let ghost m2 = self.maxb@;
        proof {
            assert(is_desc(2 * i + 1, 2 * i + 1));
            assert(is_desc(2 * i + 2, 2 * i + 2));
            assert(!is_desc(2 * i + 1, 2 * i + 2));
            assert(!is_desc(i, 2 * i + 1) && !is_desc(i, 2 * i + 2));
        }
        self.fix_maxb(idx);
        proof {
            assert forall|j: int| 0 <= j < self.maxb@.len() && !#[trigger] is_desc(j, i) implies self.maxb@[j] == m0[j] by {
                assert(!is_desc(j, 2 * i + 1));
                assert(!is_desc(j, 2 * i + 2));
            }
            assert forall|j: int|
                0 <= j < self.maxb@.len() && #[trigger] is_desc(j, i) && present(s, j) implies self.maxb@[j] == smax(s, j) by {
                if j != i {
                    if is_desc(j, 2 * i + 1) {
                        assert(!is_desc(j, 2 * i + 2));
                        assert(m2[j] == m1[j]);
                    }
                }
            }
        }
    }

    /// Restores the largest upper bounds on the path from `c` up to the root.
    fn fix_path(&mut self, c: usize)
        requires
            old(self).repr.data@.len() < usize::MAX / 2,
            c < old(self).repr.data@.len(),
            maxb_ok_below(old(self).repr.data@, old(self).maxb@, c as int),
        ensures
            final(self).repr == old(self).repr,
            maxb_ok(final(self).repr.data@, final(self).maxb@),
    {
        let ghost s = self.repr.data@;
        let mut cur = c;
        loop
            invariant
                self.repr == old(self).repr,
                s == self.repr.data@,
                s.len() < usize::MAX / 2,
                cur < s.len(),
                maxb_ok_below(s, self.maxb@, cur as int),
            decreases cur,
        {
            let ghost ci = cur as int;
            if !self.repr.is_nil(cur) {
                proof {
                    assert(!is_desc(ci, 2 * ci + 1));
                    assert(!is_desc(ci, 2 * ci + 2));
                }
                self.fix_maxb(cur);
            }
            proof {
                assert forall|j: int|
                    0 <= j < s.len() && #[trigger] s[j] is Some && (!is_desc(ci, j) || j == ci) implies self.maxb@[j]
                        == smax(s, j) by {
                }
            }
            if cur == 0 {
                proof {
                    assert forall|j: int| 0 <= j < s.len() && #[trigger] s[j] is Some implies self.maxb@[j] == smax(s, j) by {
                        assert(!is_desc(0, j) || j == 0);
                    }
                }
                return;
            }
            let p = parenti(cur);
            proof {
                let pi = p as int;
                assert forall|j: int| 0 <= j < s.len() && #[trigger] s[j] is Some && !is_desc(pi, j) implies self.maxb@[j]
                    == smax(s, j) by {
                    if is_desc(ci, j) && j != ci {
                        assert(is_desc((ci - 1) / 2, j));
                    }
                }
            }
            cur = p;
        }
    }
}

/// The cells below a cell whose subtree is empty are empty.
pub proof fn lemma_all_none_desc<K, V>(s: Seq<Option<Entry<K, V>>>, i: int, j: int)
    requires
        0 <= i,
        all_none(s, i),
        is_desc(j, i),
        0 <= j < s.len(),
    ensures
        s[j] is None,
    decreases cell_measure(s.len() as int, i),
{
    if j != i {
        crate::tree_spec::lemma_desc_split(j, i);
        if is_desc(j, 2 * i + 1) {
            lemma_all_none_desc(s, 2 * i + 1, j);
        } else {
            lemma_all_none_desc(s, 2 * i + 2, j);
        }
    }
}

/// The cells holding the entries of the given interval nodes.
pub open spec fn iv_cells<Iv, V>(nodes: Seq<Option<IvNode<Iv, V>>>) -> Seq<Option<Entry<Iv, V>>> {
    nodes.map_values(
        |o: Option<IvNode<Iv, V>>|
            match o {
                Some(n) => Some(n.entry),
                None => None,
            },
    )
}

impl<Iv: Interval, V> IvTree<Iv, V> {
    /// The interval tree over a tree of intervals.
    pub fn with_repr(repr: TreeRepr<Iv, V>) -> (t: Self)
        requires
            repr.data@.len() < usize::MAX / 2,
            clean(repr.data@, 0),
        ensures
            t.repr == repr,
            maxb_ok(t.repr.data@, t.maxb@),
            repr.wf() ==> t.wf(),
    {
        let n = repr.data.len();
        let mut maxb: Vec<usize> = Vec::new();
        let mut k: usize = 0;
        while k < n
            invariant
                k <= n,
                maxb@.len() == k,
            decreases n - k,
        {
            maxb.push(0);
            k = k + 1;
        }
        let mut t = IvTree { repr: repr, maxb: maxb };
        t.init_maxb(0);
        proof {
            assert forall|j: int| 0 <= j < t.repr.data@.len() && #[trigger] t.repr.data@[j] is Some implies t.maxb@[j]
                == smax(t.repr.data@, j) by {
                crate::tree_building::lemma_desc_root(j);
            }
        }
        t
    }

    /// A tree of the given pairs, in any order.
    pub fn new(items: Vec<(Iv, V)>) -> (t: Self)
        requires
            items@.len() < usize::MAX / 4,
        ensures
            t.wf(),
            pairs(t@).to_multiset() == items@.to_multiset(),
            forall|k: int| #[trigger] with_rank(pairs(t@), k) == with_rank(items@, k),
            t.repr.data@.len() == items@.len(),
    {
        Self::with_repr(TreeRepr::new(items))
    }

    /// A tree of the given pairs, which must be sorted by interval.
    pub fn with_sorted(sorted: Vec<(Iv, V)>) -> (t: Self)
        requires
            sorted_items(sorted@),
            sorted@.len() < usize::MAX / 4,
        ensures
            t.wf(),
            t@ == to_entries(sorted@),
    {
        Self::with_repr(TreeRepr::with_sorted(sorted))
    }

    /// A tree whose cells hold the entries of the given nodes; they must form a sorted tree
    /// with no node below an empty cell.  The largest upper bounds are computed anew.
    pub fn with_nodes(nodes: Vec<Option<IvNode<Iv, V>>>) -> (t: Self)
        requires
            nodes@.len() < usize::MAX / 2,
            clean(iv_cells(nodes@), 0),
        ensures
            t.repr.data@ == iv_cells(nodes@),
            t.repr.size == inorder(iv_cells(nodes@), 0).len(),
            maxb_ok(t.repr.data@, t.maxb@),
            sorted_entries(inorder(iv_cells(nodes@), 0)) ==> t.wf(),
    {
        let mut nodes = nodes;
        let ghost orig = nodes@;
        let mut rev: Vec<Option<Entry<Iv, V>>> = Vec::new();
        while nodes.len() > 0
            invariant
                nodes@ == orig.take(nodes@.len() as int),
                nodes@.len() <= orig.len(),
                rev@.len() == orig.len() - nodes@.len(),
                forall|k: int| 0 <= k < rev@.len() ==> #[trigger] rev@[k] == iv_cells(orig)[orig.len() - 1 - k],
            decreases nodes@.len(),
        {
            let n = nodes.pop().unwrap();
            let c = match n {
                Some(node) => Some(node.into_entry()),
                None => None,
            };
            rev.push(c);
            proof {
                assert(nodes@ =~= orig.take(nodes@.len() as int));
            }
        }
        let mut cells: Vec<Option<Entry<Iv, V>>> = Vec::new();
        while rev.len() > 0
            invariant
                cells@.len() + rev@.len() == orig.len(),
                forall|k: int| 0 <= k < rev@.len() ==> #[trigger] rev@[k] == iv_cells(orig)[orig.len() - 1 - k],
                forall|k: int| 0 <= k < cells@.len() ==> #[trigger] cells@[k] == iv_cells(orig)[k],
            decreases rev@.len(),
        {
            let c = rev.pop().unwrap();
            cells.push(c);
        }
        proof {
            assert(cells@ =~= iv_cells(orig));
        }
        Self::with_repr(TreeRepr::with_nodes(cells))
    }

    /// The number of entries.
    pub fn size(&self) -> (r: usize)
        requires
            self.wf(),
        ensures
            r == self@.len(),
    {
        self.repr.size()
    }

    /// The value of an entry with the interval `query`.
    pub fn find(&self, query: &Iv) -> (r: Option<&V>)
        requires
            self.wf(),
        ensures
            r is Some <==> has_key(self@, *query),
            r matches Some(v) ==> self@.contains(Entry { item: (*query, *v) }),
    {
        self.repr.find(query)
    }

    /// The tree holds an entry with the interval `query`.
    pub fn contains(&self, query: &Iv) -> (r: bool)
        requires
            self.wf(),
        ensures
            r == has_key(self@, *query),
    {
        self.repr.contains(query)
    }

    /// Drops every entry.
    pub fn clear(&mut self)
        requires
            old(self).wf(),
        ensures
            final(self).wf(),
            final(self).repr.data@.len() == old(self).repr.data@.len(),
            final(self)@ == Seq::<Entry<Iv, V>>::empty(),
    {
        self.repr.clear();
        proof {
            crate::tree_spec::lemma_clean_empty(self.repr.data@, 0);
            assert forall|j: int| 0 <= j < self.repr.data@.len() && #[trigger] self.repr.data@[j] is Some implies self.maxb@[j]
                == smax(self.repr.data@, j) by {
                crate::tree_building::lemma_desc_root(j);
                lemma_all_none_desc(self.repr.data@, 0, j);
            }
        }
    }

    /// References to the pairs of the tree, in order.
    pub fn iter<'a>(&'a self) -> (v: Vec<&'a (Iv, V)>)
        requires
            self.wf(),
        ensures
            v@.len() == self@.len(),
            forall|k: int| 0 <= k < v@.len() ==> *#[trigger] v@[k] == self@[k].item,
    {
        self.repr.iter()
    }

    /// The pairs of the tree, in order.
    pub fn into_iter(self) -> (v: Vec<(Iv, V)>)
        requires
            self.wf(),
        ensures
            v@ == pairs(self@),
    {
        self.repr.into_iter()
    }
}

impl<Iv: Interval, V> IvTree<Iv, V> {
    /// Deletes an entry with the interval `query` and returns its value, or returns `None`
    /// when the tree holds no such entry.
    pub fn delete(&mut self, query: &Iv) -> (r: Option<V>)
        requires
            old(self).wf(),
        ensures
            final(self).wf(),
            final(self).repr.data@.len() == old(self).repr.data@.len(),
            r is Some <==> has_key(old(self)@, *query),
            r is None ==> final(self)@ == old(self)@,
            r matches Some(v) ==> exists|p: int|
                0 <= p < old(self)@.len() && old(self)@[p].item == (*query, v) && final(self)@ == old(self)@.remove(p),
    {
        let ghost s0 = self.repr.data@;
        let idx = self.repr.index_of(query);
        if self.repr.is_nil(idx) {
            return None;
        }
        proof {
            lemma_replace_at(s0, s0, 0, idx as int);
        }
        let (v, last) = self.repr.delete_at(idx);
        let ghost s1 = self.repr.data@;
        proof {
            let i = idx as int;
            lemma_replace_at(s0, s1, 0, i);
            let p = (prefix(s0, 0, i).len() + inorder(s0, 2 * i + 1).len()) as int;
            let x = s0[i].unwrap();
            assert(inorder(s0, i) == inorder(s0, 2 * i + 1) + seq![x] + inorder(s0, 2 * i + 2));
            assert(inorder(s0, 0)[p] == x);
            Iv::lemma_rank_injective(x.item.0, *query);
            assert(inorder(s1, 0) =~= inorder(s0, 0).remove(p));
            lemma_sorted_remove(inorder(s0, 0), p);
            assert(x.item == (*query, v));
            assert(0 <= p < inorder(s0, 0).len() && inorder(s0, 0)[p].item == (*query, v) && inorder(s1, 0)
                == inorder(s0, 0).remove(p));
            assert(0 <= p < old(self)@.len() && old(self)@[p].item == (*query, v) && self@ == old(self)@.remove(p));
            // the largest upper bounds are still right off the path to `last`
            assert forall|j: int| 0 <= j < s1.len() && #[trigger] s1[j] is Some && !is_desc(last as int, j) implies self.maxb@[j]
                == smax(s1, j) by {
                assert forall|c: int| 0 <= c < s0.len() && #[trigger] is_desc(c, j) implies s0[c] == s1[c] by {
                    if s0[c] != s1[c] {
                        lemma_desc_trans(last as int, c, j);
                    }
                }
                lemma_smax_frame(s0, s1, j);
                assert(is_desc(j, j));
            }
        }
        self.fix_path(last);
        Some(v)
    }

    /// Feeds references to the pairs of the subtree at `idx` whose intervals overlap
    /// `[lo, hi)` into `sink`, in order; the largest upper bounds prune the search.
    fn query_rec<'a, Q: Interval, S: Sink<&'a (Iv, V)>>(&'a self, query: &Q, idx: usize, sink: &mut S)
        requires
            self.wf(),
            idx <= 2 * self.repr.data@.len(),
            clean(self.repr.data@, idx as int),
            sorted_entries(inorder(self.repr.data@, idx as int)),
        ensures
            old(sink).faithful() ==> final(sink).faithful(),
            derefs(final(sink).consumed()) == derefs(old(sink).consumed()) + pairs(
                overlapping(inorder(self.repr.data@, idx as int), query.lo(), query.hi()),
            ),
        decreases cell_measure(self.repr.data@.len() as int, idx as int),
    {
        let ghost s = self.repr.data@;
        let ghost i = idx as int;
        let ghost p = ov_pred::<Iv, V>(query.lo(), query.hi());
        let ghost out0 = derefs(sink.consumed());
        if self.repr.is_nil(idx) {
            proof {
                assert(inorder(s, i) =~= Seq::<Entry<Iv, V>>::empty());
                lemma_filter_none(inorder(s, i), p);
                lemma_items_empty::<Iv, V>();
                assert(derefs(sink.consumed()) =~= out0 + pairs(overlapping(inorder(s, i), query.lo(), query.hi())));
            }
            return;
        }
        let ghost l = inorder(s, 2 * i + 1);
        let ghost r = inorder(s, 2 * i + 2);
        let ghost x = s[i].unwrap();
        proof {
            lemma_children(i);
            lemma_sorted_split(s, i);
            lemma_filter_add3(l, seq![x], r, p);
            lemma_filter_single(x, p);
            lemma_items_empty::<Iv, V>();
            lemma_smax_bound(s, 2 * i + 1);
            lemma_smax_bound(s, 2 * i + 2);
            Q::lemma_rank_bounds(*query, *query);
        }
        let k = self.repr.key(idx);
        let qa = query.a();
        let qb = query.b();
        let ka = k.a();
        // the left subtree holds intervals that start no later than this one
        let skip_left = ka < qa && (!self.repr.has_left(idx) || self.maxb[lefti(idx)] <= qa);
        if !skip_left {
            self.query_rec(query, lefti(idx), sink);
        } else {
            proof {
                assert forall|k: int| 0 <= k < l.len() implies !p(#[trigger] l[k]) by {
                    Iv::lemma_rank_bounds(l[k].item.0, x.item.0);
                }
                lemma_filter_none(l, p);
                assert(derefs(sink.consumed()) =~= out0 + pairs(l.filter(p)));
            }
        }
        let ghost out1 = derefs(sink.consumed());
        if overlaps(k, query) {
            sink.consume(self.repr.node(idx).as_tuple());
            proof {
                lemma_items_single(x);
                assert(derefs(sink.consumed()) =~= out1 + pairs(seq![x].filter(p)));
            }
        } else {
            proof {
                assert(derefs(sink.consumed()) =~= out1 + pairs(seq![x].filter(p)));
            }
        }
        let ghost out2 = derefs(sink.consumed());
        // the right subtree holds intervals that start no earlier than this one
        let skip_right = ka > qa && (ka >= qb || !self.repr.has_right(idx) || self.maxb[righti(idx)] <= qa);
        if !skip_right {
            self.query_rec(query, righti(idx), sink);
        } else {
            proof {
                assert forall|k: int| 0 <= k < r.len() implies !p(#[trigger] r[k]) by {
                    Iv::lemma_rank_bounds(x.item.0, r[k].item.0);
                }
                lemma_filter_none(r, p);
                assert(derefs(sink.consumed()) =~= out2 + pairs(r.filter(p)));
            }
        }
        proof {
            lemma_items_add(l.filter(p), seq![x].filter(p));
            lemma_items_add(l.filter(p) + seq![x].filter(p), r.filter(p));
            assert(derefs(sink.consumed()) =~= out0 + pairs(overlapping(inorder(s, i), query.lo(), query.hi())));
        }
    }

    /// Feeds references to the pairs whose intervals overlap `query` into `sink`, in order.
    pub fn query_overlap<'a, Q: Interval, S: Sink<&'a (Iv, V)>>(&'a self, query: &Q, sink: S) -> (out: S)
        requires
            self.wf(),
        ensures
            sink.faithful() ==> out.faithful(),
            derefs(out.consumed()) == derefs(sink.consumed()) + pairs(overlapping(self@, query.lo(), query.hi())),
    {
        let mut sink = sink;
        self.query_rec(query, 0, &mut sink);
        sink
    }
}

/// A copy of a vector of bounds.
fn copy_bounds(v: &Vec<usize>) -> (r: Vec<usize>)
    ensures
        r@ == v@,
{
    let n = v.len();
    let mut r: Vec<usize> = Vec::with_capacity(n);
    let mut i: usize = 0;
    while i < n
        invariant
            n == v@.len(),
            i <= n,
            r@ == v@.subrange(0, i as int),
        decreases n - i,
    {
        r.push(v[i]);
        i = i + 1;
        assert(r@ =~= v@.subrange(0, i as int));
    }
    assert(v@.subrange(0, n as int) =~= v@);
    r
}

impl<Iv: Interval, V: Copy> Clone for IvTree<Iv, V> {
    /// A copy of the tree with the same cells and bounds.
    fn clone(&self) -> (r: Self)
        ensures
            r.repr.data@ == self.repr.data@,
            r.maxb@ == self.maxb@,
            r@ == self@,
            self.wf() ==> r.wf(),
    {
        IvTree { repr: self.repr.clone(), maxb: copy_bounds(&self.maxb) }
    }
}

impl<Iv: Interval, V: Copy> IvTree<Iv, V> {
    /// Copies the contents of `master`, a tree with as many cells, into this tree.
    pub fn refill(&mut self, master: &Self)
        requires
            old(self).wf(),
            master.wf(),
            old(self).repr.data@.len() == master.repr.data@.len(),
        ensures
            final(self).wf(),
            final(self).repr.data@ == master.repr.data@,
            final(self)@ == master@,
    {
        self.repr.refill(&master.repr);
        self.maxb = copy_bounds(&master.maxb);
    }
}

} // verus!
