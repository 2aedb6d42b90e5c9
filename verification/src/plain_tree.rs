use vstd::prelude::*;

use crate::bulk_delete::{kept, kept_by, lemma_kept_as_by, pairs, picked, picked_by};
use crate::item_filter::{filter_sel, ItemFilter, NoopFilter};
use crate::drivers::{above, interval_driver, selects, RangeDriver, RangeRefDriver, TraversalDriver};
use crate::key::Key;
use crate::node::{Entry, erank};
use crate::sink::Sink;
use crate::tree_building::{sorted_items, to_entries, with_rank};
use crate::tree_repr::{has_key, lefti, righti, TreeRepr};
use crate::tree_spec::{
    all_none, cell_measure, clean, entries_le, inorder, is_desc, lemma_all_none, lemma_children, lemma_frame,
    lemma_replace_at, lemma_sorted_join, lemma_sorted_parts, lemma_sorted_split, path_present, prefix, present, same_outside,
    sorted_entries, suffix,
};
use std::ops::Range;

verus! {

/// A node of the plain tree: an entry.
pub struct PlNode<K, V> {
    pub entry: Entry<K, V>,
}

impl<K, V> PlNode<K, V> {
    pub fn new(key: K, val: V) -> (n: Self)
        ensures
            n.entry.item == (key, val),
    {
        PlNode { entry: Entry::new(key, val) }
    }

    pub fn from_tuple(t: (K, V)) -> (n: Self)
        ensures
            n.entry.item == t,
    {
        PlNode { entry: Entry::from_tuple(t) }
    }

    pub fn into_entry(self) -> (e: Entry<K, V>)
        ensures
            e == self.entry,
    {
        self.entry
    }

    pub fn into_tuple(self) -> (t: (K, V))
        ensures
            t == self.entry.item,
    {
        self.entry.into_tuple()
    }
}

/// The cells holding the entries of the given nodes.
pub open spec fn node_cells<K, V>(nodes: Seq<Option<PlNode<K, V>>>) -> Seq<Option<Entry<K, V>>> {
    nodes.map_values(
        |o: Option<PlNode<K, V>>|
            match o {
                Some(n) => Some(n.entry),
                None => None,
            },
    )
}

/// The values behind a sequence of references.
pub open spec fn derefs<'a, T>(s: Seq<&'a T>) -> Seq<T> {
    s.map_values(|r: &'a T| *r)
}

/// A teardown tree of key/value pairs, ordered by key.
pub struct PlTree<K, V> {
    pub repr: TreeRepr<K, V>,
}

impl<K: Key, V> View for PlTree<K, V> {
    type V = Seq<Entry<K, V>>;

    /// The entries of the tree, in order.
    open spec fn view(&self) -> Seq<Entry<K, V>> {
        self.repr@
    }
}

/// Removing an entry from a sorted sequence keeps it sorted.
pub proof fn lemma_sorted_remove<K: Key, V>(s: Seq<Entry<K, V>>, p: int)
    requires
        sorted_entries(s),
        0 <= p < s.len(),
    ensures
        sorted_entries(s.remove(p)),
{
    let t = s.remove(p);
    assert forall|a: int, b: int| 0 <= a <= b < t.len() implies erank(#[trigger] t[a]) <= erank(#[trigger] t[b]) by {
        let a0 = if a < p { a } else { a + 1 };
        let b0 = if b < p { b } else { b + 1 };
        assert(t[a] == s[a0] && t[b] == s[b0]);
    }
}

impl<K: Key, V> PlTree<K, V> {
    /// The tree is well formed.
    pub open spec fn wf(&self) -> bool {
        self.repr.wf()
    }

    /// Builds a tree of the given pairs, in any order.
    pub fn new(items: Vec<(K, V)>) -> (t: Self)
        requires
            items@.len() < usize::MAX / 4,
        ensures
            t.wf(),
            pairs(t@).to_multiset() == items@.to_multiset(),
            forall|k: int| #[trigger] with_rank(pairs(t@), k) == with_rank(items@, k),
            t.repr.data@.len() == items@.len(),
    {
        PlTree { repr: TreeRepr::new(items) }
    }

    pub fn with_repr(repr: TreeRepr<K, V>) -> (t: Self)
        ensures
            t.repr == repr,
    {
        PlTree { repr: repr }
    }

    /// Builds a tree of the given pairs, which must be sorted by key.
    pub fn with_sorted(sorted: Vec<(K, V)>) -> (t: Self)
        requires
            sorted_items(sorted@),
            sorted@.len() < usize::MAX / 4,
        ensures
            t.wf(),
            t@ == to_entries(sorted@),
    {
        PlTree { repr: TreeRepr::with_sorted(sorted) }
    }

    /// Builds a tree whose cells hold the given nodes; they must form a sorted tree with no
    /// node below an empty cell.
    pub fn with_nodes(nodes: Vec<Option<PlNode<K, V>>>) -> (t: Self)
        requires
            nodes@.len() < usize::MAX / 2,
            clean(node_cells(nodes@), 0),
        ensures
            t.repr.data@ == node_cells(nodes@),
            t.repr.size == inorder(node_cells(nodes@), 0).len(),
            sorted_entries(inorder(node_cells(nodes@), 0)) ==> t.wf(),
    {
        let mut nodes = nodes;
        let ghost orig = nodes@;
        let mut rev: Vec<Option<Entry<K, V>>> = Vec::new();
        while nodes.len() > 0
            invariant
                nodes@ == orig.take(nodes@.len() as int),
                nodes@.len() <= orig.len(),
                rev@.len() == orig.len() - nodes@.len(),
                forall|k: int| 0 <= k < rev@.len() ==> #[trigger] rev@[k] == node_cells(orig)[orig.len() - 1 - k],
            decreases nodes@.len(),
        {
            let n = nodes.pop().unwrap();
            let c = match n {
                Some(node) => Some(node.into_entry()),
                None => None,
            };
            rev.push(c);
            proof {
                assert(nodes@ =~= orig.take(nodes@.len() as int));
            }
        }
        let mut cells: Vec<Option<Entry<K, V>>> = Vec::new();
        while rev.len() > 0
            invariant
                cells@.len() + rev@.len() == orig.len(),
                forall|k: int| 0 <= k < rev@.len() ==> #[trigger] rev@[k] == node_cells(orig)[orig.len() - 1 - k],
                forall|k: int| 0 <= k < cells@.len() ==> #[trigger] cells@[k] == node_cells(orig)[k],
            decreases rev@.len(),
        {
            let c = rev.pop().unwrap();
            cells.push(c);
        }
        proof {
            assert(cells@ =~= node_cells(orig));
        }
        PlTree { repr: TreeRepr::with_nodes(cells) }
    }

    /// The number of entries.
    pub fn size(&self) -> (r: usize)
        requires
            self.wf(),
        ensures
            r == self@.len(),
    {
        self.repr.size()
    }

    pub fn is_empty(&self) -> (r: bool)
        requires
            self.wf(),
        ensures
            r == (self@.len() == 0),
    {
        self.repr.size() == 0
    }

    /// Finds the value of an entry with the key `query`.
    pub fn find(&self, query: &K) -> (r: Option<&V>)
        requires
            self.wf(),
        ensures
            r is Some <==> has_key(self@, *query),
            r matches Some(v) ==> self@.contains(Entry { item: (*query, *v) }),
    {
        self.repr.find(query)
    }

    /// Finds the value of an entry with the key `query`.
    pub fn lookup(&self, query: &K) -> (r: Option<&V>)
        requires
            self.wf(),
        ensures
            r is Some <==> has_key(self@, *query),
            r matches Some(v) ==> self@.contains(Entry { item: (*query, *v) }),
    {
        self.repr.find(query)
    }

    /// The tree holds an entry with the key `query`.
    pub fn contains(&self, query: &K) -> (r: bool)
        requires
            self.wf(),
        ensures
            r == has_key(self@, *query),
    {
        self.repr.contains(query)
    }

    /// Drops every entry.
    pub fn clear(&mut self)
        requires
            old(self).wf(),
        ensures
            final(self).wf(),
            final(self).repr.data@.len() == old(self).repr.data@.len(),
            final(self)@ == Seq::<Entry<K, V>>::empty(),
    {
        self.repr.clear();
    }

    /// References to the pairs of the tree, in order.
    pub fn iter<'a>(&'a self) -> (v: Vec<&'a (K, V)>)
        requires
            self.wf(),
        ensures
            v@.len() == self@.len(),
            forall|k: int| 0 <= k < v@.len() ==> *#[trigger] v@[k] == self@[k].item,
    {
        self.repr.iter()
    }

    /// The pairs of the tree, in order.
    pub fn into_iter(self) -> (v: Vec<(K, V)>)
        requires
            self.wf(),
        ensures
            v@ == pairs(self@),
    {
        self.repr.into_iter()
    }

    /// Empties the cell `idx` and rearranges its subtree into a valid tree of the other
    /// entries; returns the value of the removed entry.
    fn delete_idx(&mut self, idx: usize) -> (v: V)
        requires
            old(self).wf(),
            present(old(self).repr.data@, idx as int),
            clean(old(self).repr.data@, idx as int),
            is_desc(idx as int, 0),
            crate::tree_spec::path_present(old(self).repr.data@, 0, idx as int),
        ensures
            ({
                let s0 = old(self).repr.data@;
                let i = idx as int;
                &&& final(self).repr.data@.len() == s0.len()
                &&& inorder(final(self).repr.data@, i) == inorder(s0, 2 * i + 1) + inorder(s0, 2 * i + 2)
                &&& clean(final(self).repr.data@, i)
                &&& same_outside(s0, final(self).repr.data@, i)
                &&& v == s0[i].unwrap().item.1
                &&& final(self).repr.size == old(self).repr.size - 1
                &&& final(self).repr.delete_range_cache == old(self).repr.delete_range_cache
            }),
    {
        self.repr.delete_at(idx).0
    }

    /// Deletes an entry with the key `query` and returns its value, or returns `None` when
    /// the tree holds no such entry.
    pub fn delete(&mut self, query: &K) -> (r: Option<V>)
        requires
            old(self).wf(),
        ensures
            final(self).wf(),
            final(self).repr.data@.len() == old(self).repr.data@.len(),
            r is Some <==> has_key(old(self)@, *query),
            r is None ==> final(self)@ == old(self)@,
            r matches Some(v) ==> exists|p: int|
                0 <= p < old(self)@.len() && old(self)@[p].item == (*query, v) && final(self)@ == old(self)@.remove(p),
    {
        let ghost s0 = self.repr.data@;
        let idx = self.repr.index_of(query);
        if self.repr.is_nil(idx) {
            return None;
        }
        proof {
            lemma_replace_at(s0, s0, 0, idx as int);
        }
        let v = self.delete_idx(idx);
        let ghost s1 = self.repr.data@;
        proof {
            let i = idx as int;
            lemma_replace_at(s0, s1, 0, i);
            let p = (prefix(s0, 0, i).len() + inorder(s0, 2 * i + 1).len()) as int;
            let x = s0[i].unwrap();
            assert(inorder(s0, i) == inorder(s0, 2 * i + 1) + seq![x] + inorder(s0, 2 * i + 2));
            assert(s0.len() < usize::MAX / 2);
            assert(inorder(s0, 0)[p] == x);
            K::lemma_rank_injective(x.item.0, *query);
            assert(inorder(s1, 0) =~= inorder(s0, 0).remove(p));
            lemma_sorted_remove(inorder(s0, 0), p);
            assert(x.item == (*query, v));
            assert(0 <= p < inorder(s0, 0).len() && inorder(s0, 0)[p].item == (*query, v) && inorder(s1, 0)
                == inorder(s0, 0).remove(p));
            assert(0 <= p < old(self)@.len() && old(self)@[p].item == (*query, v) && self@ == old(self)@.remove(p));
        }
        Some(v)
    }

    /// Adds `item`, whose place is the cell `target` beyond the storage: rebuilds a subtree
    /// in place when the storage is at most half full with `item`, and otherwise rebuilds the
    /// whole tree into a storage twice as large.
    fn rebalance(&mut self, target: usize, item: (K, V))
        requires
            old(self).wf(),
            old(self).repr.data@.len() < usize::MAX / 8,
            is_desc(target as int, 0),
            target >= old(self).repr.data@.len(),
            target <= 2 * old(self).repr.data@.len(),
            path_present(old(self).repr.data@, 0, target as int),
            forall|a: int| 0 <= a < prefix(old(self).repr.data@, 0, target as int).len()
                ==> erank(#[trigger] prefix(old(self).repr.data@, 0, target as int)[a]) < item.0.rank(),
            forall|b: int| 0 <= b < suffix(old(self).repr.data@, 0, target as int).len()
                ==> erank(#[trigger] suffix(old(self).repr.data@, 0, target as int)[b]) > item.0.rank(),
            forall|k: int| 0 <= k < old(self)@.len() ==> (#[trigger] old(self)@[k]).item.0.rank() != item.0.rank(),
        ensures
            final(self).wf(),
            final(self).repr.data@.len() <= 2 * old(self).repr.data@.len() + 1,
            exists|p: int| 0 <= p <= old(self)@.len() && final(self)@ == old(self)@.insert(p, Entry { item: item }),
    {
        proof {
            crate::tree_building::lemma_inorder_len(self.repr.data@, 0);
            assert forall|k: int| 0 <= k < self.repr@.len() implies (#[trigger] self.repr@[k]).item.0.rank()
                != item.0.rank() by {
                assert(self@[k] == self.repr@[k]);
            }
        }
        let size = self.repr.size();
        let capacity = self.repr.capacity();
        if 2 * (size + 1) <= capacity {
            self.repr.partial_rebuild(target, item);
            proof {
                let p = choose|p: int|
                    0 <= p <= old(self).repr@.len() && self.repr@ == old(self).repr@.insert(p, Entry { item: item });
                assert(0 <= p <= old(self)@.len() && self@ == old(self)@.insert(p, Entry { item: item }));
            }
        } else {
            self.repr.double_and_rebuild(item);
            proof {
                let p = choose|p: int|
                    0 <= p <= old(self).repr@.len() && self.repr@ == old(self).repr@.insert(p, Entry { item: item });
                assert(0 <= p <= old(self)@.len() && self@ == old(self)@.insert(p, Entry { item: item }));
            }
        }
    }

    /// Inserts `item`: replaces the value of an entry with the same key and returns the old
    /// value, or adds a new entry and returns `None`.
    pub fn insert(&mut self, item: (K, V)) -> (r: Option<V>)
        requires
            old(self).wf(),
            old(self).repr.data@.len() < usize::MAX / 8,
        ensures
            final(self).wf(),
            final(self).repr.data@.len() <= 2 * old(self).repr.data@.len() + 1,
            has_key(old(self)@, item.0) ==> exists|p: int|
                0 <= p < old(self)@.len() && old(self)@[p].item.0 == item.0 && r == Some(old(self)@[p].item.1)
                    && final(self)@ == old(self)@.update(p, Entry { item: item }),
            !has_key(old(self)@, item.0) ==> r is None && exists|p: int|
                0 <= p <= old(self)@.len() && final(self)@ == old(self)@.insert(p, Entry { item: item }),
    {
        let ghost s0 = self.repr.data@;
        let ghost e = Entry { item: item };
        let target = self.repr.index_of(&item.0);
        proof {
            crate::tree_building::lemma_inorder_len(s0, 0);
        }
        if target >= self.repr.capacity() {
            proof {
                assert forall|k: int| 0 <= k < self@.len() implies (#[trigger] self@[k]).item.0.rank() != item.0.rank() by {
                    if self@[k].item.0.rank() == item.0.rank() {
                        assert(has_key(self@, item.0));
                    }
                }
            }
            self.rebalance(target, item);
            None
        } else {
            let ghost i = target as int;
            proof {
                lemma_replace_at(s0, s0, 0, i);
            }
            let old_node = self.repr.place(target, Entry::from_tuple(item));
            let ghost s1 = self.repr.data@;
            proof {
                let pre = prefix(s0, 0, i);
                let suf = suffix(s0, 0, i);
                lemma_children(i);
                assert(is_desc(i, i));
                assert forall|j: int| 0 <= j < s0.len() && #[trigger] is_desc(j, 2 * i + 1) implies s0[j] == s1[j] by {
                    assert(j > i);
                }
                assert forall|j: int| 0 <= j < s0.len() && #[trigger] is_desc(j, 2 * i + 2) implies s0[j] == s1[j] by {
                    assert(j > i);
                }
                lemma_frame(s0, s1, 2 * i + 1);
                lemma_frame(s0, s1, 2 * i + 2);
                assert(same_outside(s0, s1, i));
                lemma_replace_at(s0, s1, 0, i);
                lemma_sorted_parts(pre, inorder(s0, i), suf);
                if present(s0, i) {
                    let x = s0[i].unwrap();
                    let l = inorder(s0, 2 * i + 1);
                    let p = (pre.len() + l.len()) as int;
                    assert(inorder(s0, i) == l + seq![x] + inorder(s0, 2 * i + 2));
                    assert(inorder(s0, 0)[p] == x);
                    K::lemma_rank_injective(x.item.0, item.0);
                    assert(inorder(s1, 0) =~= inorder(s0, 0).update(p, e));
                    assert(sorted_entries(inorder(s1, 0))) by {
                        let t = inorder(s1, 0);
                        let t0 = inorder(s0, 0);
                        assert forall|a: int, b: int| 0 <= a <= b < t.len() implies erank(#[trigger] t[a]) <= erank(
                            #[trigger] t[b],
                        ) by {
                            assert(erank(t[a]) == erank(t0[a]));
                            assert(erank(t[b]) == erank(t0[b]));
                        }
                    }
                } else {
                    assert(all_none(s0, 2 * i + 1) && all_none(s0, 2 * i + 2));
                    lemma_all_none(s0, 2 * i + 1);
                    lemma_all_none(s0, 2 * i + 2);
                    lemma_all_none(s1, 2 * i + 1);
                    lemma_all_none(s1, 2 * i + 2);
                    assert(inorder(s0, i) =~= Seq::<Entry<K, V>>::empty());
                    assert(inorder(s1, i) =~= seq![e]);
                    assert(inorder(s1, 0) =~= inorder(s0, 0).insert(pre.len() as int, e));
                    assert(sorted_entries(seq![e]));
                    assert(entries_le(pre, seq![e]));
                    assert(entries_le(seq![e], suf));
                    lemma_sorted_join(pre, seq![e], suf);
                    assert(!has_key(inorder(s0, 0), item.0));
                }
            }
            match old_node {
                Some(n) => Some(n.into_tuple().1),
                None => None,
            }
        }
    }

    /// Deletes the entries that `driver` selects and `filter` accepts, and feeds them into
    /// `sink`, in order.
    pub fn filter_with_driver<D: TraversalDriver<K>, F: ItemFilter<K>, S: Sink<(K, V)>>(
        &mut self,
        driver: &D,
        filter: F,
        sink: S,
    ) -> (out: S)
        requires
            old(self).wf(),
            interval_driver(driver),
        ensures
            sink.faithful() ==> out.faithful(),
            final(self).wf(),
            final(self).repr.data@.len() == old(self).repr.data@.len(),
            final(self)@ == kept_by(filter_sel(driver, filter), old(self)@),
            out.consumed() == sink.consumed() + pairs(picked_by(filter_sel(driver, filter), old(self)@)),
    {
        let mut sink = sink;
        let mut filter = filter;
        self.repr.filter_all(driver, &mut filter, &mut sink);
        sink
    }

    /// Deletes the entries whose keys lie in `range` (and those whose key is its start) and
    /// feeds them into `sink`, in order.
    pub fn delete_range<S: Sink<(K, V)>>(&mut self, range: Range<K>, sink: S) -> (out: S)
        requires
            old(self).wf(),
        ensures
            sink.faithful() ==> out.faithful(),
            final(self).wf(),
            final(self).repr.data@.len() == old(self).repr.data@.len(),
            final(self)@ == kept(&(RangeDriver { range: range }), old(self)@),
            out.consumed() == sink.consumed() + pairs(picked(&(RangeDriver { range: range }), old(self)@)),
    {
        let driver = RangeDriver::new(range);
        proof {
            driver.lemma_interval();
            lemma_kept_as_by(&driver, filter_sel(&driver, NoopFilter), old(self)@);
        }
        self.filter_with_driver(&driver, NoopFilter, sink)
    }

    /// Deletes the entries whose keys lie in `range` (and those whose key is its start) and
    /// that `filter` accepts, and feeds them into `sink`, in order.
    pub fn filter_range<F: ItemFilter<K>, S: Sink<(K, V)>>(&mut self, range: Range<K>, filter: F, sink: S) -> (out: S)
        requires
            old(self).wf(),
        ensures
            sink.faithful() ==> out.faithful(),
            final(self).wf(),
            final(self).repr.data@.len() == old(self).repr.data@.len(),
            final(self)@ == kept_by(filter_sel(&(RangeDriver { range: range }), filter), old(self)@),
            out.consumed() == sink.consumed() + pairs(
                picked_by(filter_sel(&(RangeDriver { range: range }), filter), old(self)@),
            ),
    {
        let driver = RangeDriver::new(range);
        proof {
            driver.lemma_interval();
        }
        self.filter_with_driver(&driver, filter, sink)
    }

    /// Deletes the entries whose keys lie in `range` and feeds them into `sink`, in order.
    pub fn delete_range_ref<'a, S: Sink<(K, V)>>(&mut self, range: Range<&'a K>, sink: S) -> (out: S)
        requires
            old(self).wf(),
        ensures
            sink.faithful() ==> out.faithful(),
            final(self).wf(),
            final(self).repr.data@.len() == old(self).repr.data@.len(),
            final(self)@ == kept(&(RangeRefDriver { range: range }), old(self)@),
            out.consumed() == sink.consumed() + pairs(picked(&(RangeRefDriver { range: range }), old(self)@)),
    {
        let driver = RangeRefDriver::new(range);
        proof {
            driver.lemma_interval();
            lemma_kept_as_by(&driver, filter_sel(&driver, NoopFilter), old(self)@);
        }
        self.filter_with_driver(&driver, NoopFilter, sink)
    }

    /// Deletes the entries whose keys lie in `range` and that `filter` accepts, and feeds
    /// them into `sink`, in order.
    pub fn filter_range_ref<'a, F: ItemFilter<K>, S: Sink<(K, V)>>(
        &mut self,
        range: Range<&'a K>,
        filter: F,
        sink: S,
    ) -> (out: S)
        requires
            old(self).wf(),
        ensures
            sink.faithful() ==> out.faithful(),
            final(self).wf(),
            final(self).repr.data@.len() == old(self).repr.data@.len(),
            final(self)@ == kept_by(filter_sel(&(RangeRefDriver { range: range }), filter), old(self)@),
            out.consumed() == sink.consumed() + pairs(
                picked_by(filter_sel(&(RangeRefDriver { range: range }), filter), old(self)@),
            ),
    {
        let driver = RangeRefDriver::new(range);
        proof {
            driver.lemma_interval();
        }
        self.filter_with_driver(&driver, filter, sink)
    }

    /// Feeds references to the pairs of the subtree at `idx` that `drv` selects into `sink`,
    /// in order.
    fn query_rec<'a, D: TraversalDriver<K>, S: Sink<&'a (K, V)>>(&'a self, drv: &D, idx: usize, sink: &mut S)
        requires
            self.wf(),
            idx <= 2 * self.repr.data@.len(),
            clean(self.repr.data@, idx as int),
            sorted_entries(inorder(self.repr.data@, idx as int)),
            interval_driver(drv),
        ensures
            old(sink).faithful() ==> final(sink).faithful(),
            derefs(final(sink).consumed()) == derefs(old(sink).consumed()) + pairs(
                picked(drv, inorder(self.repr.data@, idx as int)),
            ),
        decreases cell_measure(self.repr.data@.len() as int, idx as int),
    {
        let ghost s = self.repr.data@;
        let ghost i = idx as int;
        let ghost out0 = derefs(sink.consumed());
        if self.repr.is_nil(idx) {
            proof {
                assert(inorder(s, i) =~= Seq::<Entry<K, V>>::empty());
                crate::bulk_delete::lemma_none_picked(drv, inorder(s, i));
                crate::bulk_delete::lemma_items_empty::<K, V>();
                assert(derefs(sink.consumed()) =~= out0 + pairs(picked(drv, inorder(s, i))));
            }
            return;
        }
        let ghost l = inorder(s, 2 * i + 1);
        let ghost r = inorder(s, 2 * i + 2);
        let ghost x = s[i].unwrap();
        proof {
            lemma_children(i);
            lemma_sorted_split(s, i);
            crate::bulk_delete::lemma_split_kept(drv, l, x, r);
            crate::bulk_delete::lemma_items_empty::<K, V>();
        }
        let d = drv.decide(self.repr.key(idx));
        if d.left() {
            self.query_rec(drv, lefti(idx), sink);
        } else {
            proof {
                assert forall|k: int| 0 <= k < l.len() implies !selects(drv, (#[trigger] l[k]).item.0) by {
                    crate::bulk_delete::lemma_driver_order(drv, l[k].item.0, x.item.0);
                }
                crate::bulk_delete::lemma_none_picked(drv, l);
                assert(derefs(sink.consumed()) =~= out0 + pairs(picked(drv, l)));
            }
        }
        let ghost out1 = derefs(sink.consumed());
        if d.left() && d.right() {
            sink.consume(self.repr.node(idx).as_tuple());
            proof {
                assert(derefs(sink.consumed()) =~= out1 + seq![x.item]);
            }
        } else {
            proof {
                assert(derefs(sink.consumed()) =~= out1 + Seq::<(K, V)>::empty());
            }
        }
        let ghost out2 = derefs(sink.consumed());
        if !d.left() || d.right() {
            self.query_rec(drv, righti(idx), sink);
        } else {
            proof {
                assert forall|k: int| 0 <= k < r.len() implies !selects(drv, (#[trigger] r[k]).item.0) by {
                    crate::bulk_delete::lemma_driver_order(drv, x.item.0, r[k].item.0);
                }
                crate::bulk_delete::lemma_none_picked(drv, r);
                assert(derefs(sink.consumed()) =~= out2 + pairs(picked(drv, r)));
            }
        }
        proof {
            let mid = if selects(drv, x.item.0) { seq![x] } else { Seq::<Entry<K, V>>::empty() };
            crate::bulk_delete::lemma_items_add(picked(drv, l), mid);
            crate::bulk_delete::lemma_items_add(picked(drv, l) + mid, picked(drv, r));
            crate::bulk_delete::lemma_items_single(x);
            assert(derefs(sink.consumed()) =~= out0 + pairs(picked(drv, inorder(s, i))));
        }
    }

    /// Feeds references to the pairs whose keys lie in `query` (and those whose key is its
    /// start) into `sink`, in order.
    pub fn query_range<'a, S: Sink<&'a (K, V)>>(&'a self, query: Range<K>, sink: S) -> (out: S)
        requires
            self.wf(),
        ensures
            sink.faithful() ==> out.faithful(),
            derefs(out.consumed()) == derefs(sink.consumed()) + pairs(picked(&(RangeDriver { range: query }), self@)),
    {
        let driver = RangeDriver::new(query);
        proof {
            driver.lemma_interval();
        }
        let mut sink = sink;
        self.query_rec(&driver, 0, &mut sink);
        sink
    }
}

impl<K: Key, V: Copy> Clone for PlTree<K, V> {
    /// A copy of the tree with the same cells.
    fn clone(&self) -> (r: Self)
        ensures
            r.repr.data@ == self.repr.data@,
            r@ == self@,
            self.wf() ==> r.wf(),
    {
        PlTree { repr: self.repr.clone() }
    }
}

impl<K: Key, V: Copy> PlTree<K, V> {
    /// Copies the contents of `master`, a tree with as many cells, into this tree.
    pub fn refill(&mut self, master: &Self)
        requires
            old(self).wf(),
            master.wf(),
            old(self).repr.data@.len() == master.repr.data@.len(),
        ensures
            final(self).wf(),
            final(self).repr.data@ == master.repr.data@,
            final(self)@ == master@,
    {
        self.repr.refill(&master.repr);
    }
}

} // verus!
