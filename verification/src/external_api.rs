use vstd::prelude::*;

use crate::bulk_delete::{kept, kept_by, pairs, picked, picked_by};
use crate::item_filter::{filter_sel, ItemFilter};
use crate::drivers::{RangeDriver, RangeRefDriver};
use crate::key::Key;
use crate::node::Entry;
use crate::plain_tree::{derefs, PlTree};
use crate::sink::{firsts, lemma_unit_pairs_append, unit_pairs, RefSinkAdapter, Sink, SinkAdapter};
use crate::tree_building::{sorted_items, to_entries, with_rank};
use crate::tree_repr::has_key;
use crate::interval::Interval;
use crate::interval_tree::{overlapping, IvTree};
use crate::interval_delete::{overlap_kept, overlap_sel};
use std::ops::Range;

verus! {

/// Pairs each item with `()`.
pub fn conv_to_tuple_vec<T>(items: Vec<T>) -> (r: Vec<(T, ())>)
    ensures
        r@ == unit_pairs(items@),
{
    let mut items = items;
    let ghost orig = items@;
    let mut rev: Vec<T> = Vec::new();
    while items.len() > 0
        invariant
            items@ == orig.take(items@.len() as int),
            items@.len() <= orig.len(),
            rev@.len() == orig.len() - items@.len(),
            forall|k: int| 0 <= k < rev@.len() ==> #[trigger] rev@[k] == orig[orig.len() - 1 - k],
        decreases items@.len(),
    {
        let x = items.pop().unwrap();
        rev.push(x);
        proof {
            assert(items@ =~= orig.take(items@.len() as int));
        }
    }
    let mut r: Vec<(T, ())> = Vec::new();
    while rev.len() > 0
        invariant
            r@.len() + rev@.len() == orig.len(),
            forall|k: int| 0 <= k < rev@.len() ==> #[trigger] rev@[k] == orig[orig.len() - 1 - k],
            forall|k: int| 0 <= k < r@.len() ==> #[trigger] r@[k] == (orig[k], ()),
        decreases rev@.len(),
    {
        let x = rev.pop().unwrap();
        r.push((x, ()));
    }
    proof {
        assert(r@ =~= unit_pairs(orig));
    }
    r
}

/// A map from keys to values that supports fast bulk deletion of key ranges.  Duplicate keys
/// are allowed.
pub struct TeardownMap<K, V> {
    pub internal: PlTree<K, V>,
}

impl<K: Key, V> View for TeardownMap<K, V> {
    type V = Seq<Entry<K, V>>;

    /// The entries of the map, ordered by key.
    open spec fn view(&self) -> Seq<Entry<K, V>> {
        self.internal@
    }
}

impl<K: Key, V> TeardownMap<K, V> {
    /// The number of cells of the storage.
    pub open spec fn storage_len(&self) -> int {
        self.internal.repr.data@.len() as int
    }

    pub open spec fn wf(&self) -> bool {
        self.internal.wf()
    }

    /// A map of the given pairs, in any order.
    pub fn new(items: Vec<(K, V)>) -> (m: Self)
        requires
            items@.len() < usize::MAX / 4,
        ensures
            m.wf(),
            pairs(m@).to_multiset() == items@.to_multiset(),
            forall|k: int| #[trigger] with_rank(pairs(m@), k) == with_rank(items@, k),
            m.storage_len() == items@.len(),
    {
        TeardownMap { internal: PlTree::new(items) }
    }

    /// A map of the given pairs, which must be sorted by key.
    pub fn with_sorted(sorted: Vec<(K, V)>) -> (m: Self)
        requires
            sorted_items(sorted@),
            sorted@.len() < usize::MAX / 4,
        ensures
            m.wf(),
            m@ == to_entries(sorted@),
    {
        TeardownMap { internal: PlTree::with_sorted(sorted) }
    }

    pub fn from_internal(internal: PlTree<K, V>) -> (m: Self)
        ensures
            m.internal == internal,
    {
        TeardownMap { internal: internal }
    }

    pub fn internal(&self) -> (t: &PlTree<K, V>)
        ensures
            *t == self.internal,
    {
        &self.internal
    }

    pub fn into_internal(self) -> (t: PlTree<K, V>)
        ensures
            t == self.internal,
    {
        self.internal
    }

    /// The value of an entry with the key `query`.
    pub fn find(&self, query: &K) -> (r: Option<&V>)
        requires
            self.wf(),
        ensures
            r is Some <==> has_key(self@, *query),
            r matches Some(v) ==> self@.contains(Entry { item: (*query, *v) }),
    {
        self.internal.find(query)
    }

    /// The map holds an entry with the key `query`.
    pub fn contains_key(&self, query: &K) -> (r: bool)
        requires
            self.wf(),
        ensures
            r == has_key(self@, *query),
    {
        self.internal.contains(query)
    }

    /// Feeds references to the pairs whose keys lie in `range` (and those whose key is its
    /// start) into `sink`, in order.
    pub fn query_range<'a, S: Sink<&'a (K, V)>>(&'a self, range: Range<K>, sink: S) -> (out: S)
        requires
            self.wf(),
        ensures
            sink.faithful() ==> out.faithful(),
            derefs(out.consumed()) == derefs(sink.consumed()) + pairs(picked(&(RangeDriver { range: range }), self@)),
    {
        self.internal.query_range(range, sink)
    }

    /// Deletes an entry with the key `query` and returns its value.
    pub fn delete(&mut self, query: &K) -> (r: Option<V>)
        requires
            old(self).wf(),
        ensures
            final(self).wf(),
            final(self).storage_len() == old(self).storage_len(),
            r is Some <==> has_key(old(self)@, *query),
            r is None ==> final(self)@ == old(self)@,
            r matches Some(v) ==> exists|p: int|
                0 <= p < old(self)@.len() && old(self)@[p].item == (*query, v) && final(self)@ == old(self)@.remove(p),
    {
        let r = self.internal.delete(query);
        proof {
            if r is Some {
                let v = r->0;
                let p = choose|p: int|
                    0 <= p < old(self).internal@.len() && old(self).internal@[p].item == (*query, v)
                        && self.internal@ == old(self).internal@.remove(p);
                assert(0 <= p < old(self)@.len() && old(self)@[p].item == (*query, v) && self@ == old(self)@.remove(p));
            }
        }
        r
    }

    /// Inserts `item`, replacing the value of an entry with the same key.
    pub fn insert(&mut self, item: (K, V)) -> (r: Option<V>)
        requires
            old(self).wf(),
            old(self).internal.repr.data@.len() < usize::MAX / 8,
        ensures
            final(self).wf(),
            final(self).internal.repr.data@.len() <= 2 * old(self).internal.repr.data@.len() + 1,
            has_key(old(self)@, item.0) ==> exists|p: int|
                0 <= p < old(self)@.len() && old(self)@[p].item.0 == item.0 && r == Some(old(self)@[p].item.1)
                    && final(self)@ == old(self)@.update(p, Entry { item: item }),
            !has_key(old(self)@, item.0) ==> r is None && exists|p: int|
                0 <= p <= old(self)@.len() && final(self)@ == old(self)@.insert(p, Entry { item: item }),
    {
        self.internal.insert(item)
    }

    /// Deletes the entries whose keys lie in `range` (and those whose key is its start) and
    /// feeds them into `sink`, in order.
    pub fn delete_range<S: Sink<(K, V)>>(&mut self, range: Range<K>, sink: S) -> (out: S)
        requires
            old(self).wf(),
        ensures
            sink.faithful() ==> out.faithful(),
            final(self).wf(),
            final(self).storage_len() == old(self).storage_len(),
            final(self)@ == kept(&(RangeDriver { range: range }), old(self)@),
            out.consumed() == sink.consumed() + pairs(picked(&(RangeDriver { range: range }), old(self)@)),
    {
        self.internal.delete_range(range, sink)
    }

    /// Deletes the entries whose keys lie in `range` and feeds them into `sink`, in order.
    pub fn delete_range_ref<'a, S: Sink<(K, V)>>(&mut self, range: Range<&'a K>, sink: S) -> (out: S)
        requires
            old(self).wf(),
        ensures
            sink.faithful() ==> out.faithful(),
            final(self).wf(),
            final(self).storage_len() == old(self).storage_len(),
            final(self)@ == kept(&(RangeRefDriver { range: range }), old(self)@),
            out.consumed() == sink.consumed() + pairs(picked(&(RangeRefDriver { range: range }), old(self)@)),
    {
        self.internal.delete_range_ref(range, sink)
    }

    /// Deletes the entries whose keys lie in `range` (and those whose key is its start) and
    /// that `filter` accepts, and feeds them into `sink`, in order.
    pub fn filter_range<F: ItemFilter<K>, S: Sink<(K, V)>>(&mut self, range: Range<K>, filter: F, sink: S) -> (out: S)
        requires
            old(self).wf(),
        ensures
            sink.faithful() ==> out.faithful(),
            final(self).wf(),
            final(self).storage_len() == old(self).storage_len(),
            final(self)@ == kept_by(filter_sel(&(RangeDriver { range: range }), filter), old(self)@),
            out.consumed() == sink.consumed() + pairs(
                picked_by(filter_sel(&(RangeDriver { range: range }), filter), old(self)@),
            ),
    {
        self.internal.filter_range(range, filter, sink)
    }

    /// Deletes the entries whose keys lie in `range` and that `filter` accepts, and feeds
    /// them into `sink`, in order.
    pub fn filter_range_ref<'a, F: ItemFilter<K>, S: Sink<(K, V)>>(
        &mut self,
        range: Range<&'a K>,
        filter: F,
        sink: S,
    ) -> (out: S)
        requires
            old(self).wf(),
        ensures
            sink.faithful() ==> out.faithful(),
            final(self).wf(),
            final(self).storage_len() == old(self).storage_len(),
            final(self)@ == kept_by(filter_sel(&(RangeRefDriver { range: range }), filter), old(self)@),
            out.consumed() == sink.consumed() + pairs(
                picked_by(filter_sel(&(RangeRefDriver { range: range }), filter), old(self)@),
            ),
    {
        self.internal.filter_range_ref(range, filter, sink)
    }

    /// The number of entries.
    pub fn size(&self) -> (r: usize)
        requires
            self.wf(),
        ensures
            r == self@.len(),
    {
        self.internal.size()
    }

    pub fn is_empty(&self) -> (r: bool)
        requires
            self.wf(),
        ensures
            r == (self@.len() == 0),
    {
        self.size() == 0
    }

    /// Drops every entry; the storage stays.
    pub fn clear(&mut self)
        requires
            old(self).wf(),
        ensures
            final(self).wf(),
            final(self).storage_len() == old(self).storage_len(),
            final(self)@ == Seq::<Entry<K, V>>::empty(),
    {
        self.internal.clear();
    }

    /// References to the pairs of the map, in order.
    pub fn iter<'a>(&'a self) -> (v: Vec<&'a (K, V)>)
        requires
            self.wf(),
        ensures
            v@.len() == self@.len(),
            forall|k: int| 0 <= k < v@.len() ==> *#[trigger] v@[k] == self@[k].item,
    {
        self.internal.iter()
    }

    /// The pairs of the map, in order.
    pub fn into_iter(self) -> (v: Vec<(K, V)>)
        requires
            self.wf(),
        ensures
            v@ == pairs(self@),
    {
        self.internal.into_iter()
    }
}

/// The keys of a sequence of entries.
pub open spec fn keys<K, V>(s: Seq<Entry<K, V>>) -> Seq<K> {
    s.map_values(|e: Entry<K, V>| e.item.0)
}

/// A multiset of items that supports fast bulk deletion of ranges.
pub struct TeardownSet<T> {
    pub map: TeardownMap<T, ()>,
}

impl<T: Key> View for TeardownSet<T> {
    type V = Seq<T>;

    /// The items of the set, in order.
    open spec fn view(&self) -> Seq<T> {
        keys(self.map@)
    }
}

impl<T: Key> TeardownSet<T> {
    /// The number of cells of the storage.
    pub open spec fn storage_len(&self) -> int {
        self.map.internal.repr.data@.len() as int
    }

    pub open spec fn wf(&self) -> bool {
        self.map.wf()
    }

    /// A set of the given items, in any order.
    pub fn new(items: Vec<T>) -> (s: Self)
        requires
            items@.len() < usize::MAX / 4,
        ensures
            s.wf(),
            pairs(s.map@).to_multiset() == unit_pairs(items@).to_multiset(),
            s.storage_len() == items@.len(),
    {
        let map_items = conv_to_tuple_vec(items);
        TeardownSet { map: TeardownMap::new(map_items) }
    }

    /// A set of the given items, which must be sorted.
    pub fn with_sorted(sorted: Vec<T>) -> (s: Self)
        requires
            sorted_items(unit_pairs(sorted@)),
            sorted@.len() < usize::MAX / 4,
        ensures
            s.wf(),
            s.map@ == to_entries(unit_pairs(sorted@)),
    {
        let map_items = conv_to_tuple_vec(sorted);
        TeardownSet { map: TeardownMap::with_sorted(map_items) }
    }

    pub fn from_internal(internal: PlTree<T, ()>) -> (s: Self)
        ensures
            s.map.internal == internal,
    {
        TeardownSet { map: TeardownMap::from_internal(internal) }
    }

    pub fn internal(&self) -> (t: &PlTree<T, ()>)
        ensures
            *t == self.map.internal,
    {
        self.map.internal()
    }

    /// The set holds `query`.
    pub fn contains(&self, query: &T) -> (r: bool)
        requires
            self.wf(),
        ensures
            r == has_key(self.map@, *query),
    {
        self.map.contains_key(query)
    }

    /// Feeds references to the items in `range` (and those equal to its start) into `sink`,
    /// in order.
    pub fn query_range<'a, S: Sink<&'a T>>(&'a self, range: Range<T>, sink: S) -> (out: S)
        requires
            self.wf(),
        ensures
            sink.faithful() ==> out.faithful(),
            derefs(out.consumed()) == derefs(sink.consumed()) + firsts(
                pairs(picked(&(RangeDriver { range: range }), self.map@)),
            ),
    {
        let ghost d = RangeDriver { range: range };
        let ghost in0 = derefs(sink.consumed());
        let adapter = self.map.query_range(range, RefSinkAdapter::new(sink));
        proof {
            let a0 = RefSinkAdapter { sink: sink };
            let p = pairs(picked(&d, self.map@));
            assert(derefs(a0.consumed()) =~= unit_pairs(in0));
            assert(derefs(adapter.consumed()) =~= unit_pairs(derefs(adapter.sink.consumed())));
            lemma_unit_pairs_append(derefs(adapter.sink.consumed()), in0, p);
        }
        adapter.sink
    }

    /// Deletes `query` from the set; returns whether it was there.
    pub fn delete(&mut self, query: &T) -> (r: bool)
        requires
            old(self).wf(),
        ensures
            final(self).wf(),
            final(self).storage_len() == old(self).storage_len(),
            r == has_key(old(self).map@, *query),
            !r ==> final(self).map@ == old(self).map@,
            r ==> exists|p: int|
                0 <= p < old(self).map@.len() && old(self).map@[p].item.0 == *query && final(self).map@
                    == old(self).map@.remove(p),
    {
        self.map.delete(query).is_some()
    }

    /// Deletes the items in `range` (and those equal to its start) and feeds them into
    /// `sink`, in order.
    pub fn delete_range<S: Sink<T>>(&mut self, range: Range<T>, sink: S) -> (out: S)
        requires
            old(self).wf(),
        ensures
            sink.faithful() ==> out.faithful(),
            final(self).wf(),
            final(self).storage_len() == old(self).storage_len(),
            final(self).map@ == kept(&(RangeDriver { range: range }), old(self).map@),
            out.consumed() == sink.consumed() + firsts(pairs(picked(&(RangeDriver { range: range }), old(self).map@))),
    {
        let ghost in0 = sink.consumed();
        let adapter = self.map.delete_range(range, SinkAdapter::new(sink));
        proof {
            lemma_unit_pairs_append(adapter.sink.consumed(), in0, pairs(picked(&(RangeDriver { range: range }), old(self).map@)));
        }
        adapter.sink
    }

    /// Deletes the items in `range` and feeds them into `sink`, in order.
    pub fn delete_range_ref<'a, S: Sink<T>>(&mut self, range: Range<&'a T>, sink: S) -> (out: S)
        requires
            old(self).wf(),
        ensures
            sink.faithful() ==> out.faithful(),
            final(self).wf(),
            final(self).storage_len() == old(self).storage_len(),
            final(self).map@ == kept(&(RangeRefDriver { range: range }), old(self).map@),
            out.consumed() == sink.consumed() + firsts(
                pairs(picked(&(RangeRefDriver { range: range }), old(self).map@)),
            ),
    {
        let ghost in0 = sink.consumed();
        let adapter = self.map.delete_range_ref(range, SinkAdapter::new(sink));
        proof {
            lemma_unit_pairs_append(
                adapter.sink.consumed(),
                in0,
                pairs(picked(&(RangeRefDriver { range: range }), old(self).map@)),
            );
        }
        adapter.sink
    }

    /// Deletes the items in `range` (and those equal to its start) that `filter` accepts, and
    /// feeds them into `sink`, in order.
    pub fn filter_range<F: ItemFilter<T>, S: Sink<T>>(&mut self, range: Range<T>, filter: F, sink: S) -> (out: S)
        requires
            old(self).wf(),
        ensures
            sink.faithful() ==> out.faithful(),
            final(self).wf(),
            final(self).storage_len() == old(self).storage_len(),
            final(self).map@ == kept_by(filter_sel(&(RangeDriver { range: range }), filter), old(self).map@),
            out.consumed() == sink.consumed() + firsts(
                pairs(picked_by(filter_sel(&(RangeDriver { range: range }), filter), old(self).map@)),
            ),
    {
        let ghost in0 = sink.consumed();
        let adapter = self.map.filter_range(range, filter, SinkAdapter::new(sink));
        proof {
            lemma_unit_pairs_append(
                adapter.sink.consumed(),
                in0,
                pairs(picked_by(filter_sel(&(RangeDriver { range: range }), filter), old(self).map@)),
            );
        }
        adapter.sink
    }

    /// Deletes the items in `range` that `filter` accepts, and feeds them into `sink`, in
    /// order.
    pub fn filter_range_ref<'a, F: ItemFilter<T>, S: Sink<T>>(
        &mut self,
        range: Range<&'a T>,
        filter: F,
        sink: S,
    ) -> (out: S)
        requires
            old(self).wf(),
        ensures
            sink.faithful() ==> out.faithful(),
            final(self).wf(),
            final(self).storage_len() == old(self).storage_len(),
            final(self).map@ == kept_by(filter_sel(&(RangeRefDriver { range: range }), filter), old(self).map@),
            out.consumed() == sink.consumed() + firsts(
                pairs(picked_by(filter_sel(&(RangeRefDriver { range: range }), filter), old(self).map@)),
            ),
    {
        let ghost in0 = sink.consumed();
        let adapter = self.map.filter_range_ref(range, filter, SinkAdapter::new(sink));
        proof {
            lemma_unit_pairs_append(
                adapter.sink.consumed(),
                in0,
                pairs(picked_by(filter_sel(&(RangeRefDriver { range: range }), filter), old(self).map@)),
            );
        }
        adapter.sink
    }

    /// The number of items.
    pub fn size(&self) -> (r: usize)
        requires
            self.wf(),
        ensures
            r == self.map@.len(),
    {
        self.map.size()
    }

    pub fn is_empty(&self) -> (r: bool)
        requires
            self.wf(),
        ensures
            r == (self.map@.len() == 0),
    {
        self.map.is_empty()
    }

    /// Drops every item; the storage stays.
    pub fn clear(&mut self)
        requires
            old(self).wf(),
        ensures
            final(self).wf(),
            final(self).storage_len() == old(self).storage_len(),
            final(self).map@ == Seq::<Entry<T, ()>>::empty(),
    {
        self.map.clear();
    }

    /// References to the items, in order.
    pub fn iter<'a>(&'a self) -> (v: Vec<&'a T>)
        requires
            self.wf(),
        ensures
            v@.len() == self.map@.len(),
            forall|k: int| 0 <= k < v@.len() ==> *#[trigger] v@[k] == self.map@[k].item.0,
    {
        let all = self.map.iter();
        let mut v: Vec<&'a T> = Vec::new();
        let mut k: usize = 0;
        while k < all.len()
            invariant
                k <= all@.len(),
                v@.len() == k,
                all@.len() == self.map@.len(),
                forall|j: int| 0 <= j < all@.len() ==> *#[trigger] all@[j] == self.map@[j].item,
                forall|j: int| 0 <= j < k ==> *#[trigger] v@[j] == self.map@[j].item.0,
            decreases all@.len() - k,
        {
            let pair: &'a (T, ()) = all[k];
            v.push(&pair.0);
            k = k + 1;
        }
        v
    }

    /// The items, in order.
    pub fn into_iter(self) -> (v: Vec<T>)
        requires
            self.wf(),
        ensures
            v@ == keys(self.map@),
    {
        let ghost m = self.map@;
        let all = self.map.into_iter();
        let mut rev: Vec<T> = Vec::new();
        let mut all = all;
        proof {
            crate::bulk_delete::lemma_entries_of_items(m);
        }
        while all.len() > 0
            invariant
                all@.len() <= m.len(),
                rev@.len() == m.len() - all@.len(),
                forall|j: int| 0 <= j < all@.len() ==> #[trigger] all@[j] == m[j].item,
                forall|j: int| 0 <= j < rev@.len() ==> #[trigger] rev@[j] == m[m.len() - 1 - j].item.0,
            decreases all@.len(),
        {
            let p = all.pop().unwrap();
            rev.push(p.0);
        }
        let mut v: Vec<T> = Vec::new();
        while rev.len() > 0
            invariant
                v@.len() + rev@.len() == m.len(),
                forall|j: int| 0 <= j < rev@.len() ==> #[trigger] rev@[j] == m[m.len() - 1 - j].item.0,
                forall|j: int| 0 <= j < v@.len() ==> #[trigger] v@[j] == m[j].item.0,
            decreases rev@.len(),
        {
            let x = rev.pop().unwrap();
            v.push(x);
        }
        proof {
            assert(v@ =~= keys(m));
        }
        v
    }
}

/// A map from intervals to values that supports overlap queries and fast bulk deletion of
/// the intervals that overlap a given one.  Duplicate intervals are allowed.
pub struct IntervalTeardownMap<Iv, V> {
    pub internal: IvTree<Iv, V>,
}

impl<Iv: Interval, V> View for IntervalTeardownMap<Iv, V> {
    type V = Seq<Entry<Iv, V>>;

    /// The entries of the map, ordered by interval.
    open spec fn view(&self) -> Seq<Entry<Iv, V>> {
        self.internal@
    }
}

impl<Iv: Interval, V> IntervalTeardownMap<Iv, V> {
    /// The number of cells of the storage.
    pub open spec fn storage_len(&self) -> int {
        self.internal.repr.data@.len() as int
    }

    pub open spec fn wf(&self) -> bool {
        self.internal.wf()
    }

    /// A map of the given pairs, in any order.
    pub fn new(items: Vec<(Iv, V)>) -> (m: Self)
        requires
            items@.len() < usize::MAX / 4,
        ensures
            m.wf(),
            pairs(m@).to_multiset() == items@.to_multiset(),
            forall|k: int| #[trigger] with_rank(pairs(m@), k) == with_rank(items@, k),
            m.storage_len() == items@.len(),
    {
        IntervalTeardownMap { internal: IvTree::new(items) }
    }

    /// A map of the given pairs, which must be sorted by interval.
    pub fn with_sorted(sorted: Vec<(Iv, V)>) -> (m: Self)
        requires
            sorted_items(sorted@),
            sorted@.len() < usize::MAX / 4,
        ensures
            m.wf(),
            m@ == to_entries(sorted@),
    {
        IntervalTeardownMap { internal: IvTree::with_sorted(sorted) }
    }

    pub fn from_internal(internal: IvTree<Iv, V>) -> (m: Self)
        ensures
            m.internal == internal,
    {
        IntervalTeardownMap { internal: internal }
    }

    pub fn internal(&self) -> (t: &IvTree<Iv, V>)
        ensures
            *t == self.internal,
    {
        &self.internal
    }

    /// The value of an entry with the interval `query`.
    pub fn find(&self, query: &Iv) -> (r: Option<&V>)
        requires
            self.wf(),
        ensures
            r is Some <==> has_key(self@, *query),
            r matches Some(v) ==> self@.contains(Entry { item: (*query, *v) }),
    {
        self.internal.find(query)
    }

    /// The map holds an entry with the interval `query`.
    pub fn contains_key(&self, query: &Iv) -> (r: bool)
        requires
            self.wf(),
        ensures
            r == has_key(self@, *query),
    {
        self.internal.contains(query)
    }

    /// Feeds references to the pairs whose intervals overlap `query` into `sink`, in order.
    pub fn query_overlap<'a, Q: Interval, S: Sink<&'a (Iv, V)>>(&'a self, query: &Q, sink: S) -> (out: S)
        requires
            self.wf(),
        ensures
            sink.faithful() ==> out.faithful(),
            derefs(out.consumed()) == derefs(sink.consumed()) + pairs(overlapping(self@, query.lo(), query.hi())),
    {
        self.internal.query_overlap(query, sink)
    }

    /// Deletes the entries whose intervals overlap `query` and feeds them into `sink`, in
    /// order.
    pub fn delete_overlap<Q: Interval, S: Sink<(Iv, V)>>(&mut self, query: &Q, sink: S) -> (out: S)
        requires
            old(self).wf(),
        ensures
            sink.faithful() ==> out.faithful(),
            final(self).wf(),
            final(self).storage_len() == old(self).storage_len(),
            final(self)@ == overlap_kept(old(self)@, query.lo(), query.hi()),
            out.consumed() == sink.consumed() + pairs(overlapping(old(self)@, query.lo(), query.hi())),
    {
        self.internal.delete_overlap(query, sink)
    }

    /// Deletes the entries whose intervals overlap `query` and that `filter` accepts, and
    /// feeds them into `sink`, in order.
    pub fn filter_overlap<Q: Interval, F: ItemFilter<Iv>, S: Sink<(Iv, V)>>(&mut self, query: &Q, filter: F, sink: S) -> (out: S)
        requires
            old(self).wf(),
        ensures
            sink.faithful() ==> out.faithful(),
            final(self).wf(),
            final(self).storage_len() == old(self).storage_len(),
            final(self)@ == kept_by(overlap_sel(query.lo(), query.hi(), filter), old(self)@),
            out.consumed() == sink.consumed() + pairs(picked_by(overlap_sel(query.lo(), query.hi(), filter), old(self)@)),
    {
        self.internal.filter_overlap(query, sink, filter)
    }

    /// Deletes an entry with the interval `query` and returns its value.
    pub fn delete(&mut self, query: &Iv) -> (r: Option<V>)
        requires
            old(self).wf(),
        ensures
            final(self).wf(),
            final(self).storage_len() == old(self).storage_len(),
            r is Some <==> has_key(old(self)@, *query),
            r is None ==> final(self)@ == old(self)@,
            r matches Some(v) ==> exists|p: int|
                0 <= p < old(self)@.len() && old(self)@[p].item == (*query, v) && final(self)@ == old(self)@.remove(p),
    {
        let r = self.internal.delete(query);
        proof {
            if r is Some {
                let v = r->0;
                let p = choose|p: int|
                    0 <= p < old(self).internal@.len() && old(self).internal@[p].item == (*query, v)
                        && self.internal@ == old(self).internal@.remove(p);
                assert(0 <= p < old(self)@.len() && old(self)@[p].item == (*query, v) && self@ == old(self)@.remove(p));
            }
        }
        r
    }

    /// The number of entries.
    pub fn size(&self) -> (r: usize)
        requires
            self.wf(),
        ensures
            r == self@.len(),
    {
        self.internal.size()
    }

    pub fn is_empty(&self) -> (r: bool)
        requires
            self.wf(),
        ensures
            r == (self@.len() == 0),
    {
        self.size() == 0
    }

    /// Drops every entry; the storage stays.
    pub fn clear(&mut self)
        requires
            old(self).wf(),
        ensures
            final(self).wf(),
            final(self).storage_len() == old(self).storage_len(),
            final(self)@ == Seq::<Entry<Iv, V>>::empty(),
    {
        self.internal.clear();
    }

    /// References to the pairs of the map, in order.
    pub fn iter<'a>(&'a self) -> (v: Vec<&'a (Iv, V)>)
        requires
            self.wf(),
        ensures
            v@.len() == self@.len(),
            forall|k: int| 0 <= k < v@.len() ==> *#[trigger] v@[k] == self@[k].item,
    {
        self.internal.iter()
    }

    /// The pairs of the map, in order.
    pub fn into_iter(self) -> (v: Vec<(Iv, V)>)
        requires
            self.wf(),
        ensures
            v@ == pairs(self@),
    {
        self.internal.into_iter()
    }
}

/// A multiset of intervals that supports overlap queries and fast bulk deletion of the
/// intervals that overlap a given one.
pub struct IntervalTeardownSet<Iv> {
    pub map: IntervalTeardownMap<Iv, ()>,
}

impl<Iv: Interval> IntervalTeardownSet<Iv> {
    /// The number of cells of the storage.
    pub open spec fn storage_len(&self) -> int {
        self.map.internal.repr.data@.len() as int
    }

    pub open spec fn wf(&self) -> bool {
        self.map.wf()
    }

    /// A set of the given intervals, in any order.
    pub fn new(items: Vec<Iv>) -> (s: Self)
        requires
            items@.len() < usize::MAX / 4,
        ensures
            s.wf(),
            pairs(s.map@).to_multiset() == unit_pairs(items@).to_multiset(),
            s.storage_len() == items@.len(),
    {
        let map_items = conv_to_tuple_vec(items);
        IntervalTeardownSet { map: IntervalTeardownMap::new(map_items) }
    }

    /// A set of the given intervals, which must be sorted.
    pub fn with_sorted(sorted: Vec<Iv>) -> (s: Self)
        requires
            sorted_items(unit_pairs(sorted@)),
            sorted@.len() < usize::MAX / 4,
        ensures
            s.wf(),
            s.map@ == to_entries(unit_pairs(sorted@)),
    {
        let map_items = conv_to_tuple_vec(sorted);
        IntervalTeardownSet { map: IntervalTeardownMap::with_sorted(map_items) }
    }

    pub fn from_internal(internal: IvTree<Iv, ()>) -> (s: Self)
        ensures
            s.map.internal == internal,
    {
        IntervalTeardownSet { map: IntervalTeardownMap::from_internal(internal) }
    }

    pub fn internal(&self) -> (t: &IvTree<Iv, ()>)
        ensures
            *t == self.map.internal,
    {
        self.map.internal()
    }

    /// The set holds `query`.
    pub fn contains(&self, query: &Iv) -> (r: bool)
        requires
            self.wf(),
        ensures
            r == has_key(self.map@, *query),
    {
        self.map.contains_key(query)
    }

    /// Feeds references to the intervals that overlap `query` into `sink`, in order.
    pub fn query_overlap<'a, Q: Interval, S: Sink<&'a Iv>>(&'a self, query: &Q, sink: S) -> (out: S)
        requires
            self.wf(),
        ensures
            sink.faithful() ==> out.faithful(),
            derefs(out.consumed()) == derefs(sink.consumed()) + firsts(
                pairs(overlapping(self.map@, query.lo(), query.hi())),
            ),
    {
        let ghost in0 = derefs(sink.consumed());
        let adapter = self.map.query_overlap(query, RefSinkAdapter::new(sink));
        proof {
            let a0 = RefSinkAdapter { sink: sink };
            let p = pairs(overlapping(self.map@, query.lo(), query.hi()));
            assert(derefs(a0.consumed()) =~= unit_pairs(in0));
            assert(derefs(adapter.consumed()) =~= unit_pairs(derefs(adapter.sink.consumed())));
            lemma_unit_pairs_append(derefs(adapter.sink.consumed()), in0, p);
        }
        adapter.sink
    }

    /// Deletes the intervals that overlap `query` and feeds them into `sink`, in order.
    pub fn delete_overlap<Q: Interval, S: Sink<Iv>>(&mut self, query: &Q, sink: S) -> (out: S)
        requires
            old(self).wf(),
        ensures
            sink.faithful() ==> out.faithful(),
            final(self).wf(),
            final(self).storage_len() == old(self).storage_len(),
            final(self).map@ == overlap_kept(old(self).map@, query.lo(), query.hi()),
            out.consumed() == sink.consumed() + firsts(pairs(overlapping(old(self).map@, query.lo(), query.hi()))),
    {
        let ghost in0 = sink.consumed();
        let adapter = self.map.delete_overlap(query, SinkAdapter::new(sink));
        proof {
            lemma_unit_pairs_append(adapter.sink.consumed(), in0, pairs(overlapping(old(self).map@, query.lo(), query.hi())));
        }
        adapter.sink
    }

    /// Deletes the intervals that overlap `query` and that `filter` accepts, and feeds them
    /// into `sink`, in order.
    pub fn filter_overlap<Q: Interval, F: ItemFilter<Iv>, S: Sink<Iv>>(&mut self, query: &Q, filter: F, sink: S) -> (out: S)
        requires
            old(self).wf(),
        ensures
            sink.faithful() ==> out.faithful(),
            final(self).wf(),
            final(self).storage_len() == old(self).storage_len(),
            final(self).map@ == kept_by(overlap_sel(query.lo(), query.hi(), filter), old(self).map@),
            out.consumed() == sink.consumed() + firsts(
                pairs(picked_by(overlap_sel(query.lo(), query.hi(), filter), old(self).map@)),
            ),
    {
        let ghost in0 = sink.consumed();
        let adapter = self.map.filter_overlap(query, filter, SinkAdapter::new(sink));
        proof {
            lemma_unit_pairs_append(
                adapter.sink.consumed(),
                in0,
                pairs(picked_by(overlap_sel(query.lo(), query.hi(), filter), old(self).map@)),
            );
        }
        adapter.sink
    }

    /// Deletes the interval `query`; returns whether it was there.
    pub fn delete(&mut self, query: &Iv) -> (r: bool)
        requires
            old(self).wf(),
        ensures
            final(self).wf(),
            final(self).storage_len() == old(self).storage_len(),
            r == has_key(old(self).map@, *query),
            !r ==> final(self).map@ == old(self).map@,
            r ==> exists|p: int|
                0 <= p < old(self).map@.len() && old(self).map@[p].item.0 == *query && final(self).map@
                    == old(self).map@.remove(p),
    {
        self.map.delete(query).is_some()
    }

    /// The number of intervals.
    pub fn size(&self) -> (r: usize)
        requires
            self.wf(),
        ensures
            r == self.map@.len(),
    {
        self.map.size()
    }

    pub fn is_empty(&self) -> (r: bool)
        requires
            self.wf(),
        ensures
            r == (self.map@.len() == 0),
    {
        self.map.is_empty()
    }

    /// Drops every interval; the storage stays.
    pub fn clear(&mut self)
        requires
            old(self).wf(),
        ensures
            final(self).wf(),
            final(self).storage_len() == old(self).storage_len(),
            final(self).map@ == Seq::<Entry<Iv, ()>>::empty(),
    {
        self.map.clear();
    }

    /// References to the intervals, in order.
    pub fn iter<'a>(&'a self) -> (v: Vec<&'a Iv>)
        requires
            self.wf(),
        ensures
            v@.len() == self.map@.len(),
            forall|k: int| 0 <= k < v@.len() ==> *#[trigger] v@[k] == self.map@[k].item.0,
    {
        let all = self.map.iter();
        let mut v: Vec<&'a Iv> = Vec::new();
        let mut k: usize = 0;
        while k < all.len()
            invariant
                k <= all@.len(),
                v@.len() == k,
                all@.len() == self.map@.len(),
                forall|j: int| 0 <= j < all@.len() ==> *#[trigger] all@[j] == self.map@[j].item,
                forall|j: int| 0 <= j < k ==> *#[trigger] v@[j] == self.map@[j].item.0,
            decreases all@.len() - k,
        {
            let pair: &'a (Iv, ()) = all[k];
            v.push(&pair.0);
            k = k + 1;
        }
        v
    }
}

impl<K: Key, V: Copy> Clone for TeardownMap<K, V> {
    /// A copy with the same contents and storage size.
    fn clone(&self) -> (r: Self)
        ensures
            r.storage_len() == self.storage_len(),
            r@ == self@,
            self.wf() ==> r.wf(),
    {
        TeardownMap { internal: self.internal.clone() }
    }
}

impl<K: Key, V: Copy> TeardownMap<K, V> {
    /// Copies the contents of `master`, which has the same storage size (as a clone of it
    /// has), into this one; the storage is reused.
    pub fn refill(&mut self, master: &Self)
        requires
            old(self).wf(),
            master.wf(),
            old(self).storage_len() == master.storage_len(),
        ensures
            final(self).wf(),
            final(self)@ == master@,
            final(self).storage_len() == master.storage_len(),
    {
        self.internal.refill(&master.internal);
    }
}

impl<T: Key> Clone for TeardownSet<T> {
    /// A copy with the same contents and storage size.
    fn clone(&self) -> (r: Self)
        ensures
            r.storage_len() == self.storage_len(),
            r.map@ == self.map@,
            self.wf() ==> r.wf(),
    {
        TeardownSet { map: self.map.clone() }
    }
}

impl<T: Key> TeardownSet<T> {
    /// Copies the contents of `master`, which has the same storage size (as a clone of it
    /// has), into this one; the storage is reused.
    pub fn refill(&mut self, master: &Self)
        requires
            old(self).wf(),
            master.wf(),
            old(self).storage_len() == master.storage_len(),
        ensures
            final(self).wf(),
            final(self).map@ == master.map@,
            final(self).storage_len() == master.storage_len(),
    {
        self.map.refill(&master.map);
    }
}

impl<Iv: Interval, V: Copy> Clone for IntervalTeardownMap<Iv, V> {
    /// A copy with the same contents and storage size.
    fn clone(&self) -> (r: Self)
        ensures
            r.storage_len() == self.storage_len(),
            r@ == self@,
            self.wf() ==> r.wf(),
    {
        IntervalTeardownMap { internal: self.internal.clone() }
    }
}

impl<Iv: Interval, V: Copy> IntervalTeardownMap<Iv, V> {
    /// Copies the contents of `master`, which has the same storage size (as a clone of it
    /// has), into this one; the storage is reused.
    pub fn refill(&mut self, master: &Self)
        requires
            old(self).wf(),
            master.wf(),
            old(self).storage_len() == master.storage_len(),
        ensures
            final(self).wf(),
            final(self)@ == master@,
            final(self).storage_len() == master.storage_len(),
    {
        self.internal.refill(&master.internal);
    }
}

impl<Iv: Interval> Clone for IntervalTeardownSet<Iv> {
    /// A copy with the same contents and storage size.
    fn clone(&self) -> (r: Self)
        ensures
            r.storage_len() == self.storage_len(),
            r.map@ == self.map@,
            self.wf() ==> r.wf(),
    {
        IntervalTeardownSet { map: self.map.clone() }
    }
}

impl<Iv: Interval> IntervalTeardownSet<Iv> {
    /// Copies the contents of `master`, which has the same storage size (as a clone of it
    /// has), into this one; the storage is reused.
    pub fn refill(&mut self, master: &Self)
        requires
            old(self).wf(),
            master.wf(),
            old(self).storage_len() == master.storage_len(),
        ensures
            final(self).wf(),
            final(self).map@ == master.map@,
            final(self).storage_len() == master.storage_len(),
    {
        self.map.refill(&master.map);
    }
}

} // verus!
