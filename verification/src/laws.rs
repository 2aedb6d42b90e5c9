use vstd::prelude::*;

use crate::bulk_delete::{
    kept, kept_by, lemma_by_len, lemma_by_unfold, lemma_kept_as_by, lemma_kept_by_sorted, lemma_kept_unfold,
    lemma_filter_sorted, picked, picked_by,
};
use crate::drivers::{selects, TraversalDriver};
use crate::item_filter::{filter_sel, NoopFilter};
use crate::key::Key;
use crate::node::Entry;
use crate::tree_spec::sorted_entries;
use crate::tree_repr::has_key;
use crate::interval::{overlaps_spec, Interval};
use crate::interval_delete::{lemma_overlap_noop, overlap_kept, overlap_sel};
use crate::interval_tree::overlapping;
use crate::bulk_delete::pairs;
use crate::drivers::RangeDriver;
use crate::plain_tree::derefs;
use crate::sink::{RefCloningSink, Sink};
use std::ops::Range;

verus! {

/// A bulk deletion splits the entries: what stays in the tree and what goes to the sink
/// together are exactly the entries that were there, and their numbers add up.
pub proof fn law_partition<K, V>(sel: spec_fn(K) -> bool, s: Seq<Entry<K, V>>)
    ensures
        kept_by(sel, s).to_multiset().add(picked_by(sel, s).to_multiset()) == s.to_multiset(),
        kept_by(sel, s).len() + picked_by(sel, s).len() == s.len(),
    decreases s.len(),
{
    broadcast use vstd::seq_lib::group_to_multiset_ensures, vstd::multiset::group_multiset_axioms;

    lemma_by_len(sel, s);
    lemma_by_unfold(sel, s);
    reveal_with_fuel(Seq::filter, 1);
    if s.len() == 0 {
        assert(kept_by(sel, s) =~= Seq::<Entry<K, V>>::empty());
        assert(picked_by(sel, s) =~= Seq::<Entry<K, V>>::empty());
        assert(kept_by(sel, s).to_multiset().add(picked_by(sel, s).to_multiset()) =~= s.to_multiset());
    } else {
        let t = s.drop_last();
        let x = s.last();
        law_partition(sel, t);
        lemma_by_unfold(sel, t);
        assert(s =~= t.push(x));
        if sel(x.item.0) {
            assert(picked_by(sel, s) == picked_by(sel, t).push(x));
            assert(kept_by(sel, s) == kept_by(sel, t));
        } else {
            assert(picked_by(sel, s) == picked_by(sel, t));
            assert(kept_by(sel, s) == kept_by(sel, t).push(x));
        }
        assert(kept_by(sel, s).to_multiset().add(picked_by(sel, s).to_multiset()) =~= s.to_multiset());
    }
}

/// After a bulk deletion no chosen entry is left in the tree, and every entry handed out
/// was chosen.
pub proof fn law_separation<K, V>(sel: spec_fn(K) -> bool, s: Seq<Entry<K, V>>)
    ensures
        forall|i: int| 0 <= i < kept_by(sel, s).len() ==> !sel(#[trigger] kept_by(sel, s)[i].item.0),
        forall|i: int| 0 <= i < picked_by(sel, s).len() ==> sel(#[trigger] picked_by(sel, s)[i].item.0),
{
    broadcast use vstd::seq_lib::group_filter_ensures;

    lemma_by_unfold(sel, s);
}

/// The entries handed out by a bulk deletion come in key order, and the tree stays sorted.
pub proof fn law_in_order<K: Key, V>(sel: spec_fn(K) -> bool, s: Seq<Entry<K, V>>)
    requires
        sorted_entries(s),
    ensures
        sorted_entries(picked_by(sel, s)),
        sorted_entries(kept_by(sel, s)),
{
    lemma_by_unfold(sel, s);
    lemma_filter_sorted(s, |e: Entry<K, V>| sel(e.item.0));
    lemma_kept_by_sorted(sel, s);
}

/// Repeating a bulk deletion changes nothing more and hands out nothing.
pub proof fn law_idempotent<K, V>(sel: spec_fn(K) -> bool, s: Seq<Entry<K, V>>)
    ensures
        kept_by(sel, kept_by(sel, s)) == kept_by(sel, s),
        picked_by(sel, kept_by(sel, s)) == Seq::<Entry<K, V>>::empty(),
{
    law_separation(sel, s);
    let k = kept_by(sel, s);
    lemma_by_unfold(sel, k);
    crate::bulk_delete::lemma_none_by(sel, k);
}

/// Two bulk deletions leave the same tree in either order.
pub proof fn law_commute<K, V>(a: spec_fn(K) -> bool, b: spec_fn(K) -> bool, s: Seq<Entry<K, V>>)
    ensures
        kept_by(a, kept_by(b, s)) == kept_by(b, kept_by(a, s)),
    decreases s.len(),
{
    lemma_by_unfold(a, s);
    lemma_by_unfold(b, s);
    lemma_by_unfold(a, kept_by(b, s));
    lemma_by_unfold(b, kept_by(a, s));
    reveal_with_fuel(Seq::filter, 1);
    if s.len() > 0 {
        let t = s.drop_last();
        law_commute(a, b, t);
        lemma_by_unfold(a, t);
        lemma_by_unfold(b, t);
        lemma_by_unfold(a, kept_by(b, t));
        lemma_by_unfold(b, kept_by(a, t));
        let x = s.last();
        if !a(x.item.0) && !b(x.item.0) {
            assert(kept_by(b, s) == kept_by(b, t).push(x));
            assert(kept_by(b, s).drop_last() == kept_by(b, t));
            assert(kept_by(a, s) == kept_by(a, t).push(x));
            assert(kept_by(a, s).drop_last() == kept_by(a, t));
        } else if !a(x.item.0) {
            assert(kept_by(a, s) == kept_by(a, t).push(x));
            assert(kept_by(a, s).drop_last() == kept_by(a, t));
        } else if !b(x.item.0) {
            assert(kept_by(b, s) == kept_by(b, t).push(x));
            assert(kept_by(b, s).drop_last() == kept_by(b, t));
        }
    }
}

/// A selection that takes every entry empties the tree and hands out every entry, in order.
pub proof fn law_take_all<K, V>(sel: spec_fn(K) -> bool, s: Seq<Entry<K, V>>)
    requires
        forall|i: int| 0 <= i < s.len() ==> sel(#[trigger] s[i].item.0),
    ensures
        kept_by(sel, s) == Seq::<Entry<K, V>>::empty(),
        picked_by(sel, s) == s,
{
    lemma_by_unfold(sel, s);
    crate::bulk_delete::lemma_filter_none(s, |e: Entry<K, V>| !sel(e.item.0));
    crate::bulk_delete::lemma_filter_all(s, |e: Entry<K, V>| sel(e.item.0));
}

/// Filtering with the filter that accepts every key is a plain bulk deletion.
pub proof fn law_noop_filter<K: Key, V, D: TraversalDriver<K>>(d: &D, s: Seq<Entry<K, V>>)
    ensures
        kept_by(filter_sel(d, NoopFilter), s) == kept(d, s),
        picked_by(filter_sel(d, NoopFilter), s) == picked(d, s),
{
    lemma_kept_as_by(d, filter_sel(d, NoopFilter), s);
}

/// What a driver keeps and picks is what the selection of its keys keeps and picks, so the
/// laws above hold of drivers too.
pub proof fn law_driver_selection<K: Key, V, D: TraversalDriver<K>>(d: &D, s: Seq<Entry<K, V>>)
    ensures
        kept(d, s) == kept_by(|k: K| selects(d, k), s),
        picked(d, s) == picked_by(|k: K| selects(d, k), s),
{
    lemma_kept_unfold(d, s);
}

/// An insert of a new key adds exactly that entry, after which the key is present.
pub proof fn law_insert_new<K: Key, V>(s: Seq<Entry<K, V>>, p: int, e: Entry<K, V>)
    requires
        0 <= p <= s.len(),
    ensures
        has_key(s.insert(p, e), e.item.0),
        s.insert(p, e).to_multiset() == s.to_multiset().insert(e),
        s.insert(p, e).len() == s.len() + 1,
{
    vstd::seq_lib::to_multiset_insert(s, p, e);
    assert(s.insert(p, e)[p] == e);
}

/// An insert of a present key replaces one entry of that key, after which the key is still
/// present and the number of entries is unchanged.
pub proof fn law_insert_present<K: Key, V>(s: Seq<Entry<K, V>>, p: int, e: Entry<K, V>)
    requires
        0 <= p < s.len(),
    ensures
        has_key(s.update(p, e), e.item.0),
        s.update(p, e).to_multiset() == s.to_multiset().insert(e).remove(s[p]),
        s.update(p, e).len() == s.len(),
{
    vstd::seq_lib::to_multiset_update(s, p, e);
    assert(s.update(p, e)[p] == e);
}

/// A delete of a present key takes out exactly one entry.
pub proof fn law_delete_one<K, V>(s: Seq<Entry<K, V>>, p: int)
    requires
        0 <= p < s.len(),
    ensures
        s.remove(p).to_multiset() == s.to_multiset().remove(s[p]),
        s.remove(p).len() == s.len() - 1,
{
    vstd::seq_lib::to_multiset_remove(s, p);
}

/// A delete of an overlap query leaves no interval that overlaps the query, hands out only
/// intervals that do, and together they are the intervals that were there.
pub proof fn law_overlap<Iv: Interval, V>(s: Seq<Entry<Iv, V>>, lo: int, hi: int)
    ensures
        forall|i: int|
            0 <= i < overlap_kept(s, lo, hi).len() ==> !overlaps_spec(
                (#[trigger] overlap_kept(s, lo, hi)[i]).item.0.lo(),
                overlap_kept(s, lo, hi)[i].item.0.hi(),
                lo,
                hi,
            ),
        forall|i: int|
            0 <= i < overlapping(s, lo, hi).len() ==> overlaps_spec(
                (#[trigger] overlapping(s, lo, hi)[i]).item.0.lo(),
                overlapping(s, lo, hi)[i].item.0.hi(),
                lo,
                hi,
            ),
        overlap_kept(s, lo, hi).to_multiset().add(overlapping(s, lo, hi).to_multiset()) == s.to_multiset(),
{
    let sel = overlap_sel(lo, hi, NoopFilter);
    lemma_overlap_noop::<Iv, V>(lo, hi, s);
    law_partition(sel, s);
    law_separation(sel, s);
}

/// A cloning sink forwards what it consumes: when it consumes a reference, its inner sink
/// consumes exactly one more item, a clone of what the reference points to, after what it
/// had.
pub proof fn law_cloning_sink_forwards<'a, T: Clone, S: Sink<T>>(
    before: RefCloningSink<'a, T, S>,
    after: RefCloningSink<'a, T, S>,
    x: &'a T,
)
    requires
        after.consumed() == before.consumed().push(x),
        before.steps_to(after),
    ensures
        after.sink.consumed() == before.sink.consumed().push(after.sink.consumed().last()),
        cloned(*x, after.sink.consumed().last()),
{
    assert(after.seen@ == before.seen@.push(x));
    assert(after.sink.consumed() =~= after.sink.consumed().drop_last().push(after.sink.consumed().last()));
}

/// What a faithful cloning sink handed on, in order: when it has consumed the references
/// `q` after what it had consumed before, the last `q.len()` items of its inner sink are
/// clones of what those references point to, in the order of `q`.
pub proof fn law_cloning_sink_delivers<'a, T: Clone, S: Sink<T>>(
    before: RefCloningSink<'a, T, S>,
    after: RefCloningSink<'a, T, S>,
    q: Seq<&'a T>,
)
    requires
        after.faithful(),
        after.consumed() == before.consumed() + q,
    ensures
        after.sink.consumed().len() >= q.len(),
        forall|i: int|
            0 <= i < q.len() ==> cloned(
                *#[trigger] q[i],
                after.sink.consumed()[after.sink.consumed().len() - q.len() + i],
            ),
{
    let seen = after.seen@;
    let inner = after.sink.consumed();
    let b = before.consumed().len();
    assert forall|i: int| 0 <= i < q.len() implies cloned(*#[trigger] q[i], inner[inner.len() - q.len() + i]) by {
        assert(seen[b + i] == q[i]);
        assert(cloned(*seen[b + i], inner[inner.len() - seen.len() + (b + i)]));
    }
}

/// A query copied out through a cloning sink: when the sink is faithful after handing on
/// the query's results `hits` (the query's contract gives them as what it consumed after
/// what it had), its inner sink ends with clones of `hits`, in order.
pub proof fn law_query_cloned<'a, T: Clone, S: Sink<T>>(
    before: RefCloningSink<'a, T, S>,
    after: RefCloningSink<'a, T, S>,
    hits: Seq<T>,
)
    requires
        after.faithful(),
        derefs(after.consumed()) == derefs(before.consumed()) + hits,
    ensures
        after.sink.consumed().len() >= hits.len(),
        forall|i: int|
            0 <= i < hits.len() ==> cloned(
                #[trigger] hits[i],
                after.sink.consumed()[after.sink.consumed().len() - hits.len() + i],
            ),
{
    let seen = after.seen@;
    let inner = after.sink.consumed();
    let b = before.consumed().len();
    assert(derefs(after.consumed()).len() == seen.len());
    assert(derefs(before.consumed()).len() == b);
    assert forall|i: int| 0 <= i < hits.len() implies cloned(#[trigger] hits[i], inner[inner.len() - hits.len() + i]) by {
        assert(derefs(after.consumed())[b + i] == *seen[b + i]);
        assert((derefs(before.consumed()) + hits)[b + i] == hits[i]);
        assert(cloned(*seen[b + i], inner[inner.len() - seen.len() + (b + i)]));
    }
}

/// A range query copied out through a cloning sink: the inner sink ends with clones of the
/// pairs whose keys lie in the range (and those whose key is its start), in key order, one
/// for each such entry of the tree.
pub proof fn law_query_range_cloned<'a, K: Key, V: Clone, S: Sink<(K, V)>>(
    t: Seq<Entry<K, V>>,
    range: Range<K>,
    before: RefCloningSink<'a, (K, V), S>,
    after: RefCloningSink<'a, (K, V), S>,
)
    requires
        after.faithful(),
        derefs(after.consumed()) == derefs(before.consumed()) + pairs(picked(&(RangeDriver { range: range }), t)),
    ensures
        ({
            let hits = pairs(picked(&(RangeDriver { range: range }), t));
            let inner = after.sink.consumed();
            &&& inner.len() >= hits.len()
            &&& forall|i: int| 0 <= i < hits.len() ==> cloned(#[trigger] hits[i], inner[inner.len() - hits.len() + i])
        }),
{
    law_query_cloned(before, after, pairs(picked(&(RangeDriver { range: range }), t)));
}

/// An overlap query copied out through a cloning sink: the inner sink ends with clones of
/// the pairs whose intervals overlap `[lo, hi)`, in order, one for each such entry.
pub proof fn law_query_overlap_cloned<'a, Iv: Interval, V: Clone, S: Sink<(Iv, V)>>(
    t: Seq<Entry<Iv, V>>,
    lo: int,
    hi: int,
    before: RefCloningSink<'a, (Iv, V), S>,
    after: RefCloningSink<'a, (Iv, V), S>,
)
    requires
        after.faithful(),
        derefs(after.consumed()) == derefs(before.consumed()) + pairs(overlapping(t, lo, hi)),
    ensures
        ({
            let hits = pairs(overlapping(t, lo, hi));
            let inner = after.sink.consumed();
            &&& inner.len() >= hits.len()
            &&& forall|i: int| 0 <= i < hits.len() ==> cloned(#[trigger] hits[i], inner[inner.len() - hits.len() + i])
        }),
{
    law_query_cloned(before, after, pairs(overlapping(t, lo, hi)));
}

} // verus!
