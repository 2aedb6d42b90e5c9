use vstd::prelude::*;

use crate::key::Key;
use crate::node::{Entry, erank};
use crate::sink::Sink;
use crate::drivers::{above, interval_driver, selects, TraversalDriver};
use crate::tree_repr::{lefti, righti, TreeRepr};
use crate::tree_spec::{
    all_none, cell_measure, clean, entries_le, inorder, is_desc, lemma_all_none, lemma_children, lemma_clean_empty,
    lemma_frame, lemma_sorted_join, lemma_sorted_parts, present, same_outside, sorted_entries,
};

verus! {

/// The key/value pairs of a sequence of entries.
pub closed spec fn pairs<K, V>(s: Seq<Entry<K, V>>) -> Seq<(K, V)> {
    s.map_values(|e: Entry<K, V>| e.item)
}

pub proof fn lemma_items_add<K, V>(a: Seq<Entry<K, V>>, b: Seq<Entry<K, V>>)
    ensures
        pairs(a + b) == pairs(a) + pairs(b),
{
    assert(pairs(a + b) =~= pairs(a) + pairs(b));
}

pub proof fn lemma_items_single<K, V>(x: Entry<K, V>)
    ensures
        pairs(seq![x]) == seq![x.item],
{
    assert(pairs(seq![x]) =~= seq![x.item]);
}

pub proof fn lemma_items_empty<K, V>()
    ensures
        pairs(Seq::<Entry<K, V>>::empty()) == Seq::<(K, V)>::empty(),
{
    assert(pairs(Seq::<Entry<K, V>>::empty()) =~= Seq::<(K, V)>::empty());
}

/// The pairs of entries made from pairs are those pairs.
pub proof fn lemma_items_of_entries<K, V>(t: Seq<(K, V)>)
    ensures
        pairs(crate::tree_building::to_entries(t)) == t,
{
    assert(pairs(crate::tree_building::to_entries(t)) =~= t);
}

/// The entries made from the pairs of entries are those entries.
pub proof fn lemma_entries_of_items<K, V>(s: Seq<Entry<K, V>>)
    ensures
        crate::tree_building::to_entries(pairs(s)) == s,
        pairs(s).len() == s.len(),
        forall|k: int| 0 <= k < s.len() ==> #[trigger] pairs(s)[k] == s[k].item,
{
    assert(crate::tree_building::to_entries(pairs(s)) =~= s);
}

/// The entries that a driver leaves in the tree.
pub closed spec fn keep_pred<K: Key, V, D: TraversalDriver<K>>(d: &D) -> spec_fn(Entry<K, V>) -> bool {
    |e: Entry<K, V>| !selects(d, e.item.0)
}

/// The entries that a driver selects.
pub closed spec fn pick_pred<K: Key, V, D: TraversalDriver<K>>(d: &D) -> spec_fn(Entry<K, V>) -> bool {
    |e: Entry<K, V>| selects(d, e.item.0)
}

pub closed spec fn kept<K: Key, V, D: TraversalDriver<K>>(d: &D, s: Seq<Entry<K, V>>) -> Seq<Entry<K, V>> {
    s.filter(keep_pred(d))
}

pub closed spec fn picked<K: Key, V, D: TraversalDriver<K>>(d: &D, s: Seq<Entry<K, V>>) -> Seq<Entry<K, V>> {
    s.filter(pick_pred(d))
}

pub proof fn lemma_filter_add3<A>(a: Seq<A>, b: Seq<A>, c: Seq<A>, p: spec_fn(A) -> bool)
    ensures
        (a + b + c).filter(p) == a.filter(p) + b.filter(p) + c.filter(p),
{
    Seq::filter_distributes_over_add(a + b, c, p);
    Seq::filter_distributes_over_add(a, b, p);
}

pub proof fn lemma_filter_single<A>(x: A, p: spec_fn(A) -> bool)
    ensures
        seq![x].filter(p) == if p(x) { seq![x] } else { Seq::<A>::empty() },
{
    reveal_with_fuel(Seq::filter, 2);
    assert(seq![x].drop_last() =~= Seq::<A>::empty());
    assert(Seq::<A>::empty().filter(p) =~= Seq::<A>::empty());
    assert(Seq::<A>::empty().push(x) =~= seq![x]);
}

pub proof fn lemma_filter_all<A>(s: Seq<A>, p: spec_fn(A) -> bool)
    requires
        forall|k: int| 0 <= k < s.len() ==> p(#[trigger] s[k]),
    ensures
        s.filter(p) == s,
    decreases s.len(),
{
    reveal_with_fuel(Seq::filter, 1);
    if s.len() > 0 {
        lemma_filter_all(s.drop_last(), p);
        assert(s.drop_last().push(s.last()) =~= s);
    } else {
        assert(s =~= Seq::<A>::empty());
    }
}

pub proof fn lemma_filter_none<A>(s: Seq<A>, p: spec_fn(A) -> bool)
    requires
        forall|k: int| 0 <= k < s.len() ==> !p(#[trigger] s[k]),
    ensures
        s.filter(p) == Seq::<A>::empty(),
    decreases s.len(),
{
    reveal_with_fuel(Seq::filter, 1);
    if s.len() > 0 {
        lemma_filter_none(s.drop_last(), p);
    }
}

/// The entries whose keys `sel` does not choose.
pub closed spec fn keep_by<K, V>(sel: spec_fn(K) -> bool) -> spec_fn(Entry<K, V>) -> bool {
    |e: Entry<K, V>| !sel(e.item.0)
}

/// The entries whose keys `sel` chooses.
pub closed spec fn pick_by<K, V>(sel: spec_fn(K) -> bool) -> spec_fn(Entry<K, V>) -> bool {
    |e: Entry<K, V>| sel(e.item.0)
}

/// The entries of `s` whose keys `sel` does not choose, in order.
pub closed spec fn kept_by<K, V>(sel: spec_fn(K) -> bool, s: Seq<Entry<K, V>>) -> Seq<Entry<K, V>> {
    s.filter(keep_by(sel))
}

/// The entries of `s` whose keys `sel` chooses, in order.
pub closed spec fn picked_by<K, V>(sel: spec_fn(K) -> bool, s: Seq<Entry<K, V>>) -> Seq<Entry<K, V>> {
    s.filter(pick_by(sel))
}

/// Kept and chosen entries of a subtree split by its root.
pub proof fn lemma_split_by<K, V>(sel: spec_fn(K) -> bool, l: Seq<Entry<K, V>>, x: Entry<K, V>, r: Seq<Entry<K, V>>)
    ensures
        kept_by(sel, l + seq![x] + r) == kept_by(sel, l) + (if sel(x.item.0) { Seq::empty() } else { seq![x] })
            + kept_by(sel, r),
        picked_by(sel, l + seq![x] + r) == picked_by(sel, l) + (if sel(x.item.0) { seq![x] } else { Seq::empty() })
            + picked_by(sel, r),
{
    lemma_filter_add3(l, seq![x], r, keep_by::<K, V>(sel));
    lemma_filter_add3(l, seq![x], r, pick_by::<K, V>(sel));
    lemma_filter_single(x, keep_by::<K, V>(sel));
    lemma_filter_single(x, pick_by::<K, V>(sel));
}

/// A sequence none of whose keys `sel` chooses.
pub proof fn lemma_none_by<K, V>(sel: spec_fn(K) -> bool, s: Seq<Entry<K, V>>)
    requires
        forall|k: int| 0 <= k < s.len() ==> !sel((#[trigger] s[k]).item.0),
    ensures
        kept_by(sel, s) == s,
        picked_by(sel, s) == Seq::<Entry<K, V>>::empty(),
{
    lemma_filter_all(s, keep_by::<K, V>(sel));
    lemma_filter_none(s, pick_by::<K, V>(sel));
}

/// Keeping entries of a sorted sequence keeps it sorted.
pub proof fn lemma_kept_by_sorted<K: Key, V>(sel: spec_fn(K) -> bool, s: Seq<Entry<K, V>>)
    requires
        sorted_entries(s),
    ensures
        sorted_entries(kept_by(sel, s)),
{
    lemma_filter_sorted(s, keep_by::<K, V>(sel));
}

/// A selection that chooses exactly the keys a driver selects keeps and picks what the
/// driver does.
pub proof fn lemma_kept_as_by<K: Key, V, D: TraversalDriver<K>>(d: &D, sel: spec_fn(K) -> bool, s: Seq<Entry<K, V>>)
    requires
        forall|k: K| #[trigger] sel(k) == selects(d, k),
    ensures
        kept(d, s) == kept_by(sel, s),
        picked(d, s) == picked_by(sel, s),
{
    assert(keep_pred::<K, V, D>(d) =~= keep_by::<K, V>(sel));
    assert(pick_pred::<K, V, D>(d) =~= pick_by::<K, V>(sel));
}

/// Keeping and choosing by a selection are filters by the predicates that agree with it.
pub proof fn lemma_by_filters<K, V>(
    sel: spec_fn(K) -> bool,
    s: Seq<Entry<K, V>>,
    keep: spec_fn(Entry<K, V>) -> bool,
    pick: spec_fn(Entry<K, V>) -> bool,
)
    requires
        forall|e: Entry<K, V>| #[trigger] keep(e) == !sel(e.item.0),
        forall|e: Entry<K, V>| #[trigger] pick(e) == sel(e.item.0),
    ensures
        kept_by(sel, s) == s.filter(keep),
        picked_by(sel, s) == s.filter(pick),
{
    assert(keep_by::<K, V>(sel) =~= keep);
    assert(pick_by::<K, V>(sel) =~= pick);
}

/// Keeping and choosing by a selection, written as filters.
pub proof fn lemma_by_unfold<K, V>(sel: spec_fn(K) -> bool, s: Seq<Entry<K, V>>)
    ensures
        kept_by(sel, s) == s.filter(|e: Entry<K, V>| !sel(e.item.0)),
        picked_by(sel, s) == s.filter(|e: Entry<K, V>| sel(e.item.0)),
{
    lemma_by_filters(sel, s, |e: Entry<K, V>| !sel(e.item.0), |e: Entry<K, V>| sel(e.item.0));
}

/// What a driver keeps and picks, written as keeping and choosing by the keys it selects.
pub proof fn lemma_kept_unfold<K: Key, V, D: TraversalDriver<K>>(d: &D, s: Seq<Entry<K, V>>)
    ensures
        kept(d, s) == kept_by(|k: K| selects(d, k), s),
        picked(d, s) == picked_by(|k: K| selects(d, k), s),
{
    lemma_kept_as_by(d, |k: K| selects(d, k), s);
}

/// What a driver keeps and what it picks add up to the whole.
pub proof fn lemma_picked_len<K: Key, V, D: TraversalDriver<K>>(d: &D, s: Seq<Entry<K, V>>)
    ensures
        kept(d, s).len() + picked(d, s).len() == s.len(),
{
    lemma_kept_unfold(d, s);
    lemma_by_len(|k: K| selects(d, k), s);
}

/// Every entry is either kept or chosen: the two lengths add up to the whole.
pub proof fn lemma_by_len<K, V>(sel: spec_fn(K) -> bool, s: Seq<Entry<K, V>>)
    ensures
        kept_by(sel, s).len() + picked_by(sel, s).len() == s.len(),
    decreases s.len(),
{
    reveal_with_fuel(Seq::filter, 1);
    if s.len() > 0 {
        lemma_by_len(sel, s.drop_last());
    }
}

/// Kept and picked entries of a subtree split by its root.
pub proof fn lemma_split_kept<K: Key, V, D: TraversalDriver<K>>(
    d: &D,
    l: Seq<Entry<K, V>>,
    x: Entry<K, V>,
    r: Seq<Entry<K, V>>,
)
    ensures
        kept(d, l + seq![x] + r) == kept(d, l) + (if selects(d, x.item.0) { Seq::empty() } else { seq![x] }) + kept(d, r),
        picked(d, l + seq![x] + r) == picked(d, l) + (if selects(d, x.item.0) { seq![x] } else { Seq::empty() }) + picked(d, r),
{
    lemma_filter_add3(l, seq![x], r, keep_pred::<K, V, D>(d));
    lemma_filter_add3(l, seq![x], r, pick_pred::<K, V, D>(d));
    lemma_filter_single(x, keep_pred::<K, V, D>(d));
    lemma_filter_single(x, pick_pred::<K, V, D>(d));
}

/// A sequence whose entries are all selected.
pub proof fn lemma_all_picked<K: Key, V, D: TraversalDriver<K>>(d: &D, s: Seq<Entry<K, V>>)
    requires
        forall|k: int| 0 <= k < s.len() ==> selects(d, (#[trigger] s[k]).item.0),
    ensures
        kept(d, s) == Seq::<Entry<K, V>>::empty(),
        picked(d, s) == s,
{
    lemma_filter_none(s, keep_pred::<K, V, D>(d));
    lemma_filter_all(s, pick_pred::<K, V, D>(d));
}

/// A sequence whose entries are all left alone.
pub proof fn lemma_none_picked<K: Key, V, D: TraversalDriver<K>>(d: &D, s: Seq<Entry<K, V>>)
    requires
        forall|k: int| 0 <= k < s.len() ==> !selects(d, (#[trigger] s[k]).item.0),
    ensures
        kept(d, s) == s,
        picked(d, s) == Seq::<Entry<K, V>>::empty(),
{
    lemma_filter_all(s, keep_pred::<K, V, D>(d));
    lemma_filter_none(s, pick_pred::<K, V, D>(d));
}

/// Filtering keeps a sorted sequence sorted, and keeps only entries of the sequence.
pub proof fn lemma_filter_sorted<K: Key, V>(s: Seq<Entry<K, V>>, p: spec_fn(Entry<K, V>) -> bool)
    requires
        sorted_entries(s),
    ensures
        sorted_entries(s.filter(p)),
        forall|a: int|
            0 <= a < s.filter(p).len() ==> exists|j: int| 0 <= j < s.len() && #[trigger] s.filter(p)[a] == s[j],
    decreases s.len(),
{
    reveal(Seq::filter);
    if s.len() > 0 {
        let d = s.drop_last();
        assert(sorted_entries(d)) by {
            assert forall|a: int, b: int| 0 <= a <= b < d.len() implies erank(#[trigger] d[a]) <= erank(#[trigger] d[b]) by {
                assert(d[a] == s[a] && d[b] == s[b]);
            }
        }
        lemma_filter_sorted(d, p);
        let fd = d.filter(p);
        let out = s.filter(p);
        assert forall|a: int| 0 <= a < out.len() implies exists|j: int| 0 <= j < s.len() && #[trigger] out[a] == s[j] by {
            if a < fd.len() {
                let j = choose|j: int| 0 <= j < d.len() && #[trigger] fd[a] == d[j];
                assert(out[a] == fd[a]);
                assert(d[j] == s[j]);
            } else {
                assert(out[a] == s[s.len() - 1]);
            }
        }
        assert forall|a: int, b: int| 0 <= a <= b < out.len() implies erank(#[trigger] out[a]) <= erank(#[trigger] out[b]) by {
            if b < fd.len() {
                assert(out[a] == fd[a] && out[b] == fd[b]);
            } else if a < b {
                let j = choose|j: int| 0 <= j < d.len() && #[trigger] fd[a] == d[j];
                assert(out[a] == fd[a]);
                assert(d[j] == s[j]);
                assert(out[b] == s[s.len() - 1]);
            }
        }
    } else {
        assert(s.filter(p) =~= s);
    }
}

/// Filtering a tree whose entries before and after a middle part are all left alone.
pub proof fn lemma_kept_whole<K: Key, V, D: TraversalDriver<K>>(
    d: &D,
    p: Seq<Entry<K, V>>,
    m: Seq<Entry<K, V>>,
    q: Seq<Entry<K, V>>,
)
    requires
        sorted_entries(p + m + q),
        forall|k: int| 0 <= k < p.len() ==> !selects(d, (#[trigger] p[k]).item.0),
        forall|k: int| 0 <= k < q.len() ==> !selects(d, (#[trigger] q[k]).item.0),
    ensures
        kept(d, p + m + q) == p + kept(d, m) + q,
        picked(d, p + m + q) == picked(d, m),
        sorted_entries(p + kept(d, m) + q),
{
    lemma_filter_add3(p, m, q, keep_pred::<K, V, D>(d));
    lemma_filter_add3(p, m, q, pick_pred::<K, V, D>(d));
    lemma_none_picked(d, p);
    lemma_none_picked(d, q);
    assert(Seq::<Entry<K, V>>::empty() + picked(d, m) + Seq::<Entry<K, V>>::empty() =~= picked(d, m));
    lemma_sorted_parts(p, m, q);
    let km = kept(d, m);
    lemma_filter_sorted(m, keep_pred::<K, V, D>(d));
    assert(entries_le(p, km)) by {
        assert forall|a: int, b: int| 0 <= a < p.len() && 0 <= b < km.len() implies erank(#[trigger] p[a]) <= erank(#[trigger] km[b]) by {
            let j = choose|j: int| 0 <= j < m.len() && #[trigger] km[b] == m[j];
        }
    }
    assert(entries_le(km, q)) by {
        assert forall|a: int, b: int| 0 <= a < km.len() && 0 <= b < q.len() implies erank(#[trigger] km[a]) <= erank(#[trigger] q[b]) by {
            let j = choose|j: int| 0 <= j < m.len() && #[trigger] km[a] == m[j];
        }
    }
    lemma_sorted_join(p, km, q);
}

/// Keys at most a key below the range lie below the range; keys at least a key above the
/// range lie above it.
pub proof fn lemma_driver_order<K: Key, D: TraversalDriver<K>>(d: &D, a: K, b: K)
    requires
        interval_driver(d),
        a.rank() <= b.rank(),
    ensures
        d.goes_left(a) ==> d.goes_left(b),
        above(d, a) ==> above(d, b),
{
    assert(d.goes_left(a) && d.goes_left(b) || true);
    assert(d.goes_right(a) && d.goes_right(b) || true);
}

/// The cells on a slot stack are increasing and lie before cell `bound`.
pub closed spec fn slots_before(st: Seq<usize>, bound: int) -> bool {
    &&& forall|t: int| 0 <= t < st.len() ==> (#[trigger] st[t] as int) < bound
    &&& forall|a: int, b: int| 0 <= a < b < st.len() ==> #[trigger] st[a] < #[trigger] st[b]
}

/// Outside the subtree of `idx`, `s2` differs from `s1` only in the cells `st[lo..hi]`.
pub closed spec fn changed_only<K, V>(
    s1: Seq<Option<Entry<K, V>>>,
    s2: Seq<Option<Entry<K, V>>>,
    idx: int,
    st: Seq<usize>,
    lo: int,
    hi: int,
) -> bool {
    &&& s1.len() == s2.len()
    &&& forall|j: int|
        0 <= j < s1.len() && !#[trigger] is_desc(j, idx) && s2[j] != s1[j] ==> exists|t: int|
            lo <= t < hi && #[trigger] st[t] == j
}

/// The cells `st[lo..lo+m]` hold the last `m` entries of `kept`, largest first.
pub closed spec fn holds_largest<K, V>(
    s: Seq<Option<Entry<K, V>>>,
    st: Seq<usize>,
    lo: int,
    m: int,
    kept: Seq<Entry<K, V>>,
) -> bool {
    forall|u: int| lo <= u < lo + m ==> s[#[trigger] st[u] as int] == Some(kept[kept.len() - 1 - (u - lo)])
}

/// The cells `st[lo..lo+m]` hold the first `m` entries of `kept`, smallest first.
pub closed spec fn holds_smallest<K, V>(
    s: Seq<Option<Entry<K, V>>>,
    st: Seq<usize>,
    lo: int,
    m: int,
    kept: Seq<Entry<K, V>>,
) -> bool {
    forall|u: int| lo <= u < lo + m ==> s[#[trigger] st[u] as int] == Some(kept[u - lo])
}

pub open spec fn min_int(a: int, b: int) -> int {
    if a <= b {
        a
    } else {
        b
    }
}

/// Composing two changes confined to consecutive stretches of the slot stack.
pub proof fn lemma_changed_trans<K, V>(
    s0: Seq<Option<Entry<K, V>>>,
    s1: Seq<Option<Entry<K, V>>>,
    s2: Seq<Option<Entry<K, V>>>,
    idx: int,
    st: Seq<usize>,
    lo: int,
    mid: int,
    hi: int,
)
    requires
        changed_only(s0, s1, idx, st, lo, mid),
        changed_only(s1, s2, idx, st, mid, hi),
        lo <= mid <= hi,
    ensures
        changed_only(s0, s2, idx, st, lo, hi),
{
    assert forall|j: int| 0 <= j < s0.len() && !#[trigger] is_desc(j, idx) && s2[j] != s0[j] implies exists|t: int|
        lo <= t < hi && #[trigger] st[t] == j by {
        if s1[j] != s0[j] {
            let t = choose|t: int| lo <= t < mid && #[trigger] st[t] == j;
            assert(lo <= t < hi && st[t] == j);
        } else {
            let t = choose|t: int| mid <= t < hi && #[trigger] st[t] == j;
            assert(lo <= t < hi && st[t] == j);
        }
    }
}

/// A change confined to the subtree of a child is confined to the subtree of its parent.
pub proof fn lemma_changed_child<K, V>(
    s1: Seq<Option<Entry<K, V>>>,
    s2: Seq<Option<Entry<K, V>>>,
    i: int,
    c: int,
    st: Seq<usize>,
    lo: int,
    hi: int,
)
    requires
        i >= 0,
        c == 2 * i + 1 || c == 2 * i + 2,
        changed_only(s1, s2, c, st, lo, hi),
    ensures
        changed_only(s1, s2, i, st, lo, hi),
{
    lemma_children(i);
    assert forall|j: int| 0 <= j < s1.len() && !#[trigger] is_desc(j, i) && s2[j] != s1[j] implies exists|t: int|
        lo <= t < hi && #[trigger] st[t] == j by {
        assert(!is_desc(j, c));
    }
}

/// A change confined to the subtree of a child, where the child could also write the slot of
/// its parent `i` (pushed on top of the stack), is confined to the subtree of `i`.
pub proof fn lemma_changed_pushed<K, V>(
    s1: Seq<Option<Entry<K, V>>>,
    s2: Seq<Option<Entry<K, V>>>,
    i: int,
    c: int,
    st: Seq<usize>,
    lo: int,
    hi: int,
)
    requires
        0 <= i <= usize::MAX,
        c == 2 * i + 1 || c == 2 * i + 2,
        changed_only(s1, s2, c, st.push(i as usize), lo, hi),
        0 <= lo,
        hi <= st.len() + 1,
    ensures
        changed_only(s1, s2, i, st, lo, min_int(hi, st.len() as int)),
{
    lemma_children(i);
    assert forall|j: int| 0 <= j < s1.len() && !#[trigger] is_desc(j, i) && s2[j] != s1[j] implies exists|t: int|
        lo <= t < min_int(hi, st.len() as int) && #[trigger] st[t] == j by {
        assert(!is_desc(j, c));
        assert(is_desc(i, i));
        let t = choose|t: int| lo <= t < hi && #[trigger] st.push(i as usize)[t] == j;
        if t == st.len() {
            assert(st.push(i as usize)[t] == i as usize);
            assert(j == i);
        }
        assert(t < st.len());
        assert(st[t] == j);
    }
}

/// Cells of `st` stay untouched by a change confined elsewhere.
pub proof fn lemma_slots_kept<K, V>(
    s1: Seq<Option<Entry<K, V>>>,
    s2: Seq<Option<Entry<K, V>>>,
    idx: int,
    st: Seq<usize>,
    lo: int,
    hi: int,
    u: int,
)
    requires
        changed_only(s1, s2, idx, st, lo, hi),
        slots_before(st, idx),
        0 <= u < st.len(),
        !(lo <= u < hi),
        0 <= lo,
        hi <= st.len(),
        0 <= st[u] < s1.len(),
    ensures
        s2[st[u] as int] == s1[st[u] as int],
{
    let j = st[u] as int;
    if s2[j] != s1[j] {
        assert(!is_desc(j, idx));
        let t = choose|t: int| lo <= t < hi && #[trigger] st[t] == j;
        assert(t != u);
        if t < u {
            assert(st[t] < st[u]);
        } else {
            assert(st[u] < st[t]);
        }
    }
}

/// A change confined to the subtree of one child of `i` and to slots up to `i` leaves the
/// other child's subtree alone.
pub proof fn lemma_other_untouched<K, V>(
    s1: Seq<Option<Entry<K, V>>>,
    s2: Seq<Option<Entry<K, V>>>,
    i: int,
    c: int,
    st: Seq<usize>,
    lo: int,
    hi: int,
)
    requires
        0 <= i < s1.len(),
        c == 2 * i + 1 || c == 2 * i + 2,
        changed_only(s1, s2, c, st, lo, hi),
        slots_before(st, i + 1),
        0 <= lo,
        hi <= st.len(),
    ensures
        inorder(s1, 4 * i + 3 - c) == inorder(s2, 4 * i + 3 - c),
        clean(s1, 4 * i + 3 - c) == clean(s2, 4 * i + 3 - c),
        all_none(s1, 4 * i + 3 - c) == all_none(s2, 4 * i + 3 - c),
{
    lemma_children(i);
    let d = 4 * i + 3 - c;
    assert forall|j: int| 0 <= j < s1.len() && #[trigger] is_desc(j, d) implies s1[j] == s2[j] by {
        assert(!is_desc(j, c));
        assert(j >= d);
        if s2[j] != s1[j] {
            let t = choose|t: int| lo <= t < hi && #[trigger] st[t] == j;
            assert(st[t] < i + 1);
        }
    }
    lemma_frame(s1, s2, d);
}

/// A change confined to the subtree of one child of `i` and to slots before `i` leaves the
/// cell `i` and the other child's subtree alone.
pub proof fn lemma_sibling_untouched<K, V>(
    s1: Seq<Option<Entry<K, V>>>,
    s2: Seq<Option<Entry<K, V>>>,
    i: int,
    c: int,
    st: Seq<usize>,
    lo: int,
    hi: int,
)
    requires
        0 <= i < s1.len(),
        c == 2 * i + 1 || c == 2 * i + 2,
        changed_only(s1, s2, c, st, lo, hi),
        slots_before(st, i),
        0 <= lo,
        hi <= st.len(),
    ensures
        s1[i] == s2[i],
        inorder(s1, 4 * i + 3 - c) == inorder(s2, 4 * i + 3 - c),
        clean(s1, 4 * i + 3 - c) == clean(s2, 4 * i + 3 - c),
        all_none(s1, 4 * i + 3 - c) == all_none(s2, 4 * i + 3 - c),
{
    lemma_children(i);
    let d = 4 * i + 3 - c;
    assert(is_desc(i, i));
    assert forall|j: int| 0 <= j < s1.len() && #[trigger] is_desc(j, d) implies s1[j] == s2[j] by {
        assert(!is_desc(j, c));
        assert(j >= d);
        if s2[j] != s1[j] {
            let t = choose|t: int| lo <= t < hi && #[trigger] st[t] == j;
            assert(st[t] < i);
        }
    }
    if s2[i] != s1[i] {
        let t = choose|t: int| lo <= t < hi && #[trigger] st[t] == i;
        assert(st[t] < i);
    }
    lemma_frame(s1, s2, d);
}

/// The last steps of filling maximum slots from a subtree whose root is kept: the right
/// subtree has already given all it had (`kr`), the root went into the next slot, and the
/// left subtree filled what it could.
pub proof fn lemma_fill_max_tail<K, V>(
    s0: Seq<Option<Entry<K, V>>>,
    s1: Seq<Option<Entry<K, V>>>,
    s2: Seq<Option<Entry<K, V>>>,
    s3: Seq<Option<Entry<K, V>>>,
    i: int,
    st: Seq<usize>,
    nf: int,
    m1: int,
    m2: int,
    l: Seq<Entry<K, V>>,
    x: Entry<K, V>,
    kr: Seq<Entry<K, V>>,
    has_left: bool,
)
    requires
        0 <= i < s0.len() < usize::MAX / 2,
        0 <= nf,
        nf + m1 < st.len() <= i,
        slots_before(st, i),
        changed_only(s0, s1, i, st, nf, nf + m1),
        s1[i] == Some(x),
        inorder(s1, 2 * i + 1) == l,
        clean(s1, 2 * i + 1),
        all_none(s1, 2 * i + 2),
        holds_largest(s1, st, nf, m1, kr),
        m1 == kr.len(),
        s2 == s1.update(i, None).update(st[nf + m1] as int, Some(x)),
        has_left == present(s1, 2 * i + 1),
        has_left ==> {
            &&& m2 == min_int(st.len() - nf - m1, l.len() as int)
            &&& changed_only(s2, s3, 2 * i + 1, st.push(i as usize), nf + m1 + 1, nf + m1 + 1 + m2)
            &&& holds_largest(s3, st.push(i as usize), nf + m1 + 1, m2, l)
            &&& inorder(s3, 2 * i + 1) == l.take(l.len() - m2)
            &&& clean(s3, 2 * i + 1)
        },
        !has_left ==> s3 == s2 && m2 == 0,
    ensures
        ({
            let all = l + seq![x] + kr;
            let f = st.len() - nf;
            let m = min_int(f, all.len() as int);
            &&& s3.len() == s0.len()
            &&& inorder(s3, i) == all.take(all.len() - m)
            &&& clean(s3, i)
            &&& holds_largest(s3, st, nf, m, all)
            &&& changed_only(s0, s3, i, st, nf, nf + m)
            &&& present(s3, i) ==> m == f
            &&& m == if m2 == f - m1 { f } else { m1 + 1 + m2 }
        }),
{
    let all = l + seq![x] + kr;
    let ns = st.len() as int;
    let f = ns - nf;
    let m = min_int(f, all.len() as int);
    let st2 = st.push(i as usize);
    lemma_children(i);
    assert(is_desc(i, i));
    assert(st[nf + m1] < i);
    assert forall|j: int| 0 <= j < s1.len() && #[trigger] is_desc(j, 2 * i + 1) implies s1[j] == s2[j] by {
        assert(j >= 2 * i + 1);
    }
    assert forall|j: int| 0 <= j < s1.len() && #[trigger] is_desc(j, 2 * i + 2) implies s1[j] == s2[j] by {
        assert(j >= 2 * i + 2);
    }
    lemma_frame(s1, s2, 2 * i + 1);
    lemma_frame(s1, s2, 2 * i + 2);
    assert(slots_before(st2, i + 1)) by {
        assert forall|t: int| 0 <= t < st2.len() implies (#[trigger] st2[t] as int) < i + 1 by {
            if t < st.len() {
                assert(st2[t] == st[t]);
            }
        }
        assert forall|a: int, b: int| 0 <= a < b < st2.len() implies #[trigger] st2[a] < #[trigger] st2[b] by {
            assert(st2[a] == st[a]);
            if b < st.len() {
                assert(st2[b] == st[b]);
            }
        }
    }
    // the slots filled from the right subtree and the slot of the root
    assert forall|u: int| nf <= u <= nf + m1 implies s3[#[trigger] st[u] as int] == Some(
        all[all.len() - 1 - (u - nf)],
    ) by {
        if u < nf + m1 {
            assert(all[all.len() - 1 - (u - nf)] == kr[kr.len() - 1 - (u - nf)]);
            assert(st[u] < st[nf + m1]);
            assert(s2[st[u] as int] == s1[st[u] as int]);
        } else {
            assert(all[all.len() - 1 - (u - nf)] == x);
        }
        if has_left {
            assert(st2[u] == st[u]);
            lemma_slots_kept(s2, s3, 2 * i + 1, st2, nf + m1 + 1, nf + m1 + 1 + m2, u);
        }
    }
    assert(changed_only(s1, s2, i, st, nf + m1, nf + m1 + 1)) by {
        assert forall|j: int| 0 <= j < s1.len() && !#[trigger] is_desc(j, i) && s2[j] != s1[j] implies exists|t: int|
            nf + m1 <= t < nf + m1 + 1 && #[trigger] st[t] == j by {
            assert(st[nf + m1] == j);
        }
    }
    lemma_changed_trans(s0, s1, s2, i, st, nf, nf + m1, nf + m1 + 1);
    if has_left {
        lemma_other_untouched(s2, s3, i, 2 * i + 1, st2, nf + m1 + 1, nf + m1 + 1 + m2);
        lemma_changed_pushed(s2, s3, i, 2 * i + 1, st, nf + m1 + 1, nf + m1 + 1 + m2);
        lemma_changed_trans(s0, s2, s3, i, st, nf, nf + m1 + 1, nf + m);
        assert forall|u: int| nf + m1 + 1 <= u < nf + m implies s3[#[trigger] st[u] as int] == Some(
            all[all.len() - 1 - (u - nf)],
        ) by {
            assert(st2[u] == st[u]);
            assert(all[all.len() - 1 - (u - nf)] == l[l.len() - 1 - (u - (nf + m1 + 1))]);
        }
        if m2 == f - m1 {
            assert(st2[ns] == i as usize);
            assert(s3[i] == Some(l[l.len() - m2]));
            assert(inorder(s3, i) == l.take(l.len() - m2) + seq![l[l.len() - m2]] + Seq::<Entry<K, V>>::empty());
            assert(inorder(s3, i) =~= all.take(all.len() - m));
            lemma_all_none(s3, 2 * i + 2);
        } else {
            assert(s3[i] is None) by {
                if s3[i] != s2[i] {
                    let t = choose|t: int| nf + m1 + 1 <= t < nf + m1 + 1 + m2 && #[trigger] st2[t] == i;
                    assert(st2[t] == st[t]);
                }
            }
            lemma_clean_empty(s3, 2 * i + 1);
            assert(inorder(s3, i) =~= all.take(all.len() - m));
        }
    } else {
        lemma_clean_empty(s2, 2 * i + 1);
        assert(inorder(s3, i) =~= all.take(all.len() - m));
    }
}

/// The last steps of filling minimum slots from a subtree whose root is kept: the left
/// subtree has already given all it had (`kl`), the root went into the next slot, and the
/// right subtree filled what it could.
pub proof fn lemma_fill_min_tail<K, V>(
    s0: Seq<Option<Entry<K, V>>>,
    s1: Seq<Option<Entry<K, V>>>,
    s2: Seq<Option<Entry<K, V>>>,
    s3: Seq<Option<Entry<K, V>>>,
    i: int,
    st: Seq<usize>,
    nf: int,
    m1: int,
    m2: int,
    r: Seq<Entry<K, V>>,
    x: Entry<K, V>,
    kl: Seq<Entry<K, V>>,
    has_right: bool,
)
    requires
        0 <= i < s0.len() < usize::MAX / 2,
        0 <= nf,
        nf + m1 < st.len() <= i,
        slots_before(st, i),
        changed_only(s0, s1, i, st, nf, nf + m1),
        s1[i] == Some(x),
        inorder(s1, 2 * i + 2) == r,
        clean(s1, 2 * i + 2),
        all_none(s1, 2 * i + 1),
        holds_smallest(s1, st, nf, m1, kl),
        m1 == kl.len(),
        s2 == s1.update(i, None).update(st[nf + m1] as int, Some(x)),
        has_right == present(s1, 2 * i + 2),
        has_right ==> {
            &&& m2 == min_int(st.len() - nf - m1, r.len() as int)
            &&& changed_only(s2, s3, 2 * i + 2, st.push(i as usize), nf + m1 + 1, nf + m1 + 1 + m2)
            &&& holds_smallest(s3, st.push(i as usize), nf + m1 + 1, m2, r)
            &&& inorder(s3, 2 * i + 2) == r.skip(m2)
            &&& clean(s3, 2 * i + 2)
        },
        !has_right ==> s3 == s2 && m2 == 0,
    ensures
        ({
            let all = kl + seq![x] + r;
            let f = st.len() - nf;
            let m = min_int(f, all.len() as int);
            &&& s3.len() == s0.len()
            &&& inorder(s3, i) == all.skip(m)
            &&& clean(s3, i)
            &&& holds_smallest(s3, st, nf, m, all)
            &&& changed_only(s0, s3, i, st, nf, nf + m)
            &&& present(s3, i) ==> m == f
            &&& m == if m2 == f - m1 { f } else { m1 + 1 + m2 }
        }),
{
    let all = kl + seq![x] + r;
    let ns = st.len() as int;
    let f = ns - nf;
    let m = min_int(f, all.len() as int);
    let st2 = st.push(i as usize);
    lemma_children(i);
    assert(is_desc(i, i));
    assert(st[nf + m1] < i);
    assert forall|j: int| 0 <= j < s1.len() && #[trigger] is_desc(j, 2 * i + 1) implies s1[j] == s2[j] by {
        assert(j >= 2 * i + 1);
    }
    assert forall|j: int| 0 <= j < s1.len() && #[trigger] is_desc(j, 2 * i + 2) implies s1[j] == s2[j] by {
        assert(j >= 2 * i + 2);
    }
    lemma_frame(s1, s2, 2 * i + 1);
    lemma_frame(s1, s2, 2 * i + 2);
    assert(slots_before(st2, i + 1)) by {
        assert forall|t: int| 0 <= t < st2.len() implies (#[trigger] st2[t] as int) < i + 1 by {
            if t < st.len() {
                assert(st2[t] == st[t]);
            }
        }
        assert forall|a: int, b: int| 0 <= a < b < st2.len() implies #[trigger] st2[a] < #[trigger] st2[b] by {
            assert(st2[a] == st[a]);
            if b < st.len() {
                assert(st2[b] == st[b]);
            }
        }
    }
    assert forall|u: int| nf <= u <= nf + m1 implies s3[#[trigger] st[u] as int] == Some(all[u - nf]) by {
        if u < nf + m1 {
            assert(all[u - nf] == kl[u - nf]);
            assert(st[u] < st[nf + m1]);
            assert(s2[st[u] as int] == s1[st[u] as int]);
        } else {
            assert(all[u - nf] == x);
        }
        if has_right {
            assert(st2[u] == st[u]);
            lemma_slots_kept(s2, s3, 2 * i + 2, st2, nf + m1 + 1, nf + m1 + 1 + m2, u);
        }
    }
    assert(changed_only(s1, s2, i, st, nf + m1, nf + m1 + 1)) by {
        assert forall|j: int| 0 <= j < s1.len() && !#[trigger] is_desc(j, i) && s2[j] != s1[j] implies exists|t: int|
            nf + m1 <= t < nf + m1 + 1 && #[trigger] st[t] == j by {
            assert(st[nf + m1] == j);
        }
    }
    lemma_changed_trans(s0, s1, s2, i, st, nf, nf + m1, nf + m1 + 1);
    if has_right {
        lemma_other_untouched(s2, s3, i, 2 * i + 2, st2, nf + m1 + 1, nf + m1 + 1 + m2);
        lemma_changed_pushed(s2, s3, i, 2 * i + 2, st, nf + m1 + 1, nf + m1 + 1 + m2);
        lemma_changed_trans(s0, s2, s3, i, st, nf, nf + m1 + 1, nf + m);
        assert forall|u: int| nf + m1 + 1 <= u < nf + m implies s3[#[trigger] st[u] as int] == Some(all[u - nf]) by {
            assert(st2[u] == st[u]);
            assert(all[u - nf] == r[u - (nf + m1 + 1)]);
        }
        if m2 == f - m1 {
            assert(st2[ns] == i as usize);
            assert(s3[i] == Some(r[m2 - 1]));
            assert(inorder(s3, i) == Seq::<Entry<K, V>>::empty() + seq![r[m2 - 1]] + r.skip(m2));
            assert(inorder(s3, i) =~= all.skip(m));
            lemma_all_none(s3, 2 * i + 1);
        } else {
            assert(s3[i] is None) by {
                if s3[i] != s2[i] {
                    let t = choose|t: int| nf + m1 + 1 <= t < nf + m1 + 1 + m2 && #[trigger] st2[t] == i;
                    assert(st2[t] == st[t]);
                }
            }
            lemma_clean_empty(s3, 2 * i + 2);
            assert(inorder(s3, i) =~= all.skip(m));
        }
    } else {
        lemma_clean_empty(s2, 2 * i + 2);
        assert(inorder(s3, i) =~= all.skip(m));
    }
}

/// The last steps of a bulk deletion below a selected root that feeds maximum slots: the
/// root was taken, the left subtree kept `kl` and filled what it could (the root's own slot
/// on top of the stack), and the right subtree was emptied.
pub proof fn lemma_drm_taken_tail<K, V>(
    s0: Seq<Option<Entry<K, V>>>,
    s1: Seq<Option<Entry<K, V>>>,
    s2: Seq<Option<Entry<K, V>>>,
    s3: Seq<Option<Entry<K, V>>>,
    i: int,
    st: Seq<usize>,
    nf: int,
    m1: int,
    kl: Seq<Entry<K, V>>,
    has_left: bool,
)
    requires
        0 <= i < s0.len() < usize::MAX / 2,
        0 <= nf <= st.len() <= i,
        slots_before(st, i),
        clean(s0, i),
        present(s0, i),
        s1 == s0.update(i, None),
        has_left == present(s0, 2 * i + 1),
        has_left ==> {
            &&& m1 == min_int(st.len() + 1 - nf, kl.len() as int)
            &&& changed_only(s1, s2, 2 * i + 1, st.push(i as usize), nf, nf + m1)
            &&& holds_largest(s2, st.push(i as usize), nf, m1, kl)
            &&& inorder(s2, 2 * i + 1) == kl.take(kl.len() - m1)
            &&& clean(s2, 2 * i + 1)
        },
        !has_left ==> s2 == s1 && m1 == 0 && kl == Seq::<Entry<K, V>>::empty(),
        same_outside(s2, s3, 2 * i + 2),
        all_none(s3, 2 * i + 2),
    ensures
        ({
            let f = st.len() - nf;
            let m = min_int(f, kl.len() as int);
            &&& s3.len() == s0.len()
            &&& inorder(s3, i) == kl.take(kl.len() - m)
            &&& clean(s3, i)
            &&& holds_largest(s3, st, nf, m, kl)
            &&& changed_only(s0, s3, i, st, nf, nf + m)
            &&& m == if m1 == f + 1 { f } else { m1 }
        }),
{
    let ns = st.len() as int;
    let f = ns - nf;
    let m = min_int(f, kl.len() as int);
    let st2 = st.push(i as usize);
    lemma_children(i);
    assert(is_desc(i, i));
    assert(slots_before(st2, i + 1)) by {
        assert forall|t: int| 0 <= t < st2.len() implies (#[trigger] st2[t] as int) < i + 1 by {
            if t < st.len() {
                assert(st2[t] == st[t]);
            }
        }
        assert forall|a: int, b: int| 0 <= a < b < st2.len() implies #[trigger] st2[a] < #[trigger] st2[b] by {
            assert(st2[a] == st[a]);
            if b < st.len() {
                assert(st2[b] == st[b]);
            }
        }
    }
    assert(changed_only(s0, s1, i, st, nf, nf)) by {
        assert forall|j: int| 0 <= j < s0.len() && !#[trigger] is_desc(j, i) && s1[j] != s0[j] implies exists|t: int|
            nf <= t < nf && #[trigger] st[t] == j by {
        }
    }
    assert forall|j: int| 0 <= j < s1.len() && #[trigger] is_desc(j, 2 * i + 1) implies s2[j] == s3[j] by {
        assert(!is_desc(j, 2 * i + 2));
    }
    lemma_frame(s2, s3, 2 * i + 1);
    assert(s3[i] == s2[i]);
    if has_left {
        lemma_changed_pushed(s1, s2, i, 2 * i + 1, st, nf, nf + m1);
        assert(min_int(nf + m1, ns) == nf + m);
        lemma_changed_trans(s0, s1, s2, i, st, nf, nf, nf + m);
        assert forall|u: int| nf <= u < nf + m implies s3[#[trigger] st[u] as int] == Some(kl[kl.len() - 1 - (u - nf)]) by {
            assert(st2[u] == st[u]);
            assert(st[u] < i);
            assert(!is_desc(st[u] as int, 2 * i + 2));
        }
        if m1 == f + 1 {
            assert(st2[ns] == i as usize);
            assert(s2[i] == Some(kl[kl.len() - 1 - f]));
            lemma_all_none(s3, 2 * i + 2);
            assert(inorder(s3, 2 * i + 1) == inorder(s2, 2 * i + 1));
            assert(present(s3, i));
            assert(inorder(s3, i) == kl.take(kl.len() - m1) + seq![kl[kl.len() - 1 - f]] + Seq::<Entry<K, V>>::empty());
            assert(inorder(s3, i) =~= kl.take(kl.len() - m));
        } else {
            assert(s2[i] is None) by {
                if s2[i] != s1[i] {
                    let t = choose|t: int| nf <= t < nf + m1 && #[trigger] st2[t] == i;
                    assert(st2[t] == st[t]);
                }
            }
            lemma_clean_empty(s3, 2 * i + 1);
            assert(inorder(s3, i) =~= kl.take(kl.len() - m));
        }
    } else {
        lemma_clean_empty(s0, 2 * i + 1);
        assert forall|j: int| 0 <= j < s0.len() && #[trigger] is_desc(j, 2 * i + 1) implies s0[j] == s1[j] by {
            assert(j > i);
        }
        lemma_frame(s0, s1, 2 * i + 1);
        assert(inorder(s3, i) =~= kl.take(kl.len() - m));
    }
    assert(changed_only(s2, s3, i, st, nf + m, nf + m)) by {
        assert forall|j: int| 0 <= j < s2.len() && !#[trigger] is_desc(j, i) && s3[j] != s2[j] implies exists|t: int|
            nf + m <= t < nf + m && #[trigger] st[t] == j by {
            assert(!is_desc(j, 2 * i + 2));
        }
    }
    lemma_changed_trans(s0, s2, s3, i, st, nf, nf + m, nf + m);
}

/// The last steps of a bulk deletion below a selected root that feeds minimum slots: the
/// root was taken, the left subtree was emptied, and the right subtree kept `kr` and filled
/// what it could (the root's own slot on top of the stack).
pub proof fn lemma_drmin_taken_tail<K, V>(
    s0: Seq<Option<Entry<K, V>>>,
    s1: Seq<Option<Entry<K, V>>>,
    s2: Seq<Option<Entry<K, V>>>,
    s3: Seq<Option<Entry<K, V>>>,
    i: int,
    st: Seq<usize>,
    nf: int,
    m1: int,
    kr: Seq<Entry<K, V>>,
    has_right: bool,
)
    requires
        0 <= i < s0.len() < usize::MAX / 2,
        0 <= nf <= st.len() <= i,
        slots_before(st, i),
        clean(s0, i),
        present(s0, i),
        s1 == s0.update(i, None),
        same_outside(s1, s2, 2 * i + 1),
        all_none(s2, 2 * i + 1),
        has_right == present(s0, 2 * i + 2),
        has_right ==> {
            &&& m1 == min_int(st.len() + 1 - nf, kr.len() as int)
            &&& changed_only(s2, s3, 2 * i + 2, st.push(i as usize), nf, nf + m1)
            &&& holds_smallest(s3, st.push(i as usize), nf, m1, kr)
            &&& inorder(s3, 2 * i + 2) == kr.skip(m1)
            &&& clean(s3, 2 * i + 2)
        },
        !has_right ==> s3 == s2 && m1 == 0 && kr == Seq::<Entry<K, V>>::empty(),
    ensures
        ({
            let f = st.len() - nf;
            let m = min_int(f, kr.len() as int);
            &&& s3.len() == s0.len()
            &&& inorder(s3, i) == kr.skip(m)
            &&& clean(s3, i)
            &&& holds_smallest(s3, st, nf, m, kr)
            &&& changed_only(s0, s3, i, st, nf, nf + m)
            &&& m == if m1 == f + 1 { f } else { m1 }
        }),
{
    let ns = st.len() as int;
    let f = ns - nf;
    let m = min_int(f, kr.len() as int);
    let st2 = st.push(i as usize);
    lemma_children(i);
    assert(is_desc(i, i));
    assert(slots_before(st2, i + 1)) by {
        assert forall|t: int| 0 <= t < st2.len() implies (#[trigger] st2[t] as int) < i + 1 by {
            if t < st.len() {
                assert(st2[t] == st[t]);
            }
        }
        assert forall|a: int, b: int| 0 <= a < b < st2.len() implies #[trigger] st2[a] < #[trigger] st2[b] by {
            assert(st2[a] == st[a]);
            if b < st.len() {
                assert(st2[b] == st[b]);
            }
        }
    }
    assert(changed_only(s0, s1, i, st, nf, nf)) by {
        assert forall|j: int| 0 <= j < s0.len() && !#[trigger] is_desc(j, i) && s1[j] != s0[j] implies exists|t: int|
            nf <= t < nf && #[trigger] st[t] == j by {
        }
    }
    assert(changed_only(s1, s2, i, st, nf, nf)) by {
        assert forall|j: int| 0 <= j < s1.len() && !#[trigger] is_desc(j, i) && s2[j] != s1[j] implies exists|t: int|
            nf <= t < nf && #[trigger] st[t] == j by {
            assert(!is_desc(j, 2 * i + 1));
        }
    }
    lemma_changed_trans(s0, s1, s2, i, st, nf, nf, nf);
    assert(s2[i] == s1[i]);
    if has_right {
        lemma_other_untouched(s2, s3, i, 2 * i + 2, st2, nf, nf + m1);
        lemma_changed_pushed(s2, s3, i, 2 * i + 2, st, nf, nf + m1);
        assert(min_int(nf + m1, ns) == nf + m);
        lemma_changed_trans(s0, s2, s3, i, st, nf, nf, nf + m);
        assert forall|u: int| nf <= u < nf + m implies s3[#[trigger] st[u] as int] == Some(kr[u - nf]) by {
            assert(st2[u] == st[u]);
        }
        if m1 == f + 1 {
            assert(st2[ns] == i as usize);
            assert(s3[i] == Some(kr[f]));
            assert(inorder(s3, i) == Seq::<Entry<K, V>>::empty() + seq![kr[f]] + kr.skip(m1));
            assert(inorder(s3, i) =~= kr.skip(m));
            lemma_all_none(s3, 2 * i + 1);
        } else {
            assert(s3[i] is None) by {
                if s3[i] != s2[i] {
                    let t = choose|t: int| nf <= t < nf + m1 && #[trigger] st2[t] == i;
                    assert(st2[t] == st[t]);
                }
            }
            lemma_clean_empty(s3, 2 * i + 2);
            assert(inorder(s3, i) =~= kr.skip(m));
        }
    } else {
        lemma_clean_empty(s0, 2 * i + 2);
        assert forall|j: int| 0 <= j < s0.len() && #[trigger] is_desc(j, 2 * i + 2) implies s0[j] == s2[j] by {
            assert(j > i);
            assert(!is_desc(j, 2 * i + 1));
        }
        lemma_frame(s0, s2, 2 * i + 2);
        assert(inorder(s3, i) =~= kr.skip(m));
    }
}

/// Pushing the cell `i` on a stack of cells before `i`.
pub proof fn lemma_slots_push(st: Seq<usize>, i: int)
    requires
        0 <= i <= usize::MAX,
        slots_before(st, i),
    ensures
        slots_before(st.push(i as usize), i + 1),
        slots_before(st.push(i as usize), 2 * i + 1),
        slots_before(st.push(i as usize), 2 * i + 2),
{
    let st2 = st.push(i as usize);
    assert forall|t: int| 0 <= t < st2.len() implies (#[trigger] st2[t] as int) < i + 1 by {
        if t < st.len() {
            assert(st2[t] == st[t]);
        }
    }
    assert forall|a: int, b: int| 0 <= a < b < st2.len() implies #[trigger] st2[a] < #[trigger] st2[b] by {
        assert(st2[a] == st[a]);
        if b < st.len() {
            assert(st2[b] == st[b]);
        }
    }
}

/// A stack of cells before `a` lies before any `b >= a`.
pub proof fn lemma_slots_weaken(st: Seq<usize>, a: int, b: int)
    requires
        slots_before(st, a),
        a <= b,
    ensures
        slots_before(st, b),
{
}

/// The empty stack lies before any cell.
pub proof fn lemma_slots_empty(bound: int)
    ensures
        slots_before(Seq::<usize>::empty(), bound),
{
}

/// A change confined to an empty stretch of slots is confined to the subtree.
pub proof fn lemma_changed_nothing<K, V>(
    s1: Seq<Option<Entry<K, V>>>,
    s2: Seq<Option<Entry<K, V>>>,
    idx: int,
    st: Seq<usize>,
    lo: int,
)
    requires
        changed_only(s1, s2, idx, st, lo, lo),
    ensures
        same_outside(s1, s2, idx),
{
}

/// A cell of a stack lies before the stack's bound.
pub proof fn lemma_slot_below(st: Seq<usize>, bound: int, t: int)
    requires
        slots_before(st, bound),
        0 <= t < st.len(),
    ensures
        (st[t] as int) < bound,
{
}

/// An unchanged tree changes in no slot.
pub proof fn lemma_changed_none<K, V>(s: Seq<Option<Entry<K, V>>>, idx: int, st: Seq<usize>, lo: int, hi: int)
    ensures
        changed_only(s, s, idx, st, lo, hi),
{
}

/// No slot holds anything yet.
pub proof fn lemma_holds_none<K, V>(s: Seq<Option<Entry<K, V>>>, st: Seq<usize>, lo: int, kept: Seq<Entry<K, V>>)
    ensures
        holds_largest(s, st, lo, 0, kept),
        holds_smallest(s, st, lo, 0, kept),
{
}

/// A subtree whose root is kept when the maximum slots were all filled from its right
/// subtree.
pub proof fn lemma_fill_max_early<K, V>(
    s0: Seq<Option<Entry<K, V>>>,
    s1: Seq<Option<Entry<K, V>>>,
    i: int,
    st: Seq<usize>,
    nf: int,
    l: Seq<Entry<K, V>>,
    x: Entry<K, V>,
    kr: Seq<Entry<K, V>>,
)
    requires
        0 <= i < s0.len(),
        0 <= nf <= st.len() <= i,
        slots_before(st, i),
        present(s0, i),
        s0[i] == Some(x),
        inorder(s0, 2 * i + 1) == l,
        clean(s0, i),
        present(s0, 2 * i + 2) ==> {
            &&& st.len() - nf <= kr.len()
            &&& changed_only(s0, s1, 2 * i + 2, st, nf, st.len() as int)
            &&& holds_largest(s1, st, nf, st.len() - nf, kr)
            &&& inorder(s1, 2 * i + 2) == kr.take(kr.len() - (st.len() - nf))
            &&& clean(s1, 2 * i + 2)
            &&& s1.len() == s0.len()
        },
        !present(s0, 2 * i + 2) ==> s1 == s0 && st.len() == nf && kr == Seq::<Entry<K, V>>::empty(),
    ensures
        ({
            let all = l + seq![x] + kr;
            let f = st.len() - nf;
            &&& f == min_int(f, all.len() as int)
            &&& inorder(s1, i) == all.take(all.len() - f)
            &&& clean(s1, i)
            &&& holds_largest(s1, st, nf, f, all)
            &&& changed_only(s0, s1, i, st, nf, nf + f)
        }),
{
    let all = l + seq![x] + kr;
    let f = st.len() - nf;
    lemma_children(i);
    if present(s0, 2 * i + 2) {
        lemma_sibling_untouched(s0, s1, i, 2 * i + 2, st, nf, st.len() as int);
        lemma_changed_child(s0, s1, i, 2 * i + 2, st, nf, st.len() as int);
        assert(inorder(s1, i) == l + seq![x] + kr.take(kr.len() - f));
        assert(inorder(s1, i) =~= all.take(all.len() - f));
        assert forall|u: int| nf <= u < nf + f implies s1[#[trigger] st[u] as int] == Some(all[all.len() - 1 - (u - nf)]) by {
            assert(all[all.len() - 1 - (u - nf)] == kr[kr.len() - 1 - (u - nf)]);
        }
    } else {
        assert(inorder(s1, i) == l + seq![x] + inorder(s0, 2 * i + 2));
        assert(inorder(s1, i) =~= all.take(all.len() - f));
    }
}

/// A subtree whose root is kept when the minimum slots were all filled from its left
/// subtree.
pub proof fn lemma_fill_min_early<K, V>(
    s0: Seq<Option<Entry<K, V>>>,
    s1: Seq<Option<Entry<K, V>>>,
    i: int,
    st: Seq<usize>,
    nf: int,
    r: Seq<Entry<K, V>>,
    x: Entry<K, V>,
    kl: Seq<Entry<K, V>>,
)
    requires
        0 <= i < s0.len(),
        0 <= nf <= st.len() <= i,
        slots_before(st, i),
        present(s0, i),
        s0[i] == Some(x),
        inorder(s0, 2 * i + 2) == r,
        clean(s0, i),
        present(s0, 2 * i + 1) ==> {
            &&& st.len() - nf <= kl.len()
            &&& changed_only(s0, s1, 2 * i + 1, st, nf, st.len() as int)
            &&& holds_smallest(s1, st, nf, st.len() - nf, kl)
            &&& inorder(s1, 2 * i + 1) == kl.skip(st.len() - nf)
            &&& clean(s1, 2 * i + 1)
            &&& s1.len() == s0.len()
        },
        !present(s0, 2 * i + 1) ==> s1 == s0 && st.len() == nf && kl == Seq::<Entry<K, V>>::empty(),
    ensures
        ({
            let all = kl + seq![x] + r;
            let f = st.len() - nf;
            &&& f == min_int(f, all.len() as int)
            &&& inorder(s1, i) == all.skip(f)
            &&& clean(s1, i)
            &&& holds_smallest(s1, st, nf, f, all)
            &&& changed_only(s0, s1, i, st, nf, nf + f)
        }),
{
    let all = kl + seq![x] + r;
    let f = st.len() - nf;
    lemma_children(i);
    if present(s0, 2 * i + 1) {
        lemma_sibling_untouched(s0, s1, i, 2 * i + 1, st, nf, st.len() as int);
        lemma_changed_child(s0, s1, i, 2 * i + 1, st, nf, st.len() as int);
        assert(inorder(s1, i) == kl.skip(f) + seq![x] + r);
        assert(inorder(s1, i) =~= all.skip(f));
        assert forall|u: int| nf <= u < nf + f implies s1[#[trigger] st[u] as int] == Some(all[u - nf]) by {
            assert(all[u - nf] == kl[u - nf]);
        }
    } else {
        assert(inorder(s1, i) == inorder(s0, 2 * i + 1) + seq![x] + r);
        assert(inorder(s1, i) =~= all.skip(f));
    }
}

/// The last steps of a bulk deletion at the topmost selected cell `i`: its entry was taken,
/// the left subtree kept `kl` and could fill the cell from below, then the right subtree kept
/// `kr` and could fill the cell when it was still empty.
pub proof fn lemma_taken_both_tail<K, V>(
    s0: Seq<Option<Entry<K, V>>>,
    s1: Seq<Option<Entry<K, V>>>,
    s2: Seq<Option<Entry<K, V>>>,
    s3: Seq<Option<Entry<K, V>>>,
    i: int,
    m1: int,
    m2: int,
    kl: Seq<Entry<K, V>>,
    kr: Seq<Entry<K, V>>,
)
    requires
        0 <= i < s0.len() < usize::MAX / 2,
        clean(s0, i),
        present(s0, i),
        s1 == s0.update(i, None),
        present(s0, 2 * i + 1) ==> {
            &&& m1 == min_int(1, kl.len() as int)
            &&& changed_only(s1, s2, 2 * i + 1, seq![i as usize], 0, m1)
            &&& holds_largest(s2, seq![i as usize], 0, m1, kl)
            &&& inorder(s2, 2 * i + 1) == kl.take(kl.len() - m1)
            &&& clean(s2, 2 * i + 1)
            &&& s2.len() == s1.len()
        },
        !present(s0, 2 * i + 1) ==> s2 == s1 && m1 == 0 && kl == Seq::<Entry<K, V>>::empty(),
        present(s0, 2 * i + 2) && s2[i] is None ==> {
            &&& m2 == min_int(1, kr.len() as int)
            &&& changed_only(s2, s3, 2 * i + 2, seq![i as usize], 0, m2)
            &&& holds_smallest(s3, seq![i as usize], 0, m2, kr)
            &&& inorder(s3, 2 * i + 2) == kr.skip(m2)
            &&& clean(s3, 2 * i + 2)
            &&& s3.len() == s2.len()
        },
        present(s0, 2 * i + 2) && s2[i] is Some ==> {
            &&& same_outside(s2, s3, 2 * i + 2)
            &&& inorder(s3, 2 * i + 2) == kr
            &&& clean(s3, 2 * i + 2)
        },
        !present(s0, 2 * i + 2) ==> s3 == s2 && kr == Seq::<Entry<K, V>>::empty(),
    ensures
        s3.len() == s0.len(),
        inorder(s3, i) == kl + kr,
        clean(s3, i),
        same_outside(s0, s3, i),
{
    lemma_children(i);
    assert(is_desc(i, i));
    let one = seq![i as usize];
    assert(one[0] == i as usize);
    // the left part changed only the left subtree and the cell `i`
    assert forall|j: int| 0 <= j < s0.len() && !#[trigger] is_desc(j, i) implies s2[j] == s0[j] by {
        assert(!is_desc(j, 2 * i + 1));
        if present(s0, 2 * i + 1) && s2[j] != s1[j] {
            let t = choose|t: int| 0 <= t < m1 && #[trigger] one[t] == j;
        }
    }
    assert forall|j: int| 0 <= j < s0.len() && #[trigger] is_desc(j, 2 * i + 2) implies s2[j] == s1[j] by {
        assert(!is_desc(j, 2 * i + 1));
        assert(j > i);
        if present(s0, 2 * i + 1) && s2[j] != s1[j] {
            let t = choose|t: int| 0 <= t < m1 && #[trigger] one[t] == j;
        }
    }
    assert forall|j: int| 0 <= j < s0.len() && #[trigger] is_desc(j, 2 * i + 2) implies s1[j] == s0[j] by {
        assert(j > i);
    }
    assert forall|j: int| 0 <= j < s0.len() && #[trigger] is_desc(j, 2 * i + 1) implies s1[j] == s0[j] by {
        assert(j > i);
    }
    lemma_frame(s0, s1, 2 * i + 2);
    lemma_frame(s1, s2, 2 * i + 2);
    lemma_frame(s0, s1, 2 * i + 1);
    // the right part changed only the right subtree and the cell `i`
    let hi2 = if present(s0, 2 * i + 2) && s2[i] is None { m2 } else { 0 };
    assert forall|j: int| 0 <= j < s0.len() && #[trigger] is_desc(j, 2 * i + 1) implies s3[j] == s2[j] by {
        assert(!is_desc(j, 2 * i + 2));
        assert(j > i);
        if present(s0, 2 * i + 2) && s3[j] != s2[j] {
            if s2[i] is None {
                let t = choose|t: int| 0 <= t < m2 && #[trigger] one[t] == j;
            }
        }
    }
    assert forall|j: int| 0 <= j < s0.len() && !#[trigger] is_desc(j, i) implies s3[j] == s2[j] by {
        assert(!is_desc(j, 2 * i + 2));
        if present(s0, 2 * i + 2) && s3[j] != s2[j] {
            if s2[i] is None {
                let t = choose|t: int| 0 <= t < m2 && #[trigger] one[t] == j;
            }
        }
    }
    lemma_frame(s2, s3, 2 * i + 1);
    if present(s0, 2 * i + 1) && m1 == 1 {
        // the largest kept entry of the left subtree filled the cell
        assert(s2[i] == Some(kl[kl.len() - 1]));
        assert(s3[i] == s2[i]) by {
            assert(!is_desc(i, 2 * i + 2));
        }
        assert(kl.take(kl.len() - 1) + seq![kl[kl.len() - 1]] =~= kl);
        if present(s0, 2 * i + 2) {
            assert(inorder(s3, i) == kl.take(kl.len() - 1) + seq![kl[kl.len() - 1]] + kr);
        } else {
            lemma_all_none(s0, 2 * i + 2);
            assert(inorder(s3, i) == kl.take(kl.len() - 1) + seq![kl[kl.len() - 1]] + inorder(s0, 2 * i + 2));
        }
        assert(inorder(s3, i) =~= kl + kr);
    } else {
        // the cell stayed empty after the left part
        assert(s2[i] is None) by {
            if present(s0, 2 * i + 1) && s2[i] != s1[i] {
                let t = choose|t: int| 0 <= t < m1 && #[trigger] one[t] == i;
            }
        }
        assert(kl.len() == 0);
        if present(s0, 2 * i + 1) {
            assert(inorder(s2, 2 * i + 1).len() == 0);
            lemma_clean_empty(s2, 2 * i + 1);
        } else {
            lemma_clean_empty(s0, 2 * i + 1);
            lemma_frame(s0, s2, 2 * i + 1);
        }
        lemma_all_none(s3, 2 * i + 1);
        assert(kl + kr =~= kr);
        if present(s0, 2 * i + 2) && m2 == 1 {
            assert(s3[i] == Some(kr[0]));
            assert(inorder(s3, i) == Seq::<Entry<K, V>>::empty() + seq![kr[0]] + kr.skip(1));
            assert(inorder(s3, i) =~= kr);
        } else {
            assert(s3[i] is None) by {
                if present(s0, 2 * i + 2) && s3[i] != s2[i] {
                    let t = choose|t: int| 0 <= t < m2 && #[trigger] one[t] == i;
                }
            }
            if present(s0, 2 * i + 2) {
                assert(inorder(s3, 2 * i + 2).len() == 0);
                lemma_clean_empty(s3, 2 * i + 2);
            } else {
                lemma_clean_empty(s0, 2 * i + 2);
                lemma_frame(s0, s3, 2 * i + 2);
            }
            assert(kr.len() == 0);
            assert(inorder(s3, i) =~= kl + kr);
        }
    }
}

impl<K: Key, V> TreeRepr<K, V> {
    /// The number of open slots on the stack of maximum slots.
    pub open spec fn open_max(&self) -> int {
        self.delete_range_cache.slots_max.nslots - self.delete_range_cache.slots_max.nfilled
    }

    /// The number of open slots on the stack of minimum slots.
    pub open spec fn open_min(&self) -> int {
        self.delete_range_cache.slots_min.nslots - self.delete_range_cache.slots_min.nfilled
    }

    /// Moves the entry of cell `idx` into the deepest open maximum slot.
    pub fn fill_slot_max(&mut self, idx: usize)
        requires
            present(old(self).data@, idx as int),
            old(self).delete_range_cache.slots_max.wf(),
            old(self).delete_range_cache.slots_max.nfilled < old(self).delete_range_cache.slots_max.nslots,
            old(self).delete_range_cache.slots_max.stack()[old(self).delete_range_cache.slots_max.nfilled as int]
                < old(self).data@.len(),
        ensures
            final(self).data@ == old(self).data@.update(idx as int, None).update(
                old(self).delete_range_cache.slots_max.stack()[old(self).delete_range_cache.slots_max.nfilled as int] as int,
                old(self).data@[idx as int],
            ),
            final(self).delete_range_cache.slots_max.wf(),
            final(self).delete_range_cache.slots_max.nfilled == old(self).delete_range_cache.slots_max.nfilled + 1,
            final(self).delete_range_cache.slots_max.nslots == old(self).delete_range_cache.slots_max.nslots,
            final(self).delete_range_cache.slots_max.slots == old(self).delete_range_cache.slots_max.slots,
            final(self).delete_range_cache.slots_min == old(self).delete_range_cache.slots_min,
            final(self).size == old(self).size,
    {
        let dst_idx = self.delete_range_cache.slots_max.fill();
        self.move_from_to(idx, dst_idx);
    }

    /// Moves the entry of cell `idx` into the deepest open minimum slot.
    pub fn fill_slot_min(&mut self, idx: usize)
        requires
            present(old(self).data@, idx as int),
            old(self).delete_range_cache.slots_min.wf(),
            old(self).delete_range_cache.slots_min.nfilled < old(self).delete_range_cache.slots_min.nslots,
            old(self).delete_range_cache.slots_min.stack()[old(self).delete_range_cache.slots_min.nfilled as int]
                < old(self).data@.len(),
        ensures
            final(self).data@ == old(self).data@.update(idx as int, None).update(
                old(self).delete_range_cache.slots_min.stack()[old(self).delete_range_cache.slots_min.nfilled as int] as int,
                old(self).data@[idx as int],
            ),
            final(self).delete_range_cache.slots_min.wf(),
            final(self).delete_range_cache.slots_min.nfilled == old(self).delete_range_cache.slots_min.nfilled + 1,
            final(self).delete_range_cache.slots_min.nslots == old(self).delete_range_cache.slots_min.nslots,
            final(self).delete_range_cache.slots_min.slots == old(self).delete_range_cache.slots_min.slots,
            final(self).delete_range_cache.slots_max == old(self).delete_range_cache.slots_max,
            final(self).size == old(self).size,
    {
        let dst_idx = self.delete_range_cache.slots_min.fill();
        self.move_from_to(idx, dst_idx);
    }

    /// Moves the largest entries of the subtree at `idx` into the open maximum slots, largest
    /// first, and keeps the rest of the subtree a valid tree.  Returns whether every open slot
    /// got filled.
    pub fn fill_slots_max(&mut self, idx: usize) -> (done: bool)
        requires
            present(old(self).data@, idx as int),
            old(self).data@.len() < usize::MAX / 2,
            clean(old(self).data@, idx as int),
            old(self).delete_range_cache.slots_max.wf(),
            old(self).open_max() > 0,
            old(self).delete_range_cache.slots_max.nslots <= idx,
            slots_before(old(self).delete_range_cache.slots_max.stack(), idx as int),
        ensures
            final(self).data@.len() == old(self).data@.len(),
            inorder(final(self).data@, idx as int) == inorder(old(self).data@, idx as int).take(
                inorder(old(self).data@, idx as int).len() - min_int(
                    old(self).open_max(),
                    inorder(old(self).data@, idx as int).len() as int,
                ),
            ),
            clean(final(self).data@, idx as int),
            holds_largest(
                final(self).data@,
                old(self).delete_range_cache.slots_max.stack(),
                old(self).delete_range_cache.slots_max.nfilled as int,
                min_int(old(self).open_max(), inorder(old(self).data@, idx as int).len() as int),
                inorder(old(self).data@, idx as int),
            ),
            changed_only(
                old(self).data@,
                final(self).data@,
                idx as int,
                old(self).delete_range_cache.slots_max.stack(),
                old(self).delete_range_cache.slots_max.nfilled as int,
                old(self).delete_range_cache.slots_max.nfilled + min_int(
                    old(self).open_max(),
                    inorder(old(self).data@, idx as int).len() as int,
                ),
            ),
            final(self).delete_range_cache.slots_max.wf(),
            final(self).delete_range_cache.slots_max.nslots == old(self).delete_range_cache.slots_max.nslots,
            final(self).delete_range_cache.slots_max.stack() == old(self).delete_range_cache.slots_max.stack(),
            final(self).delete_range_cache.slots_max.nfilled == old(self).delete_range_cache.slots_max.nfilled
                + min_int(old(self).open_max(), inorder(old(self).data@, idx as int).len() as int),
            final(self).delete_range_cache.slots_min == old(self).delete_range_cache.slots_min,
            final(self).size == old(self).size,
            done == (min_int(old(self).open_max(), inorder(old(self).data@, idx as int).len() as int)
                == old(self).open_max()),
        decreases cell_measure(old(self).data@.len() as int, idx as int),
    {
        let ghost s0 = self.data@;
        let ghost i = idx as int;
        let ghost st = self.delete_range_cache.slots_max.stack();
        let ghost nf = self.delete_range_cache.slots_max.nfilled as int;
        let ghost ns = self.delete_range_cache.slots_max.nslots as int;
        let ghost f = ns - nf;
        let ghost l = inorder(s0, 2 * i + 1);
        let ghost r = inorder(s0, 2 * i + 2);
        let ghost x = s0[i].unwrap();
        let ghost all = inorder(s0, i);
        let ghost m = min_int(f, all.len() as int);
        proof {
            lemma_children(i);
            assert(all == l + seq![x] + r);
            assert(is_desc(i, i));
        }
        let ghost mut m1: int = 0;
        if self.has_right(idx) {
            self.fill_slots_max(righti(idx));
            proof {
                m1 = min_int(f, r.len() as int);
            }
            if !self.delete_range_cache.slots_max.has_open() {
                let ghost s1 = self.data@;
                proof {
                    lemma_sibling_untouched(s0, s1, i, 2 * i + 2, st, nf, nf + m1);
                    lemma_changed_child(s0, s1, i, 2 * i + 2, st, nf, nf + m1);
                    assert(m1 == f);
                    assert(m == f);
                    assert(inorder(s1, i) == l + seq![x] + r.take(r.len() - f));
                    assert(inorder(s1, i) =~= all.take(all.len() - m));
                    assert forall|u: int| nf <= u < nf + m implies s1[#[trigger] st[u] as int] == Some(
                        all[all.len() - 1 - (u - nf)],
                    ) by {
                        assert(all[all.len() - 1 - (u - nf)] == r[r.len() - 1 - (u - nf)]);
                    }
                }
                return true;
            }
        } else {
            proof {
                assert(r =~= Seq::<Entry<K, V>>::empty());
            }
        }
        let ghost s1 = self.data@;
        proof {
            if m1 > 0 || present(s0, 2 * i + 2) {
                lemma_sibling_untouched(s0, s1, i, 2 * i + 2, st, nf, nf + m1);
                assert(m1 == r.len());
                assert(inorder(s1, 2 * i + 2).len() == 0);
                lemma_clean_empty(s1, 2 * i + 2);
            } else {
                lemma_clean_empty(s0, 2 * i + 2);
            }
            assert(all_none(s1, 2 * i + 2));
            assert(s1[i] == s0[i]);
            assert(inorder(s1, 2 * i + 1) == l);
            assert(clean(s1, 2 * i + 1));
            assert(st[nf + m1] < i);
        }
        self.fill_slot_max(idx);
        let ghost s2 = self.data@;
        let ghost dst = st[nf + m1] as int;
        proof {
            assert forall|j: int| 0 <= j < s1.len() && #[trigger] is_desc(j, 2 * i + 1) implies s1[j] == s2[j] by {
                assert(j >= 2 * i + 1);
            }
            assert forall|j: int| 0 <= j < s1.len() && #[trigger] is_desc(j, 2 * i + 2) implies s1[j] == s2[j] by {
                assert(j >= 2 * i + 2);
            }
            lemma_frame(s1, s2, 2 * i + 1);
            lemma_frame(s1, s2, 2 * i + 2);
        }
        let done;
        let ghost mut m2: int = 0;
        if self.has_left(idx) {
            self.delete_range_cache.slots_max.push(idx);
            proof {
                assert(self.delete_range_cache.slots_max.stack() == st.push(idx));
                assert(slots_before(st.push(idx), 2 * i + 1));
            }
            self.fill_slots_max(lefti(idx));
            proof {
                m2 = min_int(f - m1, l.len() as int);
            }
            self.delete_range_cache.slots_max.pop();
            done = !self.is_nil(idx);
        } else {
            done = false;
            proof {
                assert(l =~= Seq::<Entry<K, V>>::empty());
            }
        }
        let ghost s3 = self.data@;
        proof {
            lemma_changed_child(s0, s1, i, 2 * i + 2, st, nf, nf + m1);
            lemma_fill_max_tail(s0, s1, s2, s3, i, st, nf, m1, m2, l, x, r, present(s0, 2 * i + 1));
        }
        done || !self.delete_range_cache.slots_max.has_open()
    }

    /// Moves the smallest entries of the subtree at `idx` into the open minimum slots,
    /// smallest first, and keeps the rest of the subtree a valid tree.  Returns whether every
    /// open slot got filled.
    pub fn fill_slots_min(&mut self, idx: usize) -> (done: bool)
        requires
            present(old(self).data@, idx as int),
            old(self).data@.len() < usize::MAX / 2,
            clean(old(self).data@, idx as int),
            old(self).delete_range_cache.slots_min.wf(),
            old(self).open_min() > 0,
            old(self).delete_range_cache.slots_min.nslots <= idx,
            slots_before(old(self).delete_range_cache.slots_min.stack(), idx as int),
        ensures
            final(self).data@.len() == old(self).data@.len(),
            inorder(final(self).data@, idx as int) == inorder(old(self).data@, idx as int).skip(
                min_int(old(self).open_min(), inorder(old(self).data@, idx as int).len() as int),
            ),
            clean(final(self).data@, idx as int),
            holds_smallest(
                final(self).data@,
                old(self).delete_range_cache.slots_min.stack(),
                old(self).delete_range_cache.slots_min.nfilled as int,
                min_int(old(self).open_min(), inorder(old(self).data@, idx as int).len() as int),
                inorder(old(self).data@, idx as int),
            ),
            changed_only(
                old(self).data@,
                final(self).data@,
                idx as int,
                old(self).delete_range_cache.slots_min.stack(),
                old(self).delete_range_cache.slots_min.nfilled as int,
                old(self).delete_range_cache.slots_min.nfilled + min_int(
                    old(self).open_min(),
                    inorder(old(self).data@, idx as int).len() as int,
                ),
            ),
            final(self).delete_range_cache.slots_min.wf(),
            final(self).delete_range_cache.slots_min.nslots == old(self).delete_range_cache.slots_min.nslots,
            final(self).delete_range_cache.slots_min.stack() == old(self).delete_range_cache.slots_min.stack(),
            final(self).delete_range_cache.slots_min.nfilled == old(self).delete_range_cache.slots_min.nfilled
                + min_int(old(self).open_min(), inorder(old(self).data@, idx as int).len() as int),
            final(self).delete_range_cache.slots_max == old(self).delete_range_cache.slots_max,
            final(self).size == old(self).size,
            done == (min_int(old(self).open_min(), inorder(old(self).data@, idx as int).len() as int)
                == old(self).open_min()),
        decreases cell_measure(old(self).data@.len() as int, idx as int),
    {
        let ghost s0 = self.data@;
        let ghost i = idx as int;
        let ghost st = self.delete_range_cache.slots_min.stack();
        let ghost nf = self.delete_range_cache.slots_min.nfilled as int;
        let ghost ns = self.delete_range_cache.slots_min.nslots as int;
        let ghost f = ns - nf;
        let ghost l = inorder(s0, 2 * i + 1);
        let ghost r = inorder(s0, 2 * i + 2);
        let ghost x = s0[i].unwrap();
        let ghost all = inorder(s0, i);
        let ghost m = min_int(f, all.len() as int);
        proof {
            lemma_children(i);
            assert(all == l + seq![x] + r);
            assert(is_desc(i, i));
        }
        let ghost mut m1: int = 0;
        if self.has_left(idx) {
            self.fill_slots_min(lefti(idx));
            proof {
                m1 = min_int(f, l.len() as int);
            }
            if !self.delete_range_cache.slots_min.has_open() {
                let ghost s1 = self.data@;
                proof {
                    lemma_sibling_untouched(s0, s1, i, 2 * i + 1, st, nf, nf + m1);
                    lemma_changed_child(s0, s1, i, 2 * i + 1, st, nf, nf + m1);
                    assert(m1 == f);
                    assert(m == f);
                    assert(inorder(s1, i) == l.skip(f) + seq![x] + r);
                    assert(inorder(s1, i) =~= all.skip(m));
                    assert forall|u: int| nf <= u < nf + m implies s1[#[trigger] st[u] as int] == Some(all[u - nf]) by {
                        assert(all[u - nf] == l[u - nf]);
                    }
                }
                return true;
            }
        } else {
            proof {
                assert(l =~= Seq::<Entry<K, V>>::empty());
            }
        }
        let ghost s1 = self.data@;
        proof {
            if m1 > 0 || present(s0, 2 * i + 1) {
                lemma_sibling_untouched(s0, s1, i, 2 * i + 1, st, nf, nf + m1);
                assert(m1 == l.len());
                assert(inorder(s1, 2 * i + 1).len() == 0);
                lemma_clean_empty(s1, 2 * i + 1);
                lemma_changed_child(s0, s1, i, 2 * i + 1, st, nf, nf + m1);
            } else {
                lemma_clean_empty(s0, 2 * i + 1);
                assert(s1 == s0);
                assert(changed_only(s0, s1, i, st, nf, nf + m1));
            }
            assert(st[nf + m1] < i);
        }
        self.fill_slot_min(idx);
        let ghost s2 = self.data@;
        let done;
        let ghost mut m2: int = 0;
        if self.has_right(idx) {
            proof {
                assert forall|j: int| 0 <= j < s1.len() && #[trigger] is_desc(j, 2 * i + 2) implies s1[j] == s2[j] by {
                    assert(j >= 2 * i + 2);
                }
                lemma_frame(s1, s2, 2 * i + 2);
            }
            self.delete_range_cache.slots_min.push(idx);
            proof {
                assert(self.delete_range_cache.slots_min.stack() == st.push(idx));
                assert(slots_before(st.push(idx), 2 * i + 2));
            }
            self.fill_slots_min(righti(idx));
            proof {
                m2 = min_int(f - m1, r.len() as int);
            }
            self.delete_range_cache.slots_min.pop();
            done = !self.is_nil(idx);
        } else {
            done = false;
        }
        let ghost s3 = self.data@;
        proof {
            lemma_fill_min_tail(s0, s1, s2, s3, i, st, nf, m1, m2, r, x, l, present(s0, 2 * i + 2));
        }
        done || !self.delete_range_cache.slots_min.has_open()
    }

    /// Moves every entry of the subtree at `idx` into `sink`, in order.
    pub fn consume_subtree<S: Sink<(K, V)>>(&mut self, sink: &mut S, idx: usize)
        requires
            old(self).data@.len() < usize::MAX / 2,
            clean(old(self).data@, idx as int),
            old(self).size >= inorder(old(self).data@, idx as int).len(),
        ensures
            old(sink).faithful() ==> final(sink).faithful(),
            all_none(final(self).data@, idx as int),
            same_outside(old(self).data@, final(self).data@, idx as int),
            final(sink).consumed() == old(sink).consumed() + pairs(inorder(old(self).data@, idx as int)),
            final(self).size == old(self).size - inorder(old(self).data@, idx as int).len(),
            final(self).delete_range_cache == old(self).delete_range_cache,
        decreases cell_measure(old(self).data@.len() as int, idx as int),
    {
        let ghost s0 = self.data@;
        let ghost i = idx as int;
        if self.is_nil(idx) {
            proof {
                assert(inorder(s0, i) =~= Seq::<Entry<K, V>>::empty());
                assert(old(sink).consumed() + pairs(inorder(s0, i)) =~= old(sink).consumed());
            }
            return;
        }
        proof {
            lemma_children(i);
        }
        let ghost l = inorder(s0, 2 * i + 1);
        let ghost r = inorder(s0, 2 * i + 2);
        let ghost x = s0[i].unwrap();
        self.consume_subtree(sink, lefti(idx));
        let ghost s1 = self.data@;
        proof {
            assert(s1[i] == s0[i]);
            lemma_frame(s0, s1, 2 * i + 2);
        }
        self.move_to(idx, sink);
        let ghost s2 = self.data@;
        proof {
            lemma_frame(s1, s2, 2 * i + 2);
            lemma_frame(s1, s2, 2 * i + 1);
        }
        self.consume_subtree(sink, righti(idx));
        let ghost s3 = self.data@;
        proof {
            lemma_frame(s2, s3, 2 * i + 1);
            assert(s3[i] is None);
            assert forall|j: int| 0 <= j < s0.len() && !#[trigger] is_desc(j, i) implies s0[j] == s3[j] by {
                assert(is_desc(i, i));
                assert(!is_desc(j, 2 * i + 1));
                assert(!is_desc(j, 2 * i + 2));
            }
            lemma_items_add(l, seq![x]);
            lemma_items_add(l + seq![x], r);
            assert(pairs(seq![x]) =~= seq![x.item]);
            assert(old(sink).consumed() + pairs(l) + seq![x.item] + pairs(r) =~= old(sink).consumed() + pairs(
                inorder(s0, i),
            ));
        }
    }
}

} // verus!
