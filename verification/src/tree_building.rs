use vstd::prelude::*;

use crate::key::Key;
use crate::node::{Entry, erank};
use crate::slot_stack::DeleteRangeCache;
use crate::tree_repr::{depth, depth_of, lefti, righti, TreeRepr};
use crate::tree_spec::{
    all_none, cell_measure, clean, inorder, is_desc, lemma_children, lemma_desc_split, lemma_frame, present,
    same_outside, sorted_entries,
};
use crate::bulk_delete::{pairs, lemma_entries_of_items, lemma_items_of_entries};
use crate::layout::{build_height, empty_from, full_to, leftmost, spread_filled};
use crate::build_iters::p2;
use crate::sink::Sink;

verus! {

/// The number of cells below `len` in the subtree of cell `i`.
pub open spec fn count_below(i: int, len: int) -> nat
    decreases cell_measure(len, i),
{
    if 0 <= i < len {
        1 + count_below(2 * i + 1, len) + count_below(2 * i + 2, len)
    } else {
        0
    }
}

/// The entries holding the given pairs.
pub open spec fn to_entries<K, V>(s: Seq<(K, V)>) -> Seq<Entry<K, V>> {
    s.map_values(|t: (K, V)| Entry { item: t })
}

/// The pairs are sorted by key (equal keys may repeat).
pub open spec fn sorted_items<K: Key, V>(s: Seq<(K, V)>) -> bool {
    forall|a: int, b: int| 0 <= a <= b < s.len() ==> (#[trigger] s[a]).0.rank() <= (#[trigger] s[b]).0.rank()
}

/// The last `c` elements of `s`, the last one first.
pub open spec fn popped<A>(s: Seq<A>, c: int) -> Seq<A> {
    Seq::new(c as nat, |k: int| s[s.len() - 1 - k])
}

/// Every cell of the subtree of `i` below `len` holds an entry.
pub open spec fn filled_below<K, V>(s: Seq<Option<Entry<K, V>>>, i: int) -> bool {
    forall|j: int| 0 <= j < s.len() && #[trigger] is_desc(j, i) ==> s[j] is Some
}

/// Adding one more cell adds it to the subtrees that hold it.
pub proof fn lemma_count_step(i: int, n: int)
    requires
        0 <= i,
        0 <= n,
    ensures
        count_below(i, n + 1) == count_below(i, n) + (if is_desc(n, i) { 1int } else { 0int }),
    decreases cell_measure(n + 1, i),
{
    if i < n {
        lemma_count_step(2 * i + 1, n);
        lemma_count_step(2 * i + 2, n);
        lemma_children(i);
        if is_desc(n, i) {
            lemma_desc_split(n, i);
        }
    } else if i == n {
        assert(is_desc(n, i));
        assert(count_below(2 * i + 1, n + 1) == 0);
        assert(count_below(2 * i + 2, n + 1) == 0);
    } else {
        assert(!is_desc(n, i)) by {
            if is_desc(n, i) {
                crate::tree_spec::lemma_desc_nested(n, i, i);
            }
        }
    }
}

/// Every cell lies below the root: the whole tree has `n` cells below `n`.
pub proof fn lemma_count_all(n: int)
    requires
        0 <= n,
    ensures
        count_below(0, n) == n,
    decreases n,
{
    if n > 0 {
        lemma_count_all(n - 1);
        lemma_count_step(0, n - 1);
        lemma_desc_root(n - 1);
    }
}

/// Every cell lies in the subtree of the root.
pub proof fn lemma_desc_root(j: int)
    requires
        0 <= j,
    ensures
        is_desc(j, 0),
    decreases j,
{
    if j > 0 {
        lemma_desc_root((j - 1) / 2);
    }
}

/// A tree whose cells all hold entries is clean.
pub proof fn lemma_full_clean<K, V>(s: Seq<Option<Entry<K, V>>>, i: int)
    requires
        0 <= i,
        filled_below(s, i),
    ensures
        clean(s, i),
    decreases cell_measure(s.len() as int, i),
{
    if i < s.len() {
        lemma_children(i);
        assert(is_desc(i, i));
        lemma_full_clean(s, 2 * i + 1);
        lemma_full_clean(s, 2 * i + 2);
    }
}

impl<K: Key, V> TreeRepr<K, V> {
    /// Fills the empty cells of the subtree at `idx` that lie below `data.len()` in order with
    /// entries popped from the end of `src`.
    fn fill_inorder(data: &mut Vec<Option<Entry<K, V>>>, src: &mut Vec<(K, V)>, idx: usize)
        requires
            old(data)@.len() < usize::MAX / 2,
            idx <= 2 * old(data)@.len(),
            forall|j: int| 0 <= j < old(data)@.len() && #[trigger] is_desc(j, idx as int) ==> old(data)@[j] is None,
            old(src)@.len() >= count_below(idx as int, old(data)@.len() as int),
        ensures
            ({
                let c = count_below(idx as int, old(data)@.len() as int) as int;
                &&& final(data)@.len() == old(data)@.len()
                &&& same_outside(old(data)@, final(data)@, idx as int)
                &&& final(src)@ == old(src)@.take(old(src)@.len() - c)
                &&& inorder(final(data)@, idx as int) == to_entries(popped(old(src)@, c))
                &&& filled_below(final(data)@, idx as int)
            }),
        decreases cell_measure(old(data)@.len() as int, idx as int),
    {
        let ghost s0 = data@;
        let ghost src0 = src@;
        let ghost i = idx as int;
        let ghost n = s0.len() as int;
        if idx >= data.len() {
            proof {
                assert(src0.take(src0.len() as int) =~= src0);
                assert(inorder(s0, i) =~= Seq::<Entry<K, V>>::empty());
                assert(popped(src0, 0) =~= Seq::<(K, V)>::empty());
                assert forall|j: int| 0 <= j < s0.len() && #[trigger] is_desc(j, i) implies s0[j] is Some by {
                    crate::tree_spec::lemma_desc_nested(j, i, i);
                }
            }
            return;
        }
        let ghost cl = count_below(2 * i + 1, n) as int;
        let ghost cr = count_below(2 * i + 2, n) as int;
        proof {
            lemma_children(i);
            assert(is_desc(i, i));
        }
        Self::fill_inorder(data, src, lefti(idx));
        let ghost s1 = data@;
        let ghost src1 = src@;
        let item = src.pop().unwrap();
        data.set(idx, Some(Entry::from_tuple(item)));
        let ghost s2 = data@;
        let ghost src2 = src@;
        proof {
            assert forall|j: int| 0 <= j < n && #[trigger] is_desc(j, 2 * i + 2) implies s2[j] is None by {
                assert(!is_desc(j, 2 * i + 1));
                assert(j != i);
            }
        }
        Self::fill_inorder(data, src, righti(idx));
        let ghost s3 = data@;
        proof {
            let c = cl + 1 + cr;
            assert(c == count_below(i, n));
            // the cells outside the subtree of `idx`
            assert forall|j: int| 0 <= j < n && !#[trigger] is_desc(j, i) implies s0[j] == s3[j] by {
                assert(!is_desc(j, 2 * i + 1));
                assert(!is_desc(j, 2 * i + 2));
            }
            // the left subtree keeps what the first call put there
            assert forall|j: int| 0 <= j < n && #[trigger] is_desc(j, 2 * i + 1) implies s1[j] == s3[j] by {
                assert(!is_desc(j, 2 * i + 2));
                assert(j != i);
            }
            lemma_frame(s1, s3, 2 * i + 1);
            assert(s3[i] == Some(Entry { item: src0[src0.len() - 1 - cl] }));
            assert(src1 =~= src0.take(src0.len() - cl));
            assert(src@ =~= src0.take(src0.len() - c));
            assert(popped(src2, cr) =~= popped(src0, c).subrange(cl + 1, c));
            assert(popped(src0, cl) =~= popped(src0, c).subrange(0, cl));
            assert(to_entries(popped(src0, c)) =~= to_entries(popped(src0, cl)) + seq![
                Entry { item: src0[src0.len() - 1 - cl] },
            ] + to_entries(popped(src2, cr)));
            assert forall|j: int| 0 <= j < n && #[trigger] is_desc(j, i) implies s3[j] is Some by {
                if j != i {
                    lemma_desc_split(j, i);
                }
            }
        }
    }

    /// Builds a tree of the given sorted pairs: the cells `0..n` hold them, in order.
    pub fn with_sorted(sorted: Vec<(K, V)>) -> (t: Self)
        requires
            sorted_items(sorted@),
            sorted@.len() < usize::MAX / 4,
        ensures
            t.wf(),
            t@ == to_entries(sorted@),
            t.data@.len() == sorted@.len(),
            forall|j: int| 0 <= j < t.data@.len() ==> (#[trigger] t.data@[j]) is Some,
            sorted@.len() > 0 ==> full_to(t.data@, 0, (build_height(sorted@.len()) - 1) as nat),
            empty_from(t.data@, 0, build_height(sorted@.len())),
    {
        let mut sorted = sorted;
        let ghost orig = sorted@;
        let len = sorted.len();
        let mut src: Vec<(K, V)> = Vec::new();
        while sorted.len() > 0
            invariant
                sorted@ == orig.take(sorted@.len() as int),
                src@ =~= popped(orig, (orig.len() - sorted@.len()) as int),
                sorted@.len() <= orig.len(),
                src@.len() == orig.len() - sorted@.len(),
            decreases sorted@.len(),
        {
            let x = sorted.pop().unwrap();
            src.push(x);
            proof {
                assert(sorted@ =~= orig.take(sorted@.len() as int));
            }
        }
        let mut data: Vec<Option<Entry<K, V>>> = Vec::new();
        let mut k: usize = 0;
        while k < len
            invariant
                k <= len,
                data@.len() == k,
                forall|j: int| 0 <= j < k ==> (#[trigger] data@[j]) is None,
            decreases len - k,
        {
            data.push(None);
            k = k + 1;
        }
        proof {
            lemma_count_all(len as int);
        }
        Self::fill_inorder(&mut data, &mut src, 0);
        let height = if len == 0 {
            0
        } else {
            depth_of(len - 1) + 1
        };
        proof {
            let s = data@;
            assert forall|j: int| 0 <= j < s.len() implies (#[trigger] s[j]) is Some by {
                lemma_desc_root(j);
            }
            lemma_full_clean(s, 0);
            crate::layout::lemma_complete_shape(s);
            assert forall|j: int| 0 <= j < len implies popped(popped(orig, len as int), len as int)[j] == orig[j] by {
            }
            assert(popped(popped(orig, len as int), len as int) =~= orig);
            let e = to_entries(orig);
            assert forall|a: int, b: int| 0 <= a <= b < e.len() implies erank(#[trigger] e[a]) <= erank(#[trigger] e[b]) by {
                assert(e[a].item == orig[a] && e[b].item == orig[b]);
            }
        }
        TreeRepr { data: data, size: len, delete_range_cache: DeleteRangeCache::new(height) }
    }
}

/// The pairs in reverse order.
fn reversed<K, V>(v: Vec<(K, V)>) -> (r: Vec<(K, V)>)
    ensures
        r@ == popped(v@, v@.len() as int),
{
    let mut v = v;
    let ghost orig = v@;
    let mut r: Vec<(K, V)> = Vec::new();
    while v.len() > 0
        invariant
            v@ == orig.take(v@.len() as int),
            r@ =~= popped(orig, (orig.len() - v@.len()) as int),
            v@.len() <= orig.len(),
        decreases v@.len(),
    {
        let x = v.pop().unwrap();
        r.push(x);
        proof {
            assert(v@ =~= orig.take(v@.len() as int));
        }
    }
    r
}

/// The pairs of `s` whose keys have rank `k`, in their order.
pub open spec fn with_rank<K: Key, V>(s: Seq<(K, V)>, k: int) -> Seq<(K, V)> {
    s.filter(|p: (K, V)| p.0.rank() == k)
}

/// Appending a pair appends it to the pairs of its rank.
pub proof fn lemma_with_rank_push<K: Key, V>(s: Seq<(K, V)>, x: (K, V), k: int)
    ensures
        with_rank(s.push(x), k) == if x.0.rank() == k { with_rank(s, k).push(x) } else { with_rank(s, k) },
{
    reveal_with_fuel(Seq::filter, 1);
    assert(s.push(x).drop_last() =~= s);
}

/// The pairs of a rank in a concatenation.
pub proof fn lemma_with_rank_add<K: Key, V>(a: Seq<(K, V)>, b: Seq<(K, V)>, k: int)
    ensures
        with_rank(a + b, k) == with_rank(a, k) + with_rank(b, k),
{
    Seq::filter_distributes_over_add(a, b, |p: (K, V)| p.0.rank() == k);
}

/// Pairs all of whose ranks differ from `k` have none of rank `k`.
pub proof fn lemma_with_rank_none<K: Key, V>(s: Seq<(K, V)>, k: int)
    requires
        forall|j: int| 0 <= j < s.len() ==> (#[trigger] s[j]).0.rank() != k,
    ensures
        with_rank(s, k) == Seq::<(K, V)>::empty(),
    decreases s.len(),
{
    reveal_with_fuel(Seq::filter, 1);
    if s.len() > 0 {
        lemma_with_rank_none(s.drop_last(), k);
        assert(s.last() == s[s.len() - 1]);
    }
}

/// Merges two sorted runs of pairs; of two pairs with equal keys, the one of `a` comes first.
fn merge_sorted<K: Key, V>(a: Vec<(K, V)>, b: Vec<(K, V)>) -> (r: Vec<(K, V)>)
    requires
        sorted_items(a@),
        sorted_items(b@),
    ensures
        sorted_items(r@),
        r@.to_multiset() == a@.to_multiset().add(b@.to_multiset()),
        forall|k: int| #[trigger] with_rank(r@, k) == with_rank(a@, k) + with_rank(b@, k),
{
    broadcast use vstd::seq_lib::group_to_multiset_ensures, vstd::multiset::group_multiset_axioms;

    let ghost sa = a@;
    let ghost sb = b@;
    let mut ra = reversed(a);
    let mut rb = reversed(b);
    let mut out: Vec<(K, V)> = Vec::new();
    let ghost mut ia: int = 0;
    let ghost mut ib: int = 0;
    proof {
        assert(sa.take(0) =~= Seq::<(K, V)>::empty());
        assert(sb.take(0) =~= Seq::<(K, V)>::empty());
        assert(out@.to_multiset() =~= sa.take(0).to_multiset().add(sb.take(0).to_multiset()));
        assert forall|k: int| #[trigger] with_rank(out@, k) == with_rank(sa.take(0), k) + with_rank(sb.take(0), k) by {
            lemma_with_rank_none(out@, k);
            lemma_with_rank_none(sa.take(0), k);
            lemma_with_rank_none(sb.take(0), k);
            assert(Seq::<(K, V)>::empty() + Seq::<(K, V)>::empty() =~= Seq::<(K, V)>::empty());
        }
    }
    while ra.len() > 0 || rb.len() > 0
        invariant
            forall|k: int| #[trigger] with_rank(out@, k) == with_rank(sa.take(ia), k) + with_rank(sb.take(ib), k),
            ib > 0 && ia < sa.len() ==> sb[ib - 1].0.rank() < sa[ia].0.rank(),
            sorted_items(sa),
            sorted_items(sb),
            0 <= ia <= sa.len(),
            0 <= ib <= sb.len(),
            ra@.len() == sa.len() - ia,
            rb@.len() == sb.len() - ib,
            forall|j: int| 0 <= j < ra@.len() ==> #[trigger] ra@[j] == sa[sa.len() - 1 - j],
            forall|j: int| 0 <= j < rb@.len() ==> #[trigger] rb@[j] == sb[sb.len() - 1 - j],
            sorted_items(out@),
            out@.to_multiset() == sa.take(ia).to_multiset().add(sb.take(ib).to_multiset()),
            out@.len() > 0 && ia < sa.len() ==> out@.last().0.rank() <= sa[ia].0.rank(),
            out@.len() > 0 && ib < sb.len() ==> out@.last().0.rank() <= sb[ib].0.rank(),
        decreases ra@.len() + rb@.len(),
    {
        let take_a = if rb.len() == 0 {
            true
        } else if ra.len() == 0 {
            false
        } else {
            !rb[rb.len() - 1].0.key_lt(&ra[ra.len() - 1].0)
        };
        let ghost o0 = out@;
        let ghost ia0 = ia;
        let ghost ib0 = ib;
        if take_a {
            let x = ra.pop().unwrap();
            proof {
                assert(x == sa[ia]);
                assert(sa.take(ia + 1) =~= sa.take(ia).push(x));
                vstd::seq_lib::to_multiset_build(sa.take(ia), x);
                assert(sa.take(ia + 1).to_multiset() == sa.take(ia).to_multiset().insert(x));
                assert(o0.len() > 0 ==> o0.last().0.rank() <= x.0.rank());
                if ib < sb.len() {
                    assert(rb@[rb@.len() - 1] == sb[ib]);
                }
                ia = ia + 1;
            }
            out.push(x);
        } else {
            let x = rb.pop().unwrap();
            proof {
                assert(x == sb[ib]);
                assert(sb.take(ib + 1) =~= sb.take(ib).push(x));
                vstd::seq_lib::to_multiset_build(sb.take(ib), x);
                assert(sb.take(ib + 1).to_multiset() == sb.take(ib).to_multiset().insert(x));
                if ra@.len() > 0 {
                    assert(ra@[ra@.len() - 1] == sa[ia]);
                }
                ib = ib + 1;
            }
            out.push(x);
        }
        proof {
            let x = out@.last();
            assert(out@ == o0.push(x));
            vstd::seq_lib::to_multiset_build(o0, x);
            assert(out@.to_multiset() == o0.to_multiset().insert(x));
            assert forall|p: int, q: int| 0 <= p <= q < out@.len() implies (#[trigger] out@[p]).0.rank() <= (
            #[trigger] out@[q]).0.rank() by {
                if q == out@.len() - 1 && p < q {
                    assert(o0[p].0.rank() <= o0.last().0.rank());
                }
            }
            assert(out@.to_multiset() =~= sa.take(ia).to_multiset().add(sb.take(ib).to_multiset()));
            assert forall|k: int| #[trigger] with_rank(out@, k) == with_rank(sa.take(ia), k) + with_rank(sb.take(ib), k) by {
                lemma_with_rank_push(o0, x, k);
                if take_a {
                    assert(sa.take(ia) == sa.take(ia0).push(x));
                    assert(sb.take(ib) == sb.take(ib0));
                    lemma_with_rank_push(sa.take(ia0), x, k);
                    if x.0.rank() == k {
                        assert forall|j: int| 0 <= j < sb.take(ib0).len() implies (#[trigger] sb.take(ib0)[j]).0.rank()
                            != k by {
                            assert(sb[j].0.rank() <= sb[ib0 - 1].0.rank());
                        }
                        lemma_with_rank_none(sb.take(ib0), k);
                        assert(with_rank(sa.take(ia0), k) + Seq::<(K, V)>::empty() =~= with_rank(sa.take(ia0), k));
                        assert(with_rank(sa.take(ia0), k).push(x) + Seq::<(K, V)>::empty() =~= with_rank(
                            sa.take(ia0),
                            k,
                        ).push(x));
                    }
                } else {
                    assert(sb.take(ib) == sb.take(ib0).push(x));
                    assert(sa.take(ia) == sa.take(ia0));
                    lemma_with_rank_push(sb.take(ib0), x, k);
                    if x.0.rank() == k {
                        assert((with_rank(sa.take(ia0), k) + with_rank(sb.take(ib0), k)).push(x) =~= with_rank(
                            sa.take(ia0),
                            k,
                        ) + with_rank(sb.take(ib0), k).push(x));
                    }
                }
            }
        }
    }
    proof {
        assert(sa.take(ia) =~= sa);
        assert(sb.take(ib) =~= sb);
    }
    out
}

/// Sorts the pairs by key, keeping pairs with equal keys in their order: a merge sort.
pub fn sort_items<K: Key, V>(items: Vec<(K, V)>) -> (r: Vec<(K, V)>)
    ensures
        sorted_items(r@),
        r@.to_multiset() == items@.to_multiset(),
        forall|k: int| #[trigger] with_rank(r@, k) == with_rank(items@, k),
    decreases items@.len(),
{
    broadcast use vstd::seq_lib::group_to_multiset_ensures, vstd::multiset::group_multiset_axioms;

    let n = items.len();
    if n <= 1 {
        return items;
    }
    let mut left = items;
    let ghost all = left@;
    let right = left.split_off(n / 2);
    proof {
        assert(all =~= left@ + right@);
        vstd::seq_lib::lemma_multiset_commutative(left@, right@);
    }
    let ghost l0 = left@;
    let ghost r0 = right@;
    let sl = sort_items(left);
    let sr = sort_items(right);
    let m = merge_sorted(sl, sr);
    proof {
        assert forall|k: int| #[trigger] with_rank(m@, k) == with_rank(all, k) by {
            lemma_with_rank_add(l0, r0, k);
        }
    }
    m
}

impl<K: Key, V> TreeRepr<K, V> {
    /// Builds a tree of the given pairs, in any order.
    pub fn new(items: Vec<(K, V)>) -> (t: Self)
        requires
            items@.len() < usize::MAX / 4,
        ensures
            t.wf(),
            pairs(t@).to_multiset() == items@.to_multiset(),
            forall|k: int| #[trigger] with_rank(pairs(t@), k) == with_rank(items@, k),
            t.data@.len() == items@.len(),
            forall|j: int| 0 <= j < t.data@.len() ==> (#[trigger] t.data@[j]) is Some,
    {
        broadcast use vstd::seq_lib::group_to_multiset_ensures;

        let sorted = sort_items(items);
        proof {
            assert(sorted@.to_multiset().len() == items@.to_multiset().len());
            assert(sorted@.len() == items@.len());
        }
        let t = Self::with_sorted(sorted);
        proof {
            lemma_items_of_entries(sorted@);
        }
        t
    }

    /// Rebuilds the tree from its entries and `item`, placed after the entries whose keys are
    /// not greater than its key, into a storage with twice as many cells plus one, as a nearly
    /// complete tree with its empty cells spread over the bottom level.
    pub fn double_and_rebuild(&mut self, item: (K, V))
        requires
            old(self).wf(),
            old(self).data@.len() < usize::MAX / 8,
        ensures
            final(self).wf(),
            final(self).data@.len() == 2 * old(self).data@.len() + 1,
            exists|p: int|
                0 <= p <= old(self)@.len() && final(self)@ == old(self)@.insert(p, Entry { item: item }) && (forall|
                    j: int,
                | 0 <= j < p ==> (#[trigger] old(self)@[j]).item.0.rank() <= item.0.rank()) && (forall|j: int|
                    p <= j < old(self)@.len() ==> (#[trigger] old(self)@[j]).item.0.rank() > item.0.rank()),
            full_to(final(self).data@, 0, (build_height(old(self)@.len() + 1) - 1) as nat),
            empty_from(final(self).data@, 0, build_height(old(self)@.len() + 1)),
            forall|j: int|
                0 <= j < p2((build_height(old(self)@.len() + 1) - 1) as nat) ==> #[trigger] present(
                    final(self).data@,
                    leftmost(0, (build_height(old(self)@.len() + 1) - 1) as nat) + j,
                ) == spread_filled(old(self)@.len() + 1, j as nat),
    {
        proof {
            lemma_inorder_len(self.data@, 0);
        }
        let capacity = 2 * self.data.len() + 1;
        let ghost e = Entry { item: item };
        let ghost s0 = self@;
        let mut all: Vec<(K, V)> = Vec::new();
        self.consume_subtree(&mut all, 0);
        proof {
            lemma_entries_of_items(s0);
            assert(all@ =~= pairs(s0));
        }
        // the item goes after the entries whose keys are not greater than its key
        let mut pos: usize = 0;
        while pos < all.len() && !item.0.key_lt(&all[pos].0)
            invariant
                pos <= all@.len(),
                all@ == pairs(s0),
                forall|j: int| 0 <= j < pos ==> (#[trigger] all@[j]).0.rank() <= item.0.rank(),
            decreases all@.len() - pos,
        {
            pos = pos + 1;
        }
        let ghost a0 = all@;
        proof {
            assert forall|j: int| 0 <= j < pos implies (#[trigger] s0[j]).item.0.rank() <= item.0.rank() by {
                assert(s0[j].item == a0[j]);
            }
            assert forall|j: int| pos <= j < s0.len() implies (#[trigger] s0[j]).item.0.rank() > item.0.rank() by {
                assert(s0[pos as int].item == a0[pos as int]);
                assert(sorted_entries(s0));
                assert(erank(s0[pos as int]) <= erank(s0[j]));
            }
        }
        all.insert(pos, item);
        proof {
            assert forall|a: int, b: int| 0 <= a <= b < all@.len() implies (#[trigger] all@[a]).0.rank() <= (
            #[trigger] all@[b]).0.rank() by {
                assert(sorted_entries(s0));
                if a < pos {
                    assert(all@[a] == a0[a]);
                    assert(s0[a].item == a0[a]);
                }
                if b > pos {
                    assert(all@[b] == a0[b - 1]);
                    assert(s0[b - 1].item == a0[b - 1]);
                    if pos < a0.len() {
                        assert(s0[pos as int].item == a0[pos as int]);
                    }
                }
                if a > pos {
                    assert(all@[a] == a0[a - 1]);
                    assert(s0[a - 1].item == a0[a - 1]);
                    assert(s0[b - 1].item == a0[b - 1]);
                }
                if a < pos && b > pos {
                    assert(s0[a].item == a0[a]);
                }
            }
        }
        let ghost xs = all@;
        let n = all.len();
        let mut src: Vec<(K, V)> = Vec::new();
        while all.len() > 0
            invariant
                all@ == xs.take(all@.len() as int),
                src@ =~= popped(xs, (xs.len() - all@.len()) as int),
                all@.len() <= xs.len(),
                src@.len() == xs.len() - all@.len(),
            decreases all@.len(),
        {
            let y = all.pop().unwrap();
            src.push(y);
            proof {
                assert(all@ =~= xs.take(all@.len() as int));
            }
        }
        let mut data: Vec<Option<Entry<K, V>>> = Vec::new();
        let mut k: usize = 0;
        while k < capacity
            invariant
                k <= capacity,
                data@.len() == k,
                forall|j: int| 0 <= j < k ==> (#[trigger] data@[j]) is None,
            decreases capacity - k,
        {
            data.push(None);
            k = k + 1;
        }
        proof {
            crate::partial_rebuild::lemma_root_fits(capacity as int, n as nat);
        }
        let hb = Self::fill_count(&mut data, &mut src, 0, n);
        let height = depth_of(capacity);
        let t = TreeRepr { data: data, size: n, delete_range_cache: DeleteRangeCache::new(height) };
        proof {
            assert(popped(popped(xs, n as int), n as int) =~= xs);
            lemma_items_of_entries(xs);
            assert(to_entries(xs) =~= s0.insert(pos as int, e));
        }
        *self = t;
        proof {
            let p = pos as int;
            assert(0 <= p <= old(self)@.len() && self@ == old(self)@.insert(p, Entry { item: item }) && (forall|j: int|
                0 <= j < p ==> (#[trigger] old(self)@[j]).item.0.rank() <= item.0.rank()) && (forall|j: int|
                p <= j < old(self)@.len() ==> (#[trigger] old(self)@[j]).item.0.rank() > item.0.rank()));
        }
    }
}

/// The subtree of `i` has at most `n` cells below `n`.
pub proof fn lemma_count_le(i: int, n: int)
    requires
        0 <= i,
        0 <= n,
    ensures
        count_below(i, n) <= n,
    decreases n,
{
    if n > 0 {
        lemma_count_le(i, n - 1);
        lemma_count_step(i, n - 1);
    }
}

/// A subtree has at most as many entries as cells.
pub proof fn lemma_inorder_len<K, V>(s: Seq<Option<Entry<K, V>>>, i: int)
    requires
        0 <= i,
    ensures
        inorder(s, i).len() <= count_below(i, s.len() as int),
        inorder(s, i).len() <= s.len(),
    decreases cell_measure(s.len() as int, i),
{
    if present(s, i) {
        lemma_inorder_len(s, 2 * i + 1);
        lemma_inorder_len(s, 2 * i + 2);
    }
    lemma_count_le(i, s.len() as int);
}

/// The height of the subtree of `i`: the number of cells on its longest path.
pub open spec fn height<K, V>(s: Seq<Option<Entry<K, V>>>, i: int) -> nat
    decreases cell_measure(s.len() as int, i),
{
    if present(s, i) {
        let hl = height(s, 2 * i + 1);
        let hr = height(s, 2 * i + 2);
        1 + if hl >= hr { hl } else { hr }
    } else {
        0
    }
}

/// A subtree is no higher than it has entries.
pub proof fn lemma_height_le<K, V>(s: Seq<Option<Entry<K, V>>>, i: int)
    requires
        0 <= i,
    ensures
        height(s, i) <= inorder(s, i).len(),
    decreases cell_measure(s.len() as int, i),
{
    if present(s, i) {
        lemma_height_le(s, 2 * i + 1);
        lemma_height_le(s, 2 * i + 2);
    }
}

impl<K: Key, V> TreeRepr<K, V> {
    /// The number of entries in the subtree at `root`.
    pub fn count_nodes(&self, root: usize) -> (c: usize)
        requires
            self.data@.len() < usize::MAX / 2,
            root <= 2 * self.data@.len(),
        ensures
            c == inorder(self.data@, root as int).len(),
        decreases cell_measure(self.data@.len() as int, root as int),
    {
        if self.is_nil(root) {
            return 0;
        }
        proof {
            lemma_inorder_len(self.data@, root as int);
        }
        let l = self.count_nodes(lefti(root));
        let r = self.count_nodes(righti(root));
        1 + l + r
    }

    /// The height of the subtree at `idx`.
    pub fn calc_height(nodes: &Vec<Option<Entry<K, V>>>, idx: usize) -> (h: usize)
        requires
            nodes@.len() < usize::MAX / 2,
            idx <= 2 * nodes@.len(),
        ensures
            h == height(nodes@, idx as int),
        decreases cell_measure(nodes@.len() as int, idx as int),
    {
        if idx < nodes.len() && nodes[idx].is_some() {
            proof {
                lemma_height_le(nodes@, idx as int);
                lemma_inorder_len(nodes@, idx as int);
            }
            let hl = Self::calc_height(nodes, lefti(idx));
            let hr = Self::calc_height(nodes, righti(idx));
            1 + if hl >= hr {
                hl
            } else {
                hr
            }
        } else {
            0
        }
    }

    /// Builds a tree from its cells, which must form a clean, sorted tree.
    pub fn with_nodes(nodes: Vec<Option<Entry<K, V>>>) -> (t: Self)
        requires
            nodes@.len() < usize::MAX / 2,
            clean(nodes@, 0),
        ensures
            t.data@ == nodes@,
            t.size == inorder(nodes@, 0).len(),
            t.delete_range_cache.idle(),
            sorted_entries(inorder(nodes@, 0)) ==> t.wf(),
    {
        let height = Self::calc_height(&nodes, 0);
        let t0 = TreeRepr { data: nodes, size: 0, delete_range_cache: DeleteRangeCache::new(height) };
        let size = t0.count_nodes(0);
        TreeRepr { data: t0.data, size: size, delete_range_cache: t0.delete_range_cache }
    }

    /// Drops every entry; the cells stay.
    pub fn clear(&mut self)
        requires
            old(self).wf(),
        ensures
            final(self).wf(),
            final(self)@ == Seq::<Entry<K, V>>::empty(),
            final(self).data@.len() == old(self).data@.len(),
    {
        let n = self.data.len();
        let mut k: usize = 0;
        while k < n
            invariant
                n == self.data@.len(),
                k <= n,
                forall|j: int| 0 <= j < k ==> (#[trigger] self.data@[j]) is None,
                n < usize::MAX / 2,
                self.delete_range_cache == old(self).delete_range_cache,
                old(self).wf(),
            decreases n - k,
        {
            self.data.set(k, None);
            k = k + 1;
        }
        self.size = 0;
        proof {
            crate::tree_spec::lemma_all_cells_none(self.data@, 0);
            crate::tree_spec::lemma_all_none(self.data@, 0);
        }
    }

    /// The pairs of the subtree at `idx`, in order, appended to `out`.
    fn collect_refs<'a>(&'a self, idx: usize, out: &mut Vec<&'a (K, V)>)
        requires
            self.data@.len() < usize::MAX / 2,
            idx <= 2 * self.data@.len(),
        ensures
            final(out)@.len() == old(out)@.len() + inorder(self.data@, idx as int).len(),
            forall|k: int| 0 <= k < old(out)@.len() ==> #[trigger] final(out)@[k] == old(out)@[k],
            forall|k: int|
                0 <= k < inorder(self.data@, idx as int).len() ==> *#[trigger] final(out)@[old(out)@.len() + k]
                    == inorder(self.data@, idx as int)[k].item,
        decreases cell_measure(self.data@.len() as int, idx as int),
    {
        if self.is_nil(idx) {
            return;
        }
        let ghost s = self.data@;
        let ghost i = idx as int;
        let ghost o0 = out@;
        let ghost l = inorder(s, 2 * i + 1);
        let ghost r = inorder(s, 2 * i + 2);
        self.collect_refs(lefti(idx), out);
        let ghost o1 = out@;
        out.push(self.node(idx).as_tuple());
        let ghost o2 = out@;
        self.collect_refs(righti(idx), out);
        proof {
            let all = inorder(s, i);
            assert(all == l + seq![s[i].unwrap()] + r);
            assert forall|k: int| 0 <= k < all.len() implies *#[trigger] out@[o0.len() + k] == all[k].item by {
                if k < l.len() {
                    assert(out@[o0.len() + k] == o1[o0.len() + k]);
                } else if k == l.len() {
                    assert(out@[o0.len() + k] == o2[o0.len() + k]);
                } else {
                    assert(all[k] == r[k - l.len() - 1]);
                    assert(out@[o0.len() + k] == out@[o2.len() + (k - l.len() - 1)]);
                }
            }
        }
    }

    /// References to the pairs of the tree, in order.
    pub fn iter<'a>(&'a self) -> (v: Vec<&'a (K, V)>)
        requires
            self.wf(),
        ensures
            v@.len() == self@.len(),
            forall|k: int| 0 <= k < v@.len() ==> *#[trigger] v@[k] == self@[k].item,
    {
        let mut v: Vec<&'a (K, V)> = Vec::new();
        self.collect_refs(0, &mut v);
        proof {
            assert forall|k: int| 0 <= k < v@.len() implies *#[trigger] v@[k] == self@[k].item by {
                assert(v@[0 + k] == v@[k]);
            }
        }
        v
    }

    /// The pairs of the tree, in order; the tree is consumed.
    pub fn into_iter(self) -> (v: Vec<(K, V)>)
        requires
            self.wf(),
        ensures
            v@ == pairs(self@),
    {
        let mut t = self;
        let mut v: Vec<(K, V)> = Vec::new();
        t.consume_subtree(&mut v, 0);
        proof {
            assert(v@ =~= pairs(self@));
        }
        v
    }

    /// The height of a complete tree with as many cells as this one.
    pub fn complete_height(&self) -> (h: usize)
        ensures
            h == depth(self.data@.len() as int),
    {
        depth_of(self.data.len())
    }
}

} // verus!
