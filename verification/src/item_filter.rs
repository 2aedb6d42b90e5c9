use vstd::prelude::*;

use crate::bulk_delete::{
    kept_by, lemma_by_len, lemma_items_add, lemma_items_empty, lemma_items_single, lemma_kept_as_by, lemma_kept_by_sorted, lemma_none_by, lemma_split_by, pairs,
    picked_by,
};
use crate::drivers::{above, interval_driver, selects, TraversalDriver};
use crate::key::Key;
use crate::node::{erank, Entry};
use crate::sink::Sink;
use crate::bulk_delete::lemma_driver_order;
use crate::tree_repr::{lefti, righti, TreeRepr};
use crate::tree_spec::{
    all_none, cell_measure, clean, inorder, is_desc, lemma_all_none, lemma_children, lemma_clean_empty, lemma_frame,
    lemma_sorted_split, present, same_outside, sorted_entries,
};

verus! {

/// A second test, beside the driver, on the keys that a bulk deletion removes: an entry
/// is removed only if the filter accepts its key.  The filter may keep state, but which
/// keys it accepts does not change.
pub trait ItemFilter<K>: Sized {
    /// The filter accepts `key`.
    spec fn accepts(&self, key: K) -> bool;

    fn accept(&mut self, key: &K) -> (r: bool)
        ensures
            r == old(self).accepts(*key),
            forall|k: K| #[trigger] final(self).accepts(k) == old(self).accepts(k);

    /// The type declares that its filters accept every key, so that a bulk deletion may
    /// skip asking them.
    spec fn declared_noop() -> bool;

    /// Whether the type declares that its filters accept every key; only a type whose
    /// filters do accept every key may declare so.
    fn is_noop() -> (r: bool)
        ensures
            r == Self::declared_noop(),
            r ==> forall|f: Self, k: K| #[trigger] f.accepts(k);
}

/// The filter that accepts every key.
#[derive(Clone, Copy, Debug)]
pub struct NoopFilter;

impl<K> ItemFilter<K> for NoopFilter {
    open spec fn accepts(&self, key: K) -> bool {
        true
    }

    fn accept(&mut self, key: &K) -> (r: bool) {
        true
    }

    open spec fn declared_noop() -> bool {
        true
    }

    fn is_noop() -> (r: bool) {
        true
    }
}

/// A filter that accepts every key but does not say so in advance, so that the filtering
/// path of a bulk deletion runs.
#[derive(Clone, Copy, Debug)]
pub struct AcceptingFilter;

impl<K> ItemFilter<K> for AcceptingFilter {
    open spec fn accepts(&self, key: K) -> bool {
        true
    }

    fn accept(&mut self, key: &K) -> (r: bool) {
        true
    }

    open spec fn declared_noop() -> bool {
        false
    }

    fn is_noop() -> (r: bool) {
        false
    }
}

/// The keys that a driver selects and a filter accepts.
pub open spec fn filter_sel<K: Key, D: TraversalDriver<K>, F: ItemFilter<K>>(d: &D, f: F) -> spec_fn(K) -> bool {
    |k: K| selects(d, k) && f.accepts(k)
}

/// No key of a sorted sequence whose keys lie at most a key below the selected keys is
/// selected; likewise above.
proof fn lemma_pruned<K: Key, V, D: TraversalDriver<K>>(
    d: &D,
    sel: spec_fn(K) -> bool,
    s: Seq<Entry<K, V>>,
    root: K,
    below: bool,
)
    requires
        interval_driver(d),
        forall|k: K| #[trigger] sel(k) ==> selects(d, k),
        below ==> !d.goes_left(root),
        below ==> forall|a: int| 0 <= a < s.len() ==> erank(#[trigger] s[a]) <= root.rank(),
        !below ==> above(d, root),
        !below ==> forall|a: int| 0 <= a < s.len() ==> root.rank() <= erank(#[trigger] s[a]),
    ensures
        kept_by(sel, s) == s,
        picked_by(sel, s) == Seq::<Entry<K, V>>::empty(),
{
    assert forall|a: int| 0 <= a < s.len() implies !sel((#[trigger] s[a]).item.0) by {
        if below {
            lemma_driver_order(d, s[a].item.0, root);
        } else {
            lemma_driver_order(d, root, s[a].item.0);
        }
    }
    lemma_none_by(sel, s);
}

impl<K: Key, V> TreeRepr<K, V> {
    /// Removes from the subtree at `idx` the entries whose keys `sel` chooses (those that the
    /// driver selects and the filter accepts), feeding them into `sink` in order, and packs
    /// the remaining entries back into a clean subtree at `idx`.
    pub fn filter_rec<D: TraversalDriver<K>, F: ItemFilter<K>, S: Sink<(K, V)>>(
        &mut self,
        drv: &D,
        flt: &mut F,
        sink: &mut S,
        idx: usize,
        Ghost(sel): Ghost<spec_fn(K) -> bool>,
    )
        requires
            old(self).data@.len() < usize::MAX / 2,
            clean(old(self).data@, idx as int),
            sorted_entries(inorder(old(self).data@, idx as int)),
            old(self).size >= inorder(old(self).data@, idx as int).len(),
            interval_driver(drv),
            forall|k: K| #[trigger] sel(k) == (selects(drv, k) && old(flt).accepts(k)),
        ensures
            old(sink).faithful() ==> final(sink).faithful(),
            final(self).data@.len() == old(self).data@.len(),
            inorder(final(self).data@, idx as int) == kept_by(sel, inorder(old(self).data@, idx as int)),
            clean(final(self).data@, idx as int),
            same_outside(old(self).data@, final(self).data@, idx as int),
            final(sink).consumed() == old(sink).consumed() + pairs(picked_by(sel, inorder(old(self).data@, idx as int))),
            final(self).size == old(self).size - picked_by(sel, inorder(old(self).data@, idx as int)).len(),
            final(self).delete_range_cache == old(self).delete_range_cache,
            forall|k: K| #[trigger] final(flt).accepts(k) == old(flt).accepts(k),
        decreases cell_measure(old(self).data@.len() as int, idx as int),
    {
        let ghost s0 = self.data@;
        let ghost i = idx as int;
        let ghost out0 = sink.consumed();
        if self.is_nil(idx) {
            proof {
                assert(inorder(s0, i) =~= Seq::<Entry<K, V>>::empty());
                lemma_none_by(sel, inorder(s0, i));
                lemma_items_empty::<K, V>();
                assert(out0 + pairs(picked_by(sel, inorder(s0, i))) =~= out0);
            }
            return;
        }
        proof {
            lemma_children(i);
            lemma_sorted_split(s0, i);
            assert(is_desc(i, i));
            lemma_by_len(sel, inorder(s0, 2 * i + 1));
            lemma_by_len(sel, inorder(s0, 2 * i + 2));
        }
        let ghost l = inorder(s0, 2 * i + 1);
        let ghost r = inorder(s0, 2 * i + 2);
        let ghost x = s0[i].unwrap();
        let k: K = *self.key(idx);
        let dec = drv.decide(&k);
        let mut chosen = false;
        if dec.left() && dec.right() {
            chosen = flt.accept(&k);
        }
        assert(chosen == sel(k));
        let mut item: Option<Entry<K, V>> = None;
        if chosen {
            proof {
                assert(l.len() + 1 + r.len() == inorder(s0, i).len());
            }
            item = Some(self.take(idx));
        }
        let ghost s1 = self.data@;
        proof {
            assert forall|j: int| 0 <= j < s0.len() && #[trigger] is_desc(j, 2 * i + 1) implies s0[j] == s1[j] by {
                assert(j > i);
            }
            assert forall|j: int| 0 <= j < s0.len() && #[trigger] is_desc(j, 2 * i + 2) implies s0[j] == s1[j] by {
                assert(j > i);
            }
            lemma_frame(s0, s1, 2 * i + 1);
            lemma_frame(s0, s1, 2 * i + 2);
        }
        if dec.left() {
            self.filter_rec(drv, flt, sink, lefti(idx), Ghost(sel));
        } else {
            proof {
                lemma_pruned(drv, sel, l, k, true);
                lemma_items_empty::<K, V>();
                assert(out0 + pairs(picked_by(sel, l)) =~= out0);
            }
        }
        let ghost s2 = self.data@;
        let ghost out1 = sink.consumed();
        proof {
            lemma_frame(s1, s2, 2 * i + 2);
            assert(s2[i] == s1[i]);
            assert(out1 == out0 + pairs(picked_by(sel, l)));
            assert(inorder(s2, 2 * i + 1) == kept_by(sel, l));
            assert(clean(s2, 2 * i + 1));
        }
        if chosen {
            let e = item.unwrap();
            sink.consume(e.into_tuple());
        }
        let ghost out2 = sink.consumed();
        if !dec.left() || dec.right() {
            self.filter_rec(drv, flt, sink, righti(idx), Ghost(sel));
        } else {
            proof {
                lemma_pruned(drv, sel, r, k, false);
                lemma_items_empty::<K, V>();
                assert(out2 + pairs(picked_by(sel, r)) =~= out2);
            }
        }
        let ghost s3 = self.data@;
        proof {
            lemma_frame(s2, s3, 2 * i + 1);
            assert(s3[i] == s1[i]);
            assert(inorder(s3, 2 * i + 2) == kept_by(sel, r));
            lemma_split_by(sel, l, x, r);
            assert(inorder(s0, i) == l + seq![x] + r);
            lemma_items_add(picked_by(sel, l), if sel(x.item.0) { seq![x] } else { Seq::empty() });
            lemma_items_add(
                picked_by(sel, l) + (if sel(x.item.0) { seq![x] } else { Seq::empty() }),
                picked_by(sel, r),
            );
            lemma_items_single(x);
            lemma_items_empty::<K, V>();
            assert(out2 == out1 + pairs(if sel(x.item.0) { seq![x] } else { Seq::<Entry<K, V>>::empty() })) by {
                if sel(x.item.0) {
                    assert(out2 == out1.push(x.item));
                    assert(out1.push(x.item) =~= out1 + seq![x.item]);
                } else {
                    assert(out1 =~= out1 + Seq::<(K, V)>::empty());
                }
            }
            assert(sink.consumed() =~= out0 + pairs(picked_by(sel, inorder(s0, i))));
        }
        if chosen {
            if self.has_left(idx) {
                self.delete_max(idx, lefti(idx));
                let ghost s4 = self.data@;
                proof {
                    let kl = kept_by(sel, l);
                    assert forall|j: int| 0 <= j < s0.len() && #[trigger] is_desc(j, 2 * i + 2) implies s3[j] == s4[j] by {
                        assert(!is_desc(j, 2 * i + 1));
                        assert(j != i);
                    }
                    lemma_frame(s3, s4, 2 * i + 2);
                    assert(kl.drop_last() + seq![kl.last()] =~= kl);
                    assert(inorder(s4, i) == kl.drop_last() + seq![kl.last()] + kept_by(sel, r));
                }
            } else if self.has_right(idx) {
                proof {
                    assert(all_none(s3, 2 * i + 1));
                    lemma_all_none(s3, 2 * i + 1);
                }
                self.delete_min(idx, righti(idx));
                let ghost s4 = self.data@;
                proof {
                    let kr = kept_by(sel, r);
                    assert forall|j: int| 0 <= j < s0.len() && #[trigger] is_desc(j, 2 * i + 1) implies s3[j] == s4[j] by {
                        assert(!is_desc(j, 2 * i + 2));
                        assert(j != i);
                    }
                    lemma_frame(s3, s4, 2 * i + 1);
                    assert(seq![kr.first()] + kr.drop_first() =~= kr);
                    assert(inorder(s4, i) == Seq::<Entry<K, V>>::empty() + seq![kr.first()] + kr.drop_first());
                }
            } else {
                proof {
                    assert(all_none(s3, 2 * i + 1));
                    assert(all_none(s3, 2 * i + 2));
                    lemma_all_none(s3, 2 * i + 1);
                    lemma_all_none(s3, 2 * i + 2);
                    assert(all_none(s3, i));
                }
            }
        }
        let ghost s5 = self.data@;
        proof {
            assert(inorder(s5, i) =~= kept_by(sel, inorder(s0, i)));
            assert forall|j: int| 0 <= j < s0.len() && !#[trigger] is_desc(j, i) implies s0[j] == s5[j] by {
                assert(!is_desc(j, 2 * i + 1));
                assert(!is_desc(j, 2 * i + 2));
            }
        }
    }
}

impl<K: Key, V> TreeRepr<K, V> {
    /// Removes the entries whose keys the driver selects and the filter accepts, feeding them
    /// into `sink` in order.
    pub fn filter_all<D: TraversalDriver<K>, F: ItemFilter<K>, S: Sink<(K, V)>>(
        &mut self,
        drv: &D,
        flt: &mut F,
        sink: &mut S,
    )
        requires
            old(self).wf(),
            interval_driver(drv),
        ensures
            old(sink).faithful() ==> final(sink).faithful(),
            final(self).wf(),
            final(self).data@.len() == old(self).data@.len(),
            final(self)@ == kept_by(filter_sel(drv, *old(flt)), old(self)@),
            final(sink).consumed() == old(sink).consumed() + pairs(picked_by(filter_sel(drv, *old(flt)), old(self)@)),
            forall|k: K| #[trigger] final(flt).accepts(k) == old(flt).accepts(k),
    {
        let ghost sel = filter_sel(drv, *flt);
        if F::is_noop() {
            self.delete_range_loop(drv, sink);
            proof {
                assert forall|k: K| #[trigger] sel(k) == selects(drv, k) by {
                    assert(old(flt).accepts(k));
                }
                lemma_kept_as_by(drv, sel, old(self)@);
            }
        } else {
            self.filter_rec(drv, flt, sink, 0, Ghost(sel));
            proof {
                lemma_by_len(sel, old(self)@);
                lemma_kept_by_sorted(sel, old(self)@);
            }
        }
    }
}

} // verus!
