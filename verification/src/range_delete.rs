use vstd::prelude::*;

use crate::bulk_delete::{
    changed_only, holds_largest, holds_smallest, pairs, kept, lemma_all_picked, lemma_changed_child,
    lemma_changed_none, lemma_changed_nothing, lemma_kept_whole, lemma_slots_empty, lemma_taken_both_tail, lemma_driver_order, lemma_drm_taken_tail, lemma_drmin_taken_tail, lemma_fill_max_early,
    lemma_fill_max_tail, lemma_fill_min_early, lemma_fill_min_tail, lemma_holds_none, lemma_items_add, lemma_items_empty, lemma_items_single,
    lemma_none_picked, lemma_other_untouched, lemma_sibling_untouched, lemma_slot_below, lemma_slots_push, lemma_slots_weaken,
    lemma_split_kept, min_int, picked, slots_before,
};
use crate::drivers::{above, interval_driver, selects, TraversalDriver};
use crate::key::Key;
use crate::node::Entry;
use crate::sink::Sink;
use crate::tree_repr::{lefti, righti, TreeRepr};
use crate::tree_spec::{
    all_none, cell_measure, clean, inorder, is_desc, lemma_children, lemma_clean_empty, lemma_decompose, lemma_frame,
    lemma_path_child, lemma_path_extend, lemma_path_root, lemma_replace_subtree, lemma_sorted_parts, lemma_sorted_split,
    path_present, prefix, present, same_outside, sorted_entries, suffix,
};

verus! {

/// The root of a subtree is the entry after the left subtree.
proof fn lemma_root_at<K, V>(s: Seq<Option<Entry<K, V>>>, i: int)
    requires
        present(s, i),
    ensures
        inorder(s, i) == inorder(s, 2 * i + 1) + seq![s[i].unwrap()] + inorder(s, 2 * i + 2),
        inorder(s, i)[inorder(s, 2 * i + 1).len() as int] == s[i].unwrap(),
{
}

impl<K: Key, V> TreeRepr<K, V> {
    /// Deletes the entries of the subtree at `idx` that `drv` selects, feeding them into
    /// `sink` in order, when no key of the subtree lies above the selected keys.  The kept
    /// entries stay a valid tree, except that the largest of them move into the open maximum
    /// slots, largest first.
    pub fn delete_range_max<D: TraversalDriver<K>, S: Sink<(K, V)>>(&mut self, drv: &D, sink: &mut S, idx: usize)
        requires
            present(old(self).data@, idx as int),
            old(self).data@.len() < usize::MAX / 2,
            clean(old(self).data@, idx as int),
            sorted_entries(inorder(old(self).data@, idx as int)),
            interval_driver(drv),
            forall|k: int|
                0 <= k < inorder(old(self).data@, idx as int).len() ==> !above(
                    drv,
                    (#[trigger] inorder(old(self).data@, idx as int)[k]).item.0,
                ),
            old(self).delete_range_cache.slots_max.wf(),
            old(self).delete_range_cache.slots_max.nslots <= idx,
            slots_before(old(self).delete_range_cache.slots_max.stack(), idx as int),
            old(self).size >= inorder(old(self).data@, idx as int).len(),
        ensures
            old(sink).faithful() ==> final(sink).faithful(),
            ({
                let s0 = inorder(old(self).data@, idx as int);
                let k0 = kept(drv, s0);
                let st = old(self).delete_range_cache.slots_max.stack();
                let nf = old(self).delete_range_cache.slots_max.nfilled as int;
                let m = min_int(old(self).open_max(), k0.len() as int);
                &&& final(self).data@.len() == old(self).data@.len()
                &&& inorder(final(self).data@, idx as int) == k0.take(k0.len() - m)
                &&& clean(final(self).data@, idx as int)
                &&& holds_largest(final(self).data@, st, nf, m, k0)
                &&& changed_only(old(self).data@, final(self).data@, idx as int, st, nf, nf + m)
                &&& final(self).delete_range_cache.slots_max.wf()
                &&& final(self).delete_range_cache.slots_max.nslots == old(self).delete_range_cache.slots_max.nslots
                &&& final(self).delete_range_cache.slots_max.stack() == st
                &&& final(self).delete_range_cache.slots_max.nfilled == nf + m
                &&& final(self).delete_range_cache.slots_min == old(self).delete_range_cache.slots_min
                &&& final(self).size == old(self).size - (s0.len() - k0.len())
                &&& final(sink).consumed() == old(sink).consumed() + pairs(picked(drv, s0))
            }),
        decreases cell_measure(old(self).data@.len() as int, idx as int), 1int,
    {
        proof {
            lemma_root_at(self.data@, idx as int);
        }
        let dec = drv.decide(self.key(idx));
        if dec.left() {
            self.delete_range_max_taken(drv, sink, idx);
        } else {
            self.delete_range_max_below(drv, sink, idx);
        }
    }

    /// `delete_range_max` on a subtree whose root is selected: the root and the right subtree
    /// go into the sink.
    fn delete_range_max_taken<D: TraversalDriver<K>, S: Sink<(K, V)>>(&mut self, drv: &D, sink: &mut S, idx: usize)
        requires
            present(old(self).data@, idx as int),
            old(self).data@.len() < usize::MAX / 2,
            clean(old(self).data@, idx as int),
            sorted_entries(inorder(old(self).data@, idx as int)),
            interval_driver(drv),
            forall|k: int|
                0 <= k < inorder(old(self).data@, idx as int).len() ==> !above(
                    drv,
                    (#[trigger] inorder(old(self).data@, idx as int)[k]).item.0,
                ),
            old(self).delete_range_cache.slots_max.wf(),
            old(self).delete_range_cache.slots_max.nslots <= idx,
            slots_before(old(self).delete_range_cache.slots_max.stack(), idx as int),
            old(self).size >= inorder(old(self).data@, idx as int).len(),
            selects(drv, old(self).data@[idx as int].unwrap().item.0),
        ensures
            old(sink).faithful() ==> final(sink).faithful(),
            ({
                let s0 = inorder(old(self).data@, idx as int);
                let k0 = kept(drv, s0);
                let st = old(self).delete_range_cache.slots_max.stack();
                let nf = old(self).delete_range_cache.slots_max.nfilled as int;
                let m = min_int(old(self).open_max(), k0.len() as int);
                &&& final(self).data@.len() == old(self).data@.len()
                &&& inorder(final(self).data@, idx as int) == k0.take(k0.len() - m)
                &&& clean(final(self).data@, idx as int)
                &&& holds_largest(final(self).data@, st, nf, m, k0)
                &&& changed_only(old(self).data@, final(self).data@, idx as int, st, nf, nf + m)
                &&& final(self).delete_range_cache.slots_max.wf()
                &&& final(self).delete_range_cache.slots_max.nslots == old(self).delete_range_cache.slots_max.nslots
                &&& final(self).delete_range_cache.slots_max.stack() == st
                &&& final(self).delete_range_cache.slots_max.nfilled == nf + m
                &&& final(self).delete_range_cache.slots_min == old(self).delete_range_cache.slots_min
                &&& final(self).size == old(self).size - (s0.len() - k0.len())
                &&& final(sink).consumed() == old(sink).consumed() + pairs(picked(drv, s0))
            }),
        decreases cell_measure(old(self).data@.len() as int, idx as int), 0int,
    {
        let ghost s0 = self.data@;
        let ghost i = idx as int;
        let ghost st = self.delete_range_cache.slots_max.stack();
        let ghost nf = self.delete_range_cache.slots_max.nfilled as int;
        let ghost ns = self.delete_range_cache.slots_max.nslots as int;
        let ghost f = ns - nf;
        let ghost l = inorder(s0, 2 * i + 1);
        let ghost r = inorder(s0, 2 * i + 2);
        let ghost x = s0[i].unwrap();
        let ghost all = inorder(s0, i);
        let ghost kl = kept(drv, l);
        let ghost kr = kept(drv, r);
        let ghost k0 = kept(drv, all);
        let ghost out0 = sink.consumed();
        proof {
            lemma_children(i);
            lemma_sorted_split(s0, i);
            lemma_split_kept(drv, l, x, r);
            assert(is_desc(i, i));
        }
        proof {
            assert forall|k: int| 0 <= k < r.len() implies selects(drv, (#[trigger] r[k]).item.0) by {
                assert(r[k] == all[l.len() + 1 + k]);
                lemma_driver_order(drv, x.item.0, r[k].item.0);
            }
            assert forall|k: int| 0 <= k < l.len() implies !above(drv, (#[trigger] l[k]).item.0) by {
                assert(l[k] == all[k]);
            }
            lemma_all_picked(drv, r);
            assert(k0 =~= kl);
        }
        let item = self.take(idx);
        let ghost s1 = self.data@;
        proof {
            assert forall|j: int| 0 <= j < s0.len() && #[trigger] is_desc(j, 2 * i + 1) implies s0[j] == s1[j] by {
                assert(j > i);
            }
            assert forall|j: int| 0 <= j < s0.len() && #[trigger] is_desc(j, 2 * i + 2) implies s0[j] == s1[j] by {
                assert(j > i);
            }
            lemma_frame(s0, s1, 2 * i + 1);
            lemma_frame(s0, s1, 2 * i + 2);
            lemma_slots_push(st, i);
        }
        let ghost mut m1: int = 0;
        if self.has_left(idx) {
            self.delete_range_cache.slots_max.push(idx);
            self.delete_range_max(drv, sink, lefti(idx));
            proof {
                m1 = min_int(f + 1, kl.len() as int);
            }
            self.delete_range_cache.slots_max.pop();
        } else {
            proof {
                assert(l =~= Seq::<Entry<K, V>>::empty());
                lemma_none_picked(drv, l);
                lemma_items_empty::<K, V>();
                assert(out0 =~= out0 + pairs(picked(drv, l)));
            }
        }
        let ghost s2 = self.data@;
        proof {
            if present(s0, 2 * i + 1) {
                lemma_other_untouched(s1, s2, i, 2 * i + 1, st.push(idx), nf, nf + m1);
            }
        }
        sink.consume(item.into_tuple());
        self.consume_subtree(sink, righti(idx));
        let ghost s3 = self.data@;
        proof {
            lemma_drm_taken_tail(s0, s1, s2, s3, i, st, nf, m1, kl, present(s0, 2 * i + 1));
            lemma_items_add(picked(drv, l), seq![x]);
            lemma_items_add(picked(drv, l) + seq![x], r);
            lemma_items_single(x);
            assert(picked(drv, all) =~= picked(drv, l) + seq![x] + r);
            assert(sink.consumed() =~= out0 + pairs(picked(drv, all)));
        }
    }

    /// `delete_range_max` on a subtree whose root lies below the selected keys: the root and
    /// the left subtree stay.
    fn delete_range_max_below<D: TraversalDriver<K>, S: Sink<(K, V)>>(&mut self, drv: &D, sink: &mut S, idx: usize)
        requires
            present(old(self).data@, idx as int),
            old(self).data@.len() < usize::MAX / 2,
            clean(old(self).data@, idx as int),
            sorted_entries(inorder(old(self).data@, idx as int)),
            interval_driver(drv),
            forall|k: int|
                0 <= k < inorder(old(self).data@, idx as int).len() ==> !above(
                    drv,
                    (#[trigger] inorder(old(self).data@, idx as int)[k]).item.0,
                ),
            old(self).delete_range_cache.slots_max.wf(),
            old(self).delete_range_cache.slots_max.nslots <= idx,
            slots_before(old(self).delete_range_cache.slots_max.stack(), idx as int),
            old(self).size >= inorder(old(self).data@, idx as int).len(),
            !drv.goes_left(old(self).data@[idx as int].unwrap().item.0),
        ensures
            old(sink).faithful() ==> final(sink).faithful(),
            ({
                let s0 = inorder(old(self).data@, idx as int);
                let k0 = kept(drv, s0);
                let st = old(self).delete_range_cache.slots_max.stack();
                let nf = old(self).delete_range_cache.slots_max.nfilled as int;
                let m = min_int(old(self).open_max(), k0.len() as int);
                &&& final(self).data@.len() == old(self).data@.len()
                &&& inorder(final(self).data@, idx as int) == k0.take(k0.len() - m)
                &&& clean(final(self).data@, idx as int)
                &&& holds_largest(final(self).data@, st, nf, m, k0)
                &&& changed_only(old(self).data@, final(self).data@, idx as int, st, nf, nf + m)
                &&& final(self).delete_range_cache.slots_max.wf()
                &&& final(self).delete_range_cache.slots_max.nslots == old(self).delete_range_cache.slots_max.nslots
                &&& final(self).delete_range_cache.slots_max.stack() == st
                &&& final(self).delete_range_cache.slots_max.nfilled == nf + m
                &&& final(self).delete_range_cache.slots_min == old(self).delete_range_cache.slots_min
                &&& final(self).size == old(self).size - (s0.len() - k0.len())
                &&& final(sink).consumed() == old(sink).consumed() + pairs(picked(drv, s0))
            }),
        decreases cell_measure(old(self).data@.len() as int, idx as int), 0int,
    {
        let ghost s0 = self.data@;
        let ghost i = idx as int;
        let ghost st = self.delete_range_cache.slots_max.stack();
        let ghost nf = self.delete_range_cache.slots_max.nfilled as int;
        let ghost ns = self.delete_range_cache.slots_max.nslots as int;
        let ghost f = ns - nf;
        let ghost l = inorder(s0, 2 * i + 1);
        let ghost r = inorder(s0, 2 * i + 2);
        let ghost x = s0[i].unwrap();
        let ghost all = inorder(s0, i);
        let ghost kl = kept(drv, l);
        let ghost kr = kept(drv, r);
        let ghost k0 = kept(drv, all);
        let ghost out0 = sink.consumed();
        proof {
            lemma_children(i);
            lemma_sorted_split(s0, i);
            lemma_split_kept(drv, l, x, r);
            assert(is_desc(i, i));
        }
        proof {
            assert forall|k: int| 0 <= k < l.len() implies !selects(drv, (#[trigger] l[k]).item.0) by {
                lemma_driver_order(drv, l[k].item.0, x.item.0);
            }
            assert forall|k: int| 0 <= k < r.len() implies !above(drv, (#[trigger] r[k]).item.0) by {
                assert(r[k] == all[l.len() + 1 + k]);
            }
            lemma_none_picked(drv, l);
            assert(k0 =~= l + seq![x] + kr);
            assert(picked(drv, all) =~= picked(drv, r));
        }
        let ghost mut m1: int = 0;
        if self.has_right(idx) {
            proof {
                lemma_slots_weaken(st, i, 2 * i + 2);
            }
            self.delete_range_max(drv, sink, righti(idx));
            proof {
                m1 = min_int(f, kr.len() as int);
            }
        } else {
            proof {
                assert(r =~= Seq::<Entry<K, V>>::empty());
                lemma_none_picked(drv, r);
                lemma_holds_none(s0, st, nf, kr);
                lemma_items_empty::<K, V>();
                assert(sink.consumed() =~= out0 + pairs(picked(drv, r)));
            }
        }
        let ghost s1 = self.data@;
        if self.delete_range_cache.slots_max.has_open() {
            proof {
                if present(s0, 2 * i + 2) {
                    lemma_sibling_untouched(s0, s1, i, 2 * i + 2, st, nf, nf + m1);
                    lemma_changed_child(s0, s1, i, 2 * i + 2, st, nf, nf + m1);
                    lemma_clean_empty(s1, 2 * i + 2);
                } else {
                    lemma_clean_empty(s0, 2 * i + 2);
                    lemma_changed_none(s0, i, st, nf, nf);
                }
                lemma_slot_below(st, i, nf + m1);
                lemma_slots_push(st, i);
            }
            self.fill_slot_max(idx);
            let ghost s2 = self.data@;
            proof {
                assert forall|j: int| 0 <= j < s1.len() && #[trigger] is_desc(j, 2 * i + 1) implies s1[j] == s2[j] by {
                    assert(j >= 2 * i + 1);
                }
                lemma_frame(s1, s2, 2 * i + 1);
            }
            let ghost mut m2: int = 0;
            if self.has_left(idx) {
                self.delete_range_cache.slots_max.push(idx);
                self.fill_slots_max(lefti(idx));
                proof {
                    m2 = min_int(f - m1, l.len() as int);
                }
                self.delete_range_cache.slots_max.pop();
            } else {
                proof {
                    assert(l =~= Seq::<Entry<K, V>>::empty());
                }
            }
            let ghost s3 = self.data@;
            proof {
                lemma_fill_max_tail(s0, s1, s2, s3, i, st, nf, m1, m2, l, x, kr, present(s0, 2 * i + 1));
            }
        } else {
            proof {
                lemma_fill_max_early(s0, s1, i, st, nf, l, x, kr);
            }
        }
    }

    /// Deletes the entries of the subtree at `idx` that `drv` selects, feeding them into
    /// `sink` in order, when no key of the subtree lies below the selected keys.  The kept
    /// entries stay a valid tree, except that the smallest of them move into the open minimum
    /// slots, smallest first.
    pub fn delete_range_min<D: TraversalDriver<K>, S: Sink<(K, V)>>(&mut self, drv: &D, sink: &mut S, idx: usize)
        requires
            present(old(self).data@, idx as int),
            old(self).data@.len() < usize::MAX / 2,
            clean(old(self).data@, idx as int),
            sorted_entries(inorder(old(self).data@, idx as int)),
            interval_driver(drv),
            forall|k: int|
                0 <= k < inorder(old(self).data@, idx as int).len() ==> drv.goes_left(
                    (#[trigger] inorder(old(self).data@, idx as int)[k]).item.0,
                ),
            old(self).delete_range_cache.slots_min.wf(),
            old(self).delete_range_cache.slots_min.nslots <= idx,
            slots_before(old(self).delete_range_cache.slots_min.stack(), idx as int),
            old(self).size >= inorder(old(self).data@, idx as int).len(),
        ensures
            old(sink).faithful() ==> final(sink).faithful(),
            ({
                let s0 = inorder(old(self).data@, idx as int);
                let k0 = kept(drv, s0);
                let st = old(self).delete_range_cache.slots_min.stack();
                let nf = old(self).delete_range_cache.slots_min.nfilled as int;
                let m = min_int(old(self).open_min(), k0.len() as int);
                &&& final(self).data@.len() == old(self).data@.len()
                &&& inorder(final(self).data@, idx as int) == k0.skip(m)
                &&& clean(final(self).data@, idx as int)
                &&& holds_smallest(final(self).data@, st, nf, m, k0)
                &&& changed_only(old(self).data@, final(self).data@, idx as int, st, nf, nf + m)
                &&& final(self).delete_range_cache.slots_min.wf()
                &&& final(self).delete_range_cache.slots_min.nslots == old(self).delete_range_cache.slots_min.nslots
                &&& final(self).delete_range_cache.slots_min.stack() == st
                &&& final(self).delete_range_cache.slots_min.nfilled == nf + m
                &&& final(self).delete_range_cache.slots_max == old(self).delete_range_cache.slots_max
                &&& final(self).size == old(self).size - (s0.len() - k0.len())
                &&& final(sink).consumed() == old(sink).consumed() + pairs(picked(drv, s0))
            }),
        decreases cell_measure(old(self).data@.len() as int, idx as int), 1int,
    {
        proof {
            lemma_root_at(self.data@, idx as int);
        }
        let dec = drv.decide(self.key(idx));
        if dec.right() {
            self.delete_range_min_taken(drv, sink, idx);
        } else {
            self.delete_range_min_above(drv, sink, idx);
        }
    }

    /// `delete_range_min` on a subtree whose root is selected: the left subtree and the root
    /// go into the sink.
    #[verifier::rlimit(40)]
    fn delete_range_min_taken<D: TraversalDriver<K>, S: Sink<(K, V)>>(&mut self, drv: &D, sink: &mut S, idx: usize)
        requires
            present(old(self).data@, idx as int),
            old(self).data@.len() < usize::MAX / 2,
            clean(old(self).data@, idx as int),
            sorted_entries(inorder(old(self).data@, idx as int)),
            interval_driver(drv),
            forall|k: int|
                0 <= k < inorder(old(self).data@, idx as int).len() ==> drv.goes_left(
                    (#[trigger] inorder(old(self).data@, idx as int)[k]).item.0,
                ),
            old(self).delete_range_cache.slots_min.wf(),
            old(self).delete_range_cache.slots_min.nslots <= idx,
            slots_before(old(self).delete_range_cache.slots_min.stack(), idx as int),
            old(self).size >= inorder(old(self).data@, idx as int).len(),
            selects(drv, old(self).data@[idx as int].unwrap().item.0),
        ensures
            old(sink).faithful() ==> final(sink).faithful(),
            ({
                let s0 = inorder(old(self).data@, idx as int);
                let k0 = kept(drv, s0);
                let st = old(self).delete_range_cache.slots_min.stack();
                let nf = old(self).delete_range_cache.slots_min.nfilled as int;
                let m = min_int(old(self).open_min(), k0.len() as int);
                &&& final(self).data@.len() == old(self).data@.len()
                &&& inorder(final(self).data@, idx as int) == k0.skip(m)
                &&& clean(final(self).data@, idx as int)
                &&& holds_smallest(final(self).data@, st, nf, m, k0)
                &&& changed_only(old(self).data@, final(self).data@, idx as int, st, nf, nf + m)
                &&& final(self).delete_range_cache.slots_min.wf()
                &&& final(self).delete_range_cache.slots_min.nslots == old(self).delete_range_cache.slots_min.nslots
                &&& final(self).delete_range_cache.slots_min.stack() == st
                &&& final(self).delete_range_cache.slots_min.nfilled == nf + m
                &&& final(self).delete_range_cache.slots_max == old(self).delete_range_cache.slots_max
                &&& final(self).size == old(self).size - (s0.len() - k0.len())
                &&& final(sink).consumed() == old(sink).consumed() + pairs(picked(drv, s0))
            }),
        decreases cell_measure(old(self).data@.len() as int, idx as int), 0int,
    {
        let ghost s0 = self.data@;
        let ghost i = idx as int;
        let ghost st = self.delete_range_cache.slots_min.stack();
        let ghost nf = self.delete_range_cache.slots_min.nfilled as int;
        let ghost ns = self.delete_range_cache.slots_min.nslots as int;
        let ghost f = ns - nf;
        let ghost l = inorder(s0, 2 * i + 1);
        let ghost r = inorder(s0, 2 * i + 2);
        let ghost x = s0[i].unwrap();
        let ghost all = inorder(s0, i);
        let ghost kl = kept(drv, l);
        let ghost kr = kept(drv, r);
        let ghost k0 = kept(drv, all);
        let ghost out0 = sink.consumed();
        proof {
            lemma_children(i);
            lemma_sorted_split(s0, i);
            lemma_split_kept(drv, l, x, r);
            assert(is_desc(i, i));
        }
        proof {
            assert forall|k: int| 0 <= k < l.len() implies selects(drv, (#[trigger] l[k]).item.0) by {
                assert(l[k] == all[k]);
                lemma_driver_order(drv, l[k].item.0, x.item.0);
            }
            assert forall|k: int| 0 <= k < r.len() implies drv.goes_left((#[trigger] r[k]).item.0) by {
                assert(r[k] == all[l.len() + 1 + k]);
            }
            lemma_all_picked(drv, l);
            assert(k0 =~= kr);
        }
        let item = self.take(idx);
        let ghost s1 = self.data@;
        proof {
            assert forall|j: int| 0 <= j < s0.len() && #[trigger] is_desc(j, 2 * i + 1) implies s0[j] == s1[j] by {
                assert(j > i);
            }
            assert forall|j: int| 0 <= j < s0.len() && #[trigger] is_desc(j, 2 * i + 2) implies s0[j] == s1[j] by {
                assert(j > i);
            }
            lemma_frame(s0, s1, 2 * i + 1);
            lemma_frame(s0, s1, 2 * i + 2);
            lemma_slots_push(st, i);
        }
        self.consume_subtree(sink, lefti(idx));
        sink.consume(item.into_tuple());
        let ghost s2 = self.data@;
        let ghost out2 = sink.consumed();
        proof {
            assert forall|j: int| 0 <= j < s1.len() && #[trigger] is_desc(j, 2 * i + 2) implies s1[j] == s2[j] by {
                assert(!is_desc(j, 2 * i + 1));
            }
            lemma_frame(s1, s2, 2 * i + 2);
        }
        let ghost mut m1: int = 0;
        if self.has_right(idx) {
            self.delete_range_cache.slots_min.push(idx);
            self.delete_range_min(drv, sink, righti(idx));
            proof {
                m1 = min_int(f + 1, kr.len() as int);
            }
            self.delete_range_cache.slots_min.pop();
        } else {
            proof {
                assert(r =~= Seq::<Entry<K, V>>::empty());
                lemma_none_picked(drv, r);
                lemma_items_empty::<K, V>();
                assert(out2 =~= out2 + pairs(picked(drv, r)));
            }
        }
        let ghost s3 = self.data@;
        proof {
            lemma_drmin_taken_tail(s0, s1, s2, s3, i, st, nf, m1, kr, present(s0, 2 * i + 2));
            lemma_items_add(l, seq![x]);
            lemma_items_add(l + seq![x], picked(drv, r));
            lemma_items_single(x);
            assert(picked(drv, all) =~= l + seq![x] + picked(drv, r));
            assert(sink.consumed() =~= out0 + pairs(picked(drv, all)));
        }
    }

    /// `delete_range_min` on a subtree whose root lies above the selected keys: the root and
    /// the right subtree stay.
    fn delete_range_min_above<D: TraversalDriver<K>, S: Sink<(K, V)>>(&mut self, drv: &D, sink: &mut S, idx: usize)
        requires
            present(old(self).data@, idx as int),
            old(self).data@.len() < usize::MAX / 2,
            clean(old(self).data@, idx as int),
            sorted_entries(inorder(old(self).data@, idx as int)),
            interval_driver(drv),
            forall|k: int|
                0 <= k < inorder(old(self).data@, idx as int).len() ==> drv.goes_left(
                    (#[trigger] inorder(old(self).data@, idx as int)[k]).item.0,
                ),
            old(self).delete_range_cache.slots_min.wf(),
            old(self).delete_range_cache.slots_min.nslots <= idx,
            slots_before(old(self).delete_range_cache.slots_min.stack(), idx as int),
            old(self).size >= inorder(old(self).data@, idx as int).len(),
            !drv.goes_right(old(self).data@[idx as int].unwrap().item.0),
        ensures
            old(sink).faithful() ==> final(sink).faithful(),
            ({
                let s0 = inorder(old(self).data@, idx as int);
                let k0 = kept(drv, s0);
                let st = old(self).delete_range_cache.slots_min.stack();
                let nf = old(self).delete_range_cache.slots_min.nfilled as int;
                let m = min_int(old(self).open_min(), k0.len() as int);
                &&& final(self).data@.len() == old(self).data@.len()
                &&& inorder(final(self).data@, idx as int) == k0.skip(m)
                &&& clean(final(self).data@, idx as int)
                &&& holds_smallest(final(self).data@, st, nf, m, k0)
                &&& changed_only(old(self).data@, final(self).data@, idx as int, st, nf, nf + m)
                &&& final(self).delete_range_cache.slots_min.wf()
                &&& final(self).delete_range_cache.slots_min.nslots == old(self).delete_range_cache.slots_min.nslots
                &&& final(self).delete_range_cache.slots_min.stack() == st
                &&& final(self).delete_range_cache.slots_min.nfilled == nf + m
                &&& final(self).delete_range_cache.slots_max == old(self).delete_range_cache.slots_max
                &&& final(self).size == old(self).size - (s0.len() - k0.len())
                &&& final(sink).consumed() == old(sink).consumed() + pairs(picked(drv, s0))
            }),
        decreases cell_measure(old(self).data@.len() as int, idx as int), 0int,
    {
        let ghost s0 = self.data@;
        let ghost i = idx as int;
        let ghost st = self.delete_range_cache.slots_min.stack();
        let ghost nf = self.delete_range_cache.slots_min.nfilled as int;
        let ghost ns = self.delete_range_cache.slots_min.nslots as int;
        let ghost f = ns - nf;
        let ghost l = inorder(s0, 2 * i + 1);
        let ghost r = inorder(s0, 2 * i + 2);
        let ghost x = s0[i].unwrap();
        let ghost all = inorder(s0, i);
        let ghost kl = kept(drv, l);
        let ghost kr = kept(drv, r);
        let ghost k0 = kept(drv, all);
        let ghost out0 = sink.consumed();
        proof {
            lemma_children(i);
            lemma_sorted_split(s0, i);
            lemma_split_kept(drv, l, x, r);
            assert(is_desc(i, i));
        }
        proof {
            assert(all[l.len() as int] == x);
            assert(above(drv, x.item.0));
            assert forall|k: int| 0 <= k < r.len() implies !selects(drv, (#[trigger] r[k]).item.0) by {
                assert(r[k] == all[l.len() + 1 + k]);
                lemma_driver_order(drv, x.item.0, r[k].item.0);
            }
            assert forall|k: int| 0 <= k < l.len() implies drv.goes_left((#[trigger] l[k]).item.0) by {
                assert(l[k] == all[k]);
            }
            lemma_none_picked(drv, r);
            assert(k0 =~= kl + seq![x] + r);
            assert(picked(drv, all) =~= picked(drv, l));
        }
        let ghost mut m1: int = 0;
        if self.has_left(idx) {
            proof {
                lemma_slots_weaken(st, i, 2 * i + 1);
            }
            self.delete_range_min(drv, sink, lefti(idx));
            proof {
                m1 = min_int(f, kl.len() as int);
            }
        } else {
            proof {
                assert(l =~= Seq::<Entry<K, V>>::empty());
                lemma_none_picked(drv, l);
                lemma_holds_none(s0, st, nf, kl);
                lemma_items_empty::<K, V>();
                assert(sink.consumed() =~= out0 + pairs(picked(drv, l)));
            }
        }
        let ghost s1 = self.data@;
        if self.delete_range_cache.slots_min.has_open() {
            proof {
                if present(s0, 2 * i + 1) {
                    lemma_sibling_untouched(s0, s1, i, 2 * i + 1, st, nf, nf + m1);
                    lemma_changed_child(s0, s1, i, 2 * i + 1, st, nf, nf + m1);
                    lemma_clean_empty(s1, 2 * i + 1);
                } else {
                    lemma_clean_empty(s0, 2 * i + 1);
                    lemma_changed_none(s0, i, st, nf, nf);
                }
                lemma_slot_below(st, i, nf + m1);
                lemma_slots_push(st, i);
            }
            self.fill_slot_min(idx);
            let ghost s2 = self.data@;
            proof {
                assert forall|j: int| 0 <= j < s1.len() && #[trigger] is_desc(j, 2 * i + 2) implies s1[j] == s2[j] by {
                    assert(j >= 2 * i + 2);
                }
                lemma_frame(s1, s2, 2 * i + 2);
            }
            let ghost mut m2: int = 0;
            if self.has_right(idx) {
                self.delete_range_cache.slots_min.push(idx);
                self.fill_slots_min(righti(idx));
                proof {
                    m2 = min_int(f - m1, r.len() as int);
                }
                self.delete_range_cache.slots_min.pop();
            } else {
                proof {
                    assert(r =~= Seq::<Entry<K, V>>::empty());
                }
            }
            let ghost s3 = self.data@;
            proof {
                lemma_fill_min_tail(s0, s1, s2, s3, i, st, nf, m1, m2, r, x, kl, present(s0, 2 * i + 2));
            }
        } else {
            proof {
                lemma_fill_min_early(s0, s1, i, st, nf, r, x, kl);
            }
        }
    }

    /// Deletes the entries of the subtree at `idx`, whose root `drv` selects, that `drv`
    /// selects, feeding them into `sink` in order; the kept entries form the new subtree.
    pub fn delete_range_at<D: TraversalDriver<K>, S: Sink<(K, V)>>(&mut self, drv: &D, sink: &mut S, idx: usize)
        requires
            present(old(self).data@, idx as int),
            old(self).data@.len() < usize::MAX / 2,
            clean(old(self).data@, idx as int),
            sorted_entries(inorder(old(self).data@, idx as int)),
            interval_driver(drv),
            selects(drv, old(self).data@[idx as int].unwrap().item.0),
            old(self).delete_range_cache.idle(),
            old(self).size >= inorder(old(self).data@, idx as int).len(),
        ensures
            old(sink).faithful() ==> final(sink).faithful(),
            ({
                let s0 = inorder(old(self).data@, idx as int);
                let k0 = kept(drv, s0);
                &&& final(self).data@.len() == old(self).data@.len()
                &&& inorder(final(self).data@, idx as int) == k0
                &&& clean(final(self).data@, idx as int)
                &&& same_outside(old(self).data@, final(self).data@, idx as int)
                &&& final(self).delete_range_cache.idle()
                &&& final(self).size == old(self).size - (s0.len() - k0.len())
                &&& final(sink).consumed() == old(sink).consumed() + pairs(picked(drv, s0))
            }),
    {
        let ghost s0 = self.data@;
        let ghost i = idx as int;
        let ghost l = inorder(s0, 2 * i + 1);
        let ghost r = inorder(s0, 2 * i + 2);
        let ghost x = s0[i].unwrap();
        let ghost all = inorder(s0, i);
        let ghost kl = kept(drv, l);
        let ghost kr = kept(drv, r);
        let ghost k0 = kept(drv, all);
        let ghost out0 = sink.consumed();
        let ghost one = seq![idx];
        proof {
            lemma_children(i);
            lemma_sorted_split(s0, i);
            lemma_split_kept(drv, l, x, r);
            assert(is_desc(i, i));
            assert forall|k: int| 0 <= k < l.len() implies !above(drv, (#[trigger] l[k]).item.0) by {
                lemma_driver_order(drv, l[k].item.0, x.item.0);
            }
            assert forall|k: int| 0 <= k < r.len() implies drv.goes_left((#[trigger] r[k]).item.0) by {
                lemma_driver_order(drv, x.item.0, r[k].item.0);
            }
            assert(k0 =~= kl + kr);
            assert(Seq::<usize>::empty().push(idx) =~= one);
            lemma_slots_empty(i);
            lemma_slots_push(Seq::<usize>::empty(), i);
            lemma_slots_empty(2 * i + 2);
            assert(self.delete_range_cache.slots_max.stack() =~= Seq::<usize>::empty());
            assert(self.delete_range_cache.slots_min.stack() =~= Seq::<usize>::empty());
        }
        let item = self.take(idx);
        let ghost s1 = self.data@;
        proof {
            assert forall|j: int| 0 <= j < s0.len() && #[trigger] is_desc(j, 2 * i + 1) implies s0[j] == s1[j] by {
                assert(j > i);
            }
            assert forall|j: int| 0 <= j < s0.len() && #[trigger] is_desc(j, 2 * i + 2) implies s0[j] == s1[j] by {
                assert(j > i);
            }
            lemma_frame(s0, s1, 2 * i + 1);
            lemma_frame(s0, s1, 2 * i + 2);
        }
        let ghost mut m1: int = 0;
        if self.has_left(idx) {
            self.delete_range_cache.slots_max.push(idx);
            self.delete_range_max(drv, sink, lefti(idx));
            proof {
                m1 = min_int(1, kl.len() as int);
            }
            self.delete_range_cache.slots_max.pop();
        } else {
            proof {
                assert(l =~= Seq::<Entry<K, V>>::empty());
                lemma_none_picked(drv, l);
                lemma_items_empty::<K, V>();
                assert(out0 =~= out0 + pairs(picked(drv, l)));
            }
        }
        let ghost s2 = self.data@;
        proof {
            if present(s0, 2 * i + 1) {
                lemma_slots_push(Seq::<usize>::empty(), i);
                lemma_other_untouched(s1, s2, i, 2 * i + 1, one, 0, m1);
            }
        }
        sink.consume(item.into_tuple());
        let ghost out2 = sink.consumed();
        let removed = self.is_nil(idx);
        let ghost mut m2: int = 0;
        if self.has_right(idx) {
            if removed {
                self.delete_range_cache.slots_min.push(idx);
                self.delete_range_min(drv, sink, righti(idx));
                proof {
                    m2 = min_int(1, kr.len() as int);
                }
                self.delete_range_cache.slots_min.pop();
            } else {
                self.delete_range_min(drv, sink, righti(idx));
                let ghost s3 = self.data@;
                proof {
                    lemma_changed_nothing(s2, s3, 2 * i + 2, Seq::<usize>::empty(), 0);
                    assert(kr.skip(0) =~= kr);
                }
            }
        } else {
            proof {
                assert(r =~= Seq::<Entry<K, V>>::empty());
                lemma_none_picked(drv, r);
                lemma_items_empty::<K, V>();
                assert(out2 =~= out2 + pairs(picked(drv, r)));
            }
        }
        let ghost s3 = self.data@;
        proof {
            lemma_taken_both_tail(s0, s1, s2, s3, i, m1, m2, kl, kr);
            lemma_items_add(picked(drv, l), seq![x]);
            lemma_items_add(picked(drv, l) + seq![x], picked(drv, r));
            lemma_items_single(x);
            assert(picked(drv, all) =~= picked(drv, l) + seq![x] + picked(drv, r));
            assert(sink.consumed() =~= out0 + pairs(picked(drv, all)));
        }
    }

    /// Deletes every entry of the tree that `drv` selects and feeds them into `sink` in order;
    /// the tree keeps the other entries.
    pub fn delete_range_loop<D: TraversalDriver<K>, S: Sink<(K, V)>>(&mut self, drv: &D, sink: &mut S)
        requires
            old(self).wf(),
            interval_driver(drv),
        ensures
            old(sink).faithful() ==> final(sink).faithful(),
            final(self).wf(),
            final(self)@ == kept(drv, old(self)@),
            final(sink).consumed() == old(sink).consumed() + pairs(picked(drv, old(self)@)),
            final(self).data@.len() == old(self).data@.len(),
    {
        let ghost s = self.data@;
        let ghost out0 = sink.consumed();
        proof {
            lemma_path_root(s);
        }
        if self.is_nil(0) {
            proof {
                assert(inorder(s, 0) =~= Seq::<Entry<K, V>>::empty());
                lemma_none_picked(drv, inorder(s, 0));
                lemma_items_empty::<K, V>();
                assert(out0 =~= out0 + pairs(picked(drv, inorder(s, 0))));
            }
            return;
        }
        let mut idx: usize = 0;
        loop
            invariant
                self.wf(),
                s == self.data@,
                s == old(self).data@,
                out0 == sink.consumed(),
                out0 == old(sink).consumed(),
                old(sink).faithful() ==> sink.faithful(),
                interval_driver(drv),
                present(s, idx as int),
                is_desc(idx as int, 0),
                path_present(s, 0, idx as int),
                forall|a: int| 0 <= a < prefix(s, 0, idx as int).len()
                    ==> !drv.goes_left((#[trigger] prefix(s, 0, idx as int)[a]).item.0),
                forall|b: int| 0 <= b < suffix(s, 0, idx as int).len()
                    ==> above(drv, (#[trigger] suffix(s, 0, idx as int)[b]).item.0),
            decreases s.len() - idx,
        {
            let ghost i = idx as int;
            let ghost x = s[i].unwrap();
            proof {
                lemma_decompose(s, 0, i);
                lemma_sorted_parts(prefix(s, 0, i), inorder(s, i), suffix(s, 0, i));
                lemma_sorted_split(s, i);
                lemma_path_extend(s, 0, i);
                lemma_path_child(s, 0, i);
                lemma_children(i);
            }
            let dec = drv.decide(self.key(idx));
            if dec.left() && dec.right() {
                let ghost p = prefix(s, 0, i);
                let ghost q = suffix(s, 0, i);
                let ghost m = inorder(s, i);
                proof {
                    lemma_replace_subtree(s, s, i);
                }
                self.delete_range_at(drv, sink, idx);
                let ghost s3 = self.data@;
                proof {
                    lemma_replace_subtree(s, s3, i);
                    assert forall|k: int| 0 <= k < p.len() implies !selects(drv, (#[trigger] p[k]).item.0) by {
                    }
                    assert forall|k: int| 0 <= k < q.len() implies !selects(drv, (#[trigger] q[k]).item.0) by {
                    }
                    lemma_kept_whole(drv, p, m, q);
                }
                return;
            }
            let next = if dec.left() {
                lefti(idx)
            } else {
                righti(idx)
            };
            proof {
                let n = next as int;
                if n == 2 * i + 1 {
                    assert(above(drv, x.item.0));
                    assert forall|b: int| 0 <= b < suffix(s, 0, n).len()
                        implies above(drv, (#[trigger] suffix(s, 0, n)[b]).item.0) by {
                        let r = inorder(s, 2 * i + 2);
                        if b == 0 {
                        } else if b < 1 + r.len() {
                            assert(suffix(s, 0, n)[b] == r[b - 1]);
                            lemma_driver_order(drv, x.item.0, r[b - 1].item.0);
                        } else {
                            assert(suffix(s, 0, n)[b] == suffix(s, 0, i)[b - 1 - r.len()]);
                        }
                    }
                } else {
                    assert(!drv.goes_left(x.item.0));
                    assert forall|a: int| 0 <= a < prefix(s, 0, n).len()
                        implies !drv.goes_left((#[trigger] prefix(s, 0, n)[a]).item.0) by {
                        let l = inorder(s, 2 * i + 1);
                        let pr = prefix(s, 0, i);
                        if a < pr.len() {
                            assert(prefix(s, 0, n)[a] == pr[a]);
                        } else if a < pr.len() + l.len() {
                            assert(prefix(s, 0, n)[a] == l[a - pr.len()]);
                            lemma_driver_order(drv, l[a - pr.len()].item.0, x.item.0);
                        } else {
                            assert(prefix(s, 0, n)[a] == x);
                        }
                    }
                }
            }
            if self.is_nil(next) {
                proof {
                    let n = next as int;
                    lemma_decompose(s, 0, n);
                    assert(inorder(s, n) =~= Seq::<Entry<K, V>>::empty());
                    let p = prefix(s, 0, n);
                    let q = suffix(s, 0, n);
                    assert forall|k: int| 0 <= k < p.len() implies !selects(drv, (#[trigger] p[k]).item.0) by {
                    }
                    assert forall|k: int| 0 <= k < q.len() implies !selects(drv, (#[trigger] q[k]).item.0) by {
                    }
                    lemma_kept_whole(drv, p, inorder(s, n), q);
                    lemma_none_picked(drv, inorder(s, n));
                    lemma_items_empty::<K, V>();
                    assert(out0 =~= out0 + pairs(picked(drv, inorder(s, 0))));
                    assert(p + kept(drv, inorder(s, n)) + q =~= inorder(s, 0));
                }
                return;
            }
            idx = next;
        }
    }
}

} // verus!
