use vstd::prelude::*;

use crate::key::Key;
use crate::node::Entry;
use crate::tree_repr::{lefti, righti, TreeRepr};
use crate::tree_spec::{
    all_none, cell_measure, clean, inorder, is_desc, lemma_all_none, lemma_children, lemma_decompose, lemma_frame,
    lemma_path_child, lemma_path_extend, lemma_replace_at, path_present, prefix, present, same_outside, suffix,
};

verus! {

/// `s2` agrees with `s1` outside the subtree of `i`, except in cell `h`.
pub open spec fn same_outside_but<K, V>(
    s1: Seq<Option<Entry<K, V>>>,
    s2: Seq<Option<Entry<K, V>>>,
    i: int,
    h: int,
) -> bool {
    &&& s1.len() == s2.len()
    &&& forall|j: int| 0 <= j < s1.len() && j != h && !#[trigger] is_desc(j, i) ==> s1[j] == s2[j]
}

impl<K: Key, V> TreeRepr<K, V> {
    /// The cell of the largest entry of the subtree at `idx`: the end of its rightmost path.
    pub fn find_max(&self, idx: usize) -> (m: usize)
        requires
            present(self.data@, idx as int),
            self.data@.len() < usize::MAX / 2,
        ensures
            present(self.data@, m as int),
            !present(self.data@, 2 * m + 2),
            is_desc(m as int, idx as int),
            path_present(self.data@, idx as int, m as int),
            suffix(self.data@, idx as int, m as int) == Seq::<Entry<K, V>>::empty(),
    {
        let ghost s = self.data@;
        let mut cur = idx;
        proof {
            assert(is_desc(idx as int, idx as int));
            assert(suffix(s, idx as int, idx as int) == Seq::<Entry<K, V>>::empty());
        }
        while self.has_right(cur)
            invariant
                s == self.data@,
                s.len() < usize::MAX / 2,
                present(s, cur as int),
                is_desc(cur as int, idx as int),
                path_present(s, idx as int, cur as int),
                suffix(s, idx as int, cur as int) == Seq::<Entry<K, V>>::empty(),
            decreases s.len() - cur,
        {
            proof {
                lemma_path_extend(s, idx as int, cur as int);
                lemma_path_child(s, idx as int, cur as int);
            }
            cur = righti(cur);
        }
        cur
    }

    /// The cell of the smallest entry of the subtree at `idx`: the end of its leftmost path.
    pub fn find_min(&self, idx: usize) -> (m: usize)
        requires
            present(self.data@, idx as int),
            self.data@.len() < usize::MAX / 2,
        ensures
            present(self.data@, m as int),
            !present(self.data@, 2 * m + 1),
            is_desc(m as int, idx as int),
            path_present(self.data@, idx as int, m as int),
            prefix(self.data@, idx as int, m as int) == Seq::<Entry<K, V>>::empty(),
    {
        let ghost s = self.data@;
        let mut cur = idx;
        proof {
            assert(is_desc(idx as int, idx as int));
            assert(prefix(s, idx as int, idx as int) == Seq::<Entry<K, V>>::empty());
        }
        while self.has_left(cur)
            invariant
                s == self.data@,
                s.len() < usize::MAX / 2,
                present(s, cur as int),
                is_desc(cur as int, idx as int),
                path_present(s, idx as int, cur as int),
                prefix(s, idx as int, cur as int) == Seq::<Entry<K, V>>::empty(),
            decreases s.len() - cur,
        {
            proof {
                lemma_path_extend(s, idx as int, cur as int);
                lemma_path_child(s, idx as int, cur as int);
            }
            cur = lefti(cur);
        }
        cur
    }

    /// Moves the largest entry of the subtree at `idx` into the empty cell `hole` above it and
    /// keeps the rest of that subtree a valid tree.
    #[verifier::rlimit(30)]
    pub fn delete_max(&mut self, hole: usize, idx: usize) -> (last: usize)
        requires
            old(self).data@.len() < usize::MAX / 2,
            idx == 2 * hole + 1,
            old(self).data@[hole as int] is None,
            present(old(self).data@, idx as int),
            clean(old(self).data@, idx as int),
        ensures
            final(self).data@.len() == old(self).data@.len(),
            final(self).data@[hole as int] == Some(inorder(old(self).data@, idx as int).last()),
            inorder(final(self).data@, idx as int) == inorder(old(self).data@, idx as int).drop_last(),
            clean(final(self).data@, idx as int),
            same_outside_but(old(self).data@, final(self).data@, idx as int, hole as int),
            final(self).size == old(self).size,
            final(self).delete_range_cache == old(self).delete_range_cache,
            is_desc(last as int, idx as int),
            last < old(self).data@.len(),
            forall|j: int|
                0 <= j < old(self).data@.len() && j != hole && old(self).data@[j] != final(self).data@[j] ==> is_desc(
                    last as int,
                    j,
                ),
        decreases cell_measure(old(self).data@.len() as int, idx as int),
    {
        let ghost s0 = self.data@;
        let ghost i = idx as int;
        let ghost h = hole as int;
        let m = self.find_max(idx);
        let ghost mi = m as int;
        let ghost x = s0[mi].unwrap();
        let ghost lm = inorder(s0, 2 * mi + 1);
        let ghost t0 = s0.update(h, Some(x));
        proof {
            lemma_children(mi);
            assert(is_desc(mi, mi));
            assert(!is_desc(h, i)) by {
                if is_desc(h, i) {
                    crate::tree_spec::lemma_desc_nested(h, i, i);
                }
            }
            assert forall|j: int| 0 <= j < s0.len() && #[trigger] is_desc(j, i) implies s0[j] == t0[j] by {
                assert(j != h);
            }
            lemma_frame(s0, t0, i);
            lemma_decompose(s0, i, mi);
            crate::tree_spec::lemma_clean_path(s0, i, mi);
            assert(clean(s0, mi));
            assert(clean(s0, 2 * mi + 2));
            assert(all_none(s0, 2 * mi + 2));
            lemma_all_none(s0, 2 * mi + 2);
            assert(inorder(s0, mi) == lm + seq![x] + inorder(s0, 2 * mi + 2));
        }
        self.move_from_to(m, hole);
        let ghost s1 = self.data@;
        proof {
            assert(s1 == t0.update(mi, None));
            assert forall|j: int| 0 <= j < s0.len() && #[trigger] is_desc(j, 2 * mi + 1) implies s0[j] == s1[j] by {
                assert(j > mi);
                assert(j != h) by {
                    crate::tree_spec::lemma_desc_trans(j, mi, i);
                }
            }
            lemma_frame(s0, s1, 2 * mi + 1);
            assert forall|j: int| 0 <= j < s0.len() && #[trigger] is_desc(j, 2 * mi + 1) implies t0[j] == s1[j] by {
                assert(j > mi);
            }
            assert forall|j: int| 0 <= j < s0.len() && #[trigger] is_desc(j, 2 * mi + 2) implies s0[j] == s1[j] by {
                assert(j > mi);
                assert(j != h) by {
                    crate::tree_spec::lemma_desc_trans(j, mi, i);
                }
            }
            lemma_frame(t0, s1, 2 * mi + 1);
            lemma_frame(s0, s1, 2 * mi + 2);
        }
        let last;
        if self.has_left(m) {
            last = self.delete_max(m, lefti(m));
            let ghost s2 = self.data@;
            proof {
                assert forall|j: int| 0 <= j < s0.len() && #[trigger] is_desc(j, 2 * mi + 2) implies s1[j] == s2[j] by {
                    assert(!is_desc(j, 2 * mi + 1));
                    assert(j != mi);
                }
                lemma_frame(s1, s2, 2 * mi + 2);
                lemma_all_none(s2, 2 * mi + 2);
                assert(inorder(s2, mi) == lm.drop_last() + seq![lm.last()] + Seq::<Entry<K, V>>::empty());
                assert(inorder(s2, mi) =~= lm);
            }
        } else {
            last = m;
            proof {
                assert(lm =~= Seq::<Entry<K, V>>::empty());
            }
        }
        let ghost s3 = self.data@;
        proof {
            assert(same_outside(t0, s3, mi)) by {
                assert forall|j: int| 0 <= j < t0.len() && !#[trigger] is_desc(j, mi) implies t0[j] == s3[j] by {
                    assert(!is_desc(j, 2 * mi + 1));
                    assert(j != mi);
                }
            }
            lemma_replace_at(t0, s3, i, mi);
            assert forall|j: int| 0 <= j < s0.len() && #[trigger] is_desc(j, i) implies s0[j] == t0[j] by {
                assert(j != h);
            }
            crate::tree_spec::lemma_path_frame(s0, t0, i, mi);
            assert(!is_desc(h, mi)) by {
                if is_desc(h, mi) {
                    crate::tree_spec::lemma_desc_trans(h, mi, i);
                }
            }
            assert(inorder(s0, i) == prefix(s0, i, mi) + inorder(s0, mi) + suffix(s0, i, mi));
            assert(inorder(s3, mi) == inorder(s0, mi).drop_last());
            assert(inorder(s3, i) =~= inorder(s0, i).drop_last());
            assert(s3[h] == Some(x));
            assert forall|j: int| 0 <= j < s0.len() && j != h && !#[trigger] is_desc(j, i) implies s0[j] == s3[j] by {
                if is_desc(j, mi) {
                    crate::tree_spec::lemma_desc_trans(j, mi, i);
                }
            }
            assert(is_desc(last as int, mi));
            crate::tree_spec::lemma_desc_trans(last as int, mi, i);
            assert forall|j: int| 0 <= j < s0.len() && j != h && s0[j] != s3[j] implies is_desc(last as int, j) by {
                if j != mi {
                    assert(s1[j] == s0[j]);
                    assert(s3[j] != s1[j]);
                }
            }
        }
        last
    }

    /// Moves the smallest entry of the subtree at `idx` into the empty cell `hole` above it
    /// and keeps the rest of that subtree a valid tree.
    #[verifier::rlimit(100)]
    #[verifier::spinoff_prover]
    pub fn delete_min(&mut self, hole: usize, idx: usize) -> (last: usize)
        requires
            old(self).data@.len() < usize::MAX / 2,
            idx == 2 * hole + 2,
            old(self).data@[hole as int] is None,
            present(old(self).data@, idx as int),
            clean(old(self).data@, idx as int),
        ensures
            final(self).data@.len() == old(self).data@.len(),
            final(self).data@[hole as int] == Some(inorder(old(self).data@, idx as int).first()),
            inorder(final(self).data@, idx as int) == inorder(old(self).data@, idx as int).drop_first(),
            clean(final(self).data@, idx as int),
            same_outside_but(old(self).data@, final(self).data@, idx as int, hole as int),
            final(self).size == old(self).size,
            final(self).delete_range_cache == old(self).delete_range_cache,
            is_desc(last as int, idx as int),
            last < old(self).data@.len(),
            forall|j: int|
                0 <= j < old(self).data@.len() && j != hole && old(self).data@[j] != final(self).data@[j] ==> is_desc(
                    last as int,
                    j,
                ),
        decreases cell_measure(old(self).data@.len() as int, idx as int),
    {
        let ghost s0 = self.data@;
        let ghost i = idx as int;
        let ghost h = hole as int;
        let m = self.find_min(idx);
        let ghost mi = m as int;
        let ghost x = s0[mi].unwrap();
        let ghost rm = inorder(s0, 2 * mi + 2);
        let ghost t0 = s0.update(h, Some(x));
        proof {
            lemma_children(mi);
            assert(is_desc(mi, mi));
            assert(!is_desc(h, i)) by {
                if is_desc(h, i) {
                    crate::tree_spec::lemma_desc_nested(h, i, i);
                }
            }
            assert forall|j: int| 0 <= j < s0.len() && #[trigger] is_desc(j, i) implies s0[j] == t0[j] by {
                assert(j != h);
            }
            lemma_frame(s0, t0, i);
            lemma_decompose(s0, i, mi);
            crate::tree_spec::lemma_clean_path(s0, i, mi);
            assert(clean(s0, mi));
            assert(clean(s0, 2 * mi + 1));
            assert(all_none(s0, 2 * mi + 1));
            lemma_all_none(s0, 2 * mi + 1);
            assert(inorder(s0, mi) == inorder(s0, 2 * mi + 1) + seq![x] + rm);
        }
        self.move_from_to(m, hole);
        let ghost s1 = self.data@;
        proof {
            assert(s1 == t0.update(mi, None));
            assert forall|j: int| 0 <= j < s0.len() && #[trigger] is_desc(j, 2 * mi + 2) implies s0[j] == s1[j] by {
                assert(j > mi);
                assert(j != h) by {
                    crate::tree_spec::lemma_desc_trans(j, mi, i);
                }
            }
            lemma_frame(s0, s1, 2 * mi + 2);
            assert forall|j: int| 0 <= j < s0.len() && #[trigger] is_desc(j, 2 * mi + 2) implies t0[j] == s1[j] by {
                assert(j > mi);
            }
            assert forall|j: int| 0 <= j < s0.len() && #[trigger] is_desc(j, 2 * mi + 1) implies s0[j] == s1[j] by {
                assert(j > mi);
                assert(j != h) by {
                    crate::tree_spec::lemma_desc_trans(j, mi, i);
                }
            }
            lemma_frame(t0, s1, 2 * mi + 2);
            lemma_frame(s0, s1, 2 * mi + 1);
        }
        let last;
        if self.has_right(m) {
            last = self.delete_min(m, righti(m));
            let ghost s2 = self.data@;
            proof {
                assert forall|j: int| 0 <= j < s0.len() && #[trigger] is_desc(j, 2 * mi + 1) implies s1[j] == s2[j] by {
                    assert(!is_desc(j, 2 * mi + 2));
                    assert(j != mi);
                }
                lemma_frame(s1, s2, 2 * mi + 1);
                lemma_all_none(s2, 2 * mi + 1);
                assert(inorder(s2, mi) == Seq::<Entry<K, V>>::empty() + seq![rm.first()] + rm.drop_first());
                assert(inorder(s2, mi) =~= rm);
            }
        } else {
            last = m;
            proof {
                assert(rm =~= Seq::<Entry<K, V>>::empty());
            }
        }
        let ghost s3 = self.data@;
        proof {
            assert(same_outside(t0, s3, mi)) by {
                assert forall|j: int| 0 <= j < t0.len() && !#[trigger] is_desc(j, mi) implies t0[j] == s3[j] by {
                    assert(!is_desc(j, 2 * mi + 2));
                    assert(j != mi);
                }
            }
            lemma_replace_at(t0, s3, i, mi);
            assert forall|j: int| 0 <= j < s0.len() && #[trigger] is_desc(j, i) implies s0[j] == t0[j] by {
                assert(j != h);
            }
            crate::tree_spec::lemma_path_frame(s0, t0, i, mi);
            assert(!is_desc(h, mi)) by {
                if is_desc(h, mi) {
                    crate::tree_spec::lemma_desc_trans(h, mi, i);
                }
            }
            assert(inorder(s0, i) == prefix(s0, i, mi) + inorder(s0, mi) + suffix(s0, i, mi));
            assert(inorder(s3, mi) == inorder(s0, mi).drop_first());
            assert(inorder(s3, i) =~= inorder(s0, i).drop_first());
            assert(s3[h] == Some(x));
            assert forall|j: int| 0 <= j < s0.len() && j != h && !#[trigger] is_desc(j, i) implies s0[j] == s3[j] by {
                if is_desc(j, mi) {
                    crate::tree_spec::lemma_desc_trans(j, mi, i);
                }
            }
            assert(is_desc(last as int, mi));
            crate::tree_spec::lemma_desc_trans(last as int, mi, i);
            assert forall|j: int| 0 <= j < s0.len() && j != h && s0[j] != s3[j] implies is_desc(last as int, j) by {
                if j != mi {
                    assert(s1[j] == s0[j]);
                    assert(s3[j] != s1[j]);
                }
            }
        }
        last
    }
}

impl<K: Key, V> TreeRepr<K, V> {
    /// Empties the cell `idx` and rearranges its subtree into a valid tree of the other
    /// entries; returns the value of the removed entry.
    #[verifier::rlimit(60)]
    #[verifier::spinoff_prover]
    pub fn delete_at(&mut self, idx: usize) -> (r: (V, usize))
        requires
            old(self).wf(),
            present(old(self).data@, idx as int),
            clean(old(self).data@, idx as int),
            is_desc(idx as int, 0),
            crate::tree_spec::path_present(old(self).data@, 0, idx as int),
        ensures
            ({
                let s0 = old(self).data@;
                let i = idx as int;
                &&& final(self).data@.len() == s0.len()
                &&& inorder(final(self).data@, i) == inorder(s0, 2 * i + 1) + inorder(s0, 2 * i + 2)
                &&& clean(final(self).data@, i)
                &&& same_outside(s0, final(self).data@, i)
                &&& r.0 == s0[i].unwrap().item.1
                &&& final(self).size == old(self).size - 1
                &&& final(self).delete_range_cache == old(self).delete_range_cache
                &&& is_desc(r.1 as int, i)
                &&& r.1 < s0.len()
                &&& forall|j: int| 0 <= j < s0.len() && s0[j] != final(self).data@[j] ==> is_desc(r.1 as int, j)
            }),
    {
        let ghost s0 = self.data@;
        let ghost i = idx as int;
        let ghost l = inorder(s0, 2 * i + 1);
        let ghost r = inorder(s0, 2 * i + 2);
        proof {
            lemma_children(i);
            assert(is_desc(i, i));
            assert(self.size > 0) by {
                lemma_replace_at(s0, s0, 0, i);
            }
        }
        let node = self.take(idx);
        let ghost s1 = self.data@;
        proof {
            assert forall|j: int| 0 <= j < s0.len() && #[trigger] is_desc(j, 2 * i + 1) implies s0[j] == s1[j] by {
                assert(j > i);
            }
            assert forall|j: int| 0 <= j < s0.len() && #[trigger] is_desc(j, 2 * i + 2) implies s0[j] == s1[j] by {
                assert(j > i);
            }
            lemma_frame(s0, s1, 2 * i + 1);
            lemma_frame(s0, s1, 2 * i + 2);
        }
        let last;
        if self.has_left(idx) {
            last = self.delete_max(idx, lefti(idx));
            let ghost s2 = self.data@;
            proof {
                assert forall|j: int| 0 <= j < s0.len() && #[trigger] is_desc(j, 2 * i + 2) implies s1[j] == s2[j] by {
                    assert(!is_desc(j, 2 * i + 1));
                    assert(j != i);
                }
                lemma_frame(s1, s2, 2 * i + 2);
                assert(inorder(s2, i) == l.drop_last() + seq![l.last()] + r);
                assert(l.drop_last() + seq![l.last()] =~= l);
            }
        } else if self.has_right(idx) {
            proof {
                assert(all_none(s1, 2 * i + 1));
                lemma_all_none(s1, 2 * i + 1);
            }
            last = self.delete_min(idx, righti(idx));
            let ghost s2 = self.data@;
            proof {
                assert forall|j: int| 0 <= j < s0.len() && #[trigger] is_desc(j, 2 * i + 1) implies s1[j] == s2[j] by {
                    assert(!is_desc(j, 2 * i + 2));
                    assert(j != i);
                }
                lemma_frame(s1, s2, 2 * i + 1);
                assert(inorder(s2, i) == Seq::<Entry<K, V>>::empty() + seq![r.first()] + r.drop_first());
                assert(seq![r.first()] + r.drop_first() =~= r);
            }
        } else {
            last = idx;
            proof {
                assert(all_none(s1, 2 * i + 1));
                assert(all_none(s1, 2 * i + 2));
                lemma_all_none(s1, 2 * i + 1);
                lemma_all_none(s1, 2 * i + 2);
            }
        }
        let ghost s3 = self.data@;
        proof {
            assert(inorder(s3, i) =~= l + r);
            assert forall|j: int| 0 <= j < s0.len() && !#[trigger] is_desc(j, i) implies s0[j] == s3[j] by {
                assert(!is_desc(j, 2 * i + 1));
                assert(!is_desc(j, 2 * i + 2));
            }
        }
        proof {
            assert(is_desc(last as int, i)) by {
                if last != idx {
                    lemma_children(i);
                }
            }
            assert forall|j: int| 0 <= j < s0.len() && s0[j] != s3[j] implies is_desc(last as int, j) by {
                if j != i {
                    assert(s1[j] == s0[j]);
                }
            }
        }
        (node.into_tuple().1, last)
    }

}

} // verus!
