use vstd::prelude::*;

use crate::key::Key;
use crate::node::Entry;
use crate::tree_repr::{righti, TreeRepr};
use crate::tree_spec::{
    clean, path_measure, inorder, is_desc, lemma_children, lemma_decompose, lemma_desc_split, lemma_path_extend, path_present, prefix,
    present, suffix,
};

verus! {

/// The position of the entry of cell `c` among the entries of the tree, in order.
pub open spec fn cell_pos<K, V>(s: Seq<Option<Entry<K, V>>>, c: int) -> int {
    (prefix(s, 0, c).len() + inorder(s, 2 * c + 1).len()) as int
}

/// With one-based cell numbers, where a left child is even: the nearest cell at or above
/// `i` that is a left child, or 0 when the path from `i` up to the root goes only through
/// right children.
pub open spec fn left_enclosing_spec(i: nat) -> nat
    decreases i,
{
    if i % 2 == 1 {
        left_enclosing_spec(i / 2)
    } else {
        i
    }
}

/// The nearest cell at or above the one-based cell `idx` that is a left child (0 if none):
/// `idx` without its trailing one bits.
pub fn left_enclosing(idx: usize) -> (r: usize)
    ensures
        r == left_enclosing_spec(idx as nat),
{
    let mut i = idx;
    while i % 2 == 1
        invariant
            left_enclosing_spec(i as nat) == left_enclosing_spec(idx as nat),
        decreases i,
    {
        i = i / 2;
    }
    i
}

/// A cell of the tree holds the entry at its position.
pub proof fn lemma_cell_pos<K, V>(s: Seq<Option<Entry<K, V>>>, c: int)
    requires
        present(s, c),
        is_desc(c, 0),
        path_present(s, 0, c),
    ensures
        0 <= cell_pos(s, c) < inorder(s, 0).len(),
        inorder(s, 0)[cell_pos(s, c)] == s[c].unwrap(),
{
    lemma_decompose(s, 0, c);
    assert(inorder(s, c) == inorder(s, 2 * c + 1) + seq![s[c].unwrap()] + inorder(s, 2 * c + 2));
    let pre = prefix(s, 0, c);
    assert(inorder(s, 0) == pre + (inorder(s, 2 * c + 1) + seq![s[c].unwrap()] + inorder(s, 2 * c + 2)) + suffix(s, 0, c));
    assert(inorder(s, 0)[cell_pos(s, c)] == s[c].unwrap());
}

/// In a subtree without entries below empty cells, every cell on the way down to an
/// entry holds an entry.
pub proof fn lemma_present_reachable<K, V>(s: Seq<Option<Entry<K, V>>>, r: int, c: int)
    requires
        0 <= r,
        clean(s, r),
        is_desc(c, r),
        present(s, c),
    ensures
        path_present(s, r, c),
    decreases path_measure(r, c),
{
    if r < c {
        lemma_children(r);
        crate::tree_spec::lemma_path_step(c, r);
        let ch = if is_desc(c, 2 * r + 1) { 2 * r + 1 } else { 2 * r + 2 };
        if !present(s, r) {
            crate::interval_tree::lemma_all_none_desc(s, ch, c);
        }
        lemma_present_reachable(s, ch, c);
        assert forall|j: int| #[trigger] is_desc(j, r) && is_desc(c, j) && j != c implies present(s, j) by {
            if j != r {
                crate::tree_spec::lemma_desc_split(j, r);
                if is_desc(j, 2 * r + 1) != is_desc(ch, 2 * r + 1) {
                    if is_desc(j, 2 * r + 1) {
                        crate::tree_spec::lemma_desc_trans(c, j, 2 * r + 1);
                    } else {
                        crate::tree_spec::lemma_desc_trans(c, j, 2 * r + 2);
                    }
                    crate::tree_spec::lemma_desc_disjoint(c, r);
                }
            }
        }
    }
}

/// Every entry of a valid tree lies below the root, on a path of entries.
pub proof fn lemma_entry_reachable<K: Key, V>(t: &TreeRepr<K, V>, c: int)
    requires
        t.wf(),
        present(t.data@, c),
    ensures
        is_desc(c, 0),
        path_present(t.data@, 0, c),
{
    crate::tree_building::lemma_desc_root(c);
    lemma_present_reachable(t.data@, 0, c);
}

/// Climbing from `a` through right children keeps the part after `c` empty; the climb ends
/// at a left child or above the root.
pub proof fn lemma_climb<K, V>(s: Seq<Option<Entry<K, V>>>, a: int, c: int)
    requires
        0 <= a,
        is_desc(c, a),
        suffix(s, a, c) == Seq::<Entry<K, V>>::empty(),
    ensures
        ({
            let le = left_enclosing_spec((a + 1) as nat) as int;
            &&& le == 0 ==> suffix(s, 0, c) == Seq::<Entry<K, V>>::empty()
            &&& le != 0 ==> le >= 2 && le % 2 == 0 && is_desc(c, le - 1) && suffix(s, le - 1, c)
                == Seq::<Entry<K, V>>::empty() && le - 1 <= a
        }),
    decreases a,
{
    if (a + 1) % 2 == 1 {
        if a == 0 {
            assert(left_enclosing_spec(0) == 0);
        } else {
            let p = (a - 2) / 2;
            assert(a == 2 * p + 2);
            assert((a + 1) / 2 == p + 1);
            lemma_children(p);
            assert(is_desc(a, p)) by {
                assert(is_desc(p, p));
            }
            crate::tree_spec::lemma_desc_trans(c, a, p);
            assert(is_desc(c, 2 * p + 2));
            assert(!is_desc(c, 2 * p + 1));
            assert(p < c) by {
                crate::tree_spec::lemma_desc_nested(c, p, p);
            }
            assert(suffix(s, p, c) == suffix(s, 2 * p + 2, c));
            lemma_climb(s, p, c);
        }
    }
}

impl<K: Key, V> TreeRepr<K, V> {
    /// The cell of the entry that follows the entry of cell `curr`, or `None` when that entry
    /// is the last one.
    #[verifier::rlimit(30)]
    pub fn successor(&self, curr: usize) -> (r: Option<usize>)
        requires
            self.wf(),
            present(self.data@, curr as int),
        ensures
            r matches Some(n) ==> present(self.data@, n as int) && is_desc(n as int, 0) && path_present(
                self.data@,
                0,
                n as int,
            ) && cell_pos(self.data@, n as int) == cell_pos(self.data@, curr as int) + 1,
            r is None ==> cell_pos(self.data@, curr as int) == self@.len() - 1,
    {
        let ghost s = self.data@;
        let ghost c = curr as int;
        proof {
            lemma_entry_reachable(self, c);
            lemma_decompose(s, 0, c);
            lemma_children(c);
        }
        if self.has_right(curr) {
            let n = self.find_min(righti(curr));
            proof {
                let rc = 2 * c + 2;
                lemma_path_extend(s, 0, c);
                crate::tree_spec::lemma_path_child(s, 0, c);
                crate::partial_rebuild::lemma_prefix_compose(s, 0, rc, n as int);
                crate::tree_spec::lemma_desc_trans(n as int, rc, 0);
                assert forall|j: int| #[trigger] is_desc(j, 0) && is_desc(n as int, j) && j != n implies present(s, j) by {
                    if !is_desc(j, rc) {
                        if j > rc {
                            crate::tree_spec::lemma_desc_nested(n as int, rc, j);
                        } else {
                            crate::tree_spec::lemma_desc_nested(n as int, j, rc);
                            assert(is_desc(rc, j));
                            assert(is_desc(c, j));
                            if j != c {
                                assert(present(s, j));
                            }
                        }
                    }
                }
                assert(inorder(s, 2 * n + 1).len() == 0);
            }
            Some(n)
        } else {
            proof {
                assert(is_desc(c, c));
                assert(suffix(s, c, c) == Seq::<Entry<K, V>>::empty());
                lemma_climb(s, c, c);
                assert(inorder(s, 2 * c + 2).len() == 0);
            }
            let le = left_enclosing(curr + 1);
            if le <= 1 {
                proof {
                    assert(inorder(s, c) == inorder(s, 2 * c + 1) + seq![s[c].unwrap()] + inorder(s, 2 * c + 2));
                }
                return None;
            }
            let a = le - 1;
            let p = (a - 1) / 2;
            proof {
                let ai = a as int;
                let pi = p as int;
                assert(ai == 2 * pi + 1);
                assert(is_desc(ai, pi)) by {
                    assert(is_desc(pi, pi));
                }
                crate::tree_spec::lemma_desc_trans(c, ai, pi);
                assert(pi < c);
                assert forall|j: int| #[trigger] is_desc(j, 0) && is_desc(pi, j) && j != pi implies present(s, j) by {
                    crate::tree_spec::lemma_desc_trans(c, pi, j);
                    assert(j < c);
                }
                assert(present(s, pi)) by {
                    crate::tree_building::lemma_desc_root(pi);
                }
                crate::tree_building::lemma_desc_root(pi);
                crate::partial_rebuild::lemma_prefix_compose(s, 0, pi, c);
                assert(prefix(s, pi, c) == prefix(s, ai, c));
                assert forall|j: int| #[trigger] is_desc(j, ai) && is_desc(c, j) && j != c implies present(s, j) by {
                    crate::tree_spec::lemma_desc_trans(j, ai, 0);
                    crate::tree_building::lemma_desc_root(ai);
                }
                lemma_decompose(s, ai, c);
                assert(inorder(s, c) == inorder(s, 2 * c + 1) + seq![s[c].unwrap()] + inorder(s, 2 * c + 2));
            }
            Some(p)
        }
    }
}

/// Walks the entries of a tree in order, from cell to cell.
pub struct Iter<'a, K, V> {
    pub tree: &'a TreeRepr<K, V>,
    pub next_idx: usize,
    pub remaining: usize,
}

impl<'a, K: Key, V> View for Iter<'a, K, V> {
    type V = Seq<Entry<K, V>>;

    /// The entries not visited yet, in order.
    open spec fn view(&self) -> Seq<Entry<K, V>> {
        self.tree@.subrange(self.tree@.len() - self.remaining, self.tree@.len() as int)
    }
}

impl<'a, K: Key, V> Iter<'a, K, V> {
    /// `next_idx` is the cell of the first entry not visited yet, or no cell when all were.
    pub open spec fn wf(&self) -> bool {
        let s = self.tree.data@;
        &&& self.tree.wf()
        &&& self.remaining <= self.tree@.len()
        &&& self.remaining > 0 ==> present(s, self.next_idx as int) && is_desc(self.next_idx as int, 0) && path_present(
            s,
            0,
            self.next_idx as int,
        ) && cell_pos(s, self.next_idx as int) == self.tree@.len() - self.remaining
        &&& self.remaining == 0 ==> !present(s, self.next_idx as int)
    }

    pub fn new(tree: &'a TreeRepr<K, V>) -> (it: Self)
        requires
            tree.wf(),
        ensures
            it.wf(),
            it@ == tree@,
            it.tree == tree,
    {
        let ghost s = tree.data@;
        if tree.is_nil(0) {
            proof {
                assert(inorder(s, 0) =~= Seq::<Entry<K, V>>::empty());
                assert(tree@.subrange(0, 0) =~= tree@);
            }
            return Iter { tree: tree, next_idx: 0, remaining: 0 };
        }
        let m = tree.find_min(0);
        proof {
            assert(inorder(s, 2 * m + 1).len() == 0);
            crate::tree_building::lemma_desc_root(m as int);
            assert(tree@.subrange(0, tree@.len() as int) =~= tree@);
        }
        Iter { tree: tree, next_idx: m, remaining: tree.size }
    }

    /// The next entry in order, or `None` when all were visited.
    pub fn next(&mut self) -> (r: Option<&'a Entry<K, V>>)
        requires
            old(self).wf(),
        ensures
            final(self).wf(),
            final(self).tree == old(self).tree,
            old(self)@.len() == 0 ==> r is None && final(self)@ == old(self)@,
            old(self)@.len() > 0 ==> r == Some(&old(self)@[0]) && final(self)@ == old(self)@.drop_first(),
    {
        let curr = self.next_idx;
        if self.tree.is_nil(curr) {
            return None;
        }
        proof {
            lemma_cell_pos(self.tree.data@, curr as int);
        }
        let succ = self.tree.successor(curr);
        match succ {
            Some(x) => {
                proof {
                    lemma_cell_pos(self.tree.data@, x as int);
                }
                self.next_idx = x;
            },
            None => {
                self.next_idx = self.tree.capacity();
                assert(old(self).remaining == 1);
            },
        }
        self.remaining = self.remaining - 1;
        proof {
            let t = self.tree@;
            assert(old(self)@[0] == t[t.len() - old(self).remaining]);
            assert(self@ =~= old(self)@.drop_first());
        }
        Some(self.tree.node(curr))
    }

    /// The number of entries not visited yet.
    pub fn len(&self) -> (n: usize)
        requires
            self.wf(),
        ensures
            n == self@.len(),
    {
        self.remaining
    }
}

} // verus!
