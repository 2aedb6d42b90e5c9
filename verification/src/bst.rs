use vstd::prelude::*;

use crate::bulk_delete::{
    kept, lemma_all_picked, lemma_driver_order, lemma_items_add, lemma_items_empty, lemma_items_single,
    lemma_none_picked, lemma_split_kept, pairs, picked,
};
use crate::drivers::{above, interval_driver, selects, RangeDriver, TraversalDriver};
use crate::key::Key;
use crate::node::{erank, Entry};
use crate::sink::Sink;
use crate::tree_building::{popped, sorted_items, to_entries};
use crate::tree_spec::{lemma_sorted_parts, sorted_entries};
use std::ops::Range;

verus! {

/// A node of a pointer-based binary search tree.
pub struct BstNode<K, V> {
    pub entry: Entry<K, V>,
    pub left: Option<Box<BstNode<K, V>>>,
    pub right: Option<Box<BstNode<K, V>>>,
}

/// The entries of a pointer-based tree, in order.
pub open spec fn node_seq<K, V>(t: Option<Box<BstNode<K, V>>>) -> Seq<Entry<K, V>>
    decreases t,
{
    match t {
        None => Seq::empty(),
        Some(n) => node_seq(n.left) + seq![n.entry] + node_seq(n.right),
    }
}

/// The largest power of two that is at most `n` (1 for `n` below 2).
pub open spec fn high_pow2(n: nat) -> nat
    decreases n,
{
    if n < 2 {
        1
    } else {
        2 * high_pow2(n / 2)
    }
}

/// Where a nearly complete tree of `n` entries has its root: the number of entries in its
/// left subtree.
pub open spec fn select_root_spec(n: nat) -> nat {
    let x = high_pow2(n);
    if x / 2 <= (n - x) + 1 {
        (x - 1) as nat
    } else {
        (n - x / 2) as nat
    }
}

pub proof fn lemma_high_pow2(n: nat)
    requires
        n >= 1,
    ensures
        1 <= high_pow2(n) <= n,
        n < 2 * high_pow2(n),
    decreases n,
{
    if n >= 2 {
        lemma_high_pow2(n / 2);
    }
}

/// The largest power of two that is at most `n`.
fn high_pow2_of(n: usize) -> (x: usize)
    requires
        n >= 1,
    ensures
        x == high_pow2(n as nat),
    decreases n,
{
    proof {
        lemma_high_pow2(n as nat);
    }
    if n < 2 {
        1
    } else {
        2 * high_pow2_of(n / 2)
    }
}

/// A pointer-based binary search tree, kept as a reference point for the implicit tree.
pub struct BST<K, V> {
    pub root: Option<Box<BstNode<K, V>>>,
    pub size: usize,
}

impl<K: Key, V> View for BST<K, V> {
    type V = Seq<Entry<K, V>>;

    /// The entries of the tree, in order.
    open spec fn view(&self) -> Seq<Entry<K, V>> {
        node_seq(self.root)
    }
}

impl<K: Key, V> BST<K, V> {
    /// The entries are sorted and counted by `size`.
    pub open spec fn wf(&self) -> bool {
        &&& sorted_entries(self@)
        &&& self.size == self@.len()
    }

    /// An empty tree.
    pub fn new() -> (t: Self)
        ensures
            t.wf(),
            t@ == Seq::<Entry<K, V>>::empty(),
    {
        BST { root: None, size: 0 }
    }

    pub fn size(&self) -> (r: usize)
        requires
            self.wf(),
        ensures
            r == self@.len(),
    {
        self.size
    }

    pub fn is_empty(&self) -> (r: bool)
        requires
            self.wf(),
        ensures
            r == (self@.len() == 0),
    {
        self.size() == 0
    }

    /// The number of entries in the left subtree of a nearly complete tree of `n` entries.
    pub fn build_select_root(n: usize) -> (m: usize)
        requires
            n >= 1,
        ensures
            m == select_root_spec(n as nat),
            m < n,
    {
        proof {
            lemma_high_pow2(n as nat);
        }
        let x = high_pow2_of(n);
        if x / 2 <= (n - x) + 1 {
            x - 1
        } else {
            n - x / 2
        }
    }

    /// Builds a nearly complete tree of the last `n` pairs of `src`, the last one first.
    fn build(src: &mut Vec<(K, V)>, n: usize) -> (t: Option<Box<BstNode<K, V>>>)
        requires
            old(src)@.len() >= n,
        ensures
            final(src)@ == old(src)@.take(old(src)@.len() - n),
            node_seq(t) == to_entries(popped(old(src)@, n as int)),
        decreases n,
    {
        let ghost src0 = src@;
        if n == 0 {
            proof {
                assert(src0.take(src0.len() as int) =~= src0);
                assert(to_entries(popped(src0, 0)) =~= Seq::<Entry<K, V>>::empty());
            }
            return None;
        }
        let mid = Self::build_select_root(n);
        let left = Self::build(src, mid);
        let ghost src1 = src@;
        let item = src.pop().unwrap();
        let ghost src2 = src@;
        let right = Self::build(src, n - mid - 1);
        proof {
            assert(src1 =~= src0.take(src0.len() - mid));
            assert(src@ =~= src0.take(src0.len() - n));
            assert(popped(src0, mid as int) =~= popped(src0, n as int).subrange(0, mid as int));
            assert(popped(src2, (n - mid - 1) as int) =~= popped(src0, n as int).subrange(mid + 1, n as int));
            assert(to_entries(popped(src0, n as int)) =~= to_entries(popped(src0, mid as int)) + seq![
                Entry { item: src0[src0.len() - 1 - mid] },
            ] + to_entries(popped(src2, (n - mid - 1) as int)));
        }
        Some(Box::new(BstNode { entry: Entry::from_tuple(item), left: left, right: right }))
    }

    /// A nearly complete tree of the given sorted pairs.
    pub fn with_sorted(sorted: Vec<(K, V)>) -> (t: Self)
        requires
            sorted_items(sorted@),
        ensures
            t.wf(),
            t@ == to_entries(sorted@),
    {
        let mut sorted = sorted;
        let ghost orig = sorted@;
        let n = sorted.len();
        let mut src: Vec<(K, V)> = Vec::new();
        while sorted.len() > 0
            invariant
                sorted@ == orig.take(sorted@.len() as int),
                src@ =~= popped(orig, (orig.len() - sorted@.len()) as int),
                sorted@.len() <= orig.len(),
                src@.len() == orig.len() - sorted@.len(),
            decreases sorted@.len(),
        {
            let x = sorted.pop().unwrap();
            src.push(x);
            proof {
                assert(sorted@ =~= orig.take(sorted@.len() as int));
            }
        }
        let root = Self::build(&mut src, n);
        proof {
            assert(popped(popped(orig, n as int), n as int) =~= orig);
            let e = to_entries(orig);
            assert forall|a: int, b: int| 0 <= a <= b < e.len() implies crate::node::erank(#[trigger] e[a])
                <= crate::node::erank(#[trigger] e[b]) by {
                assert(e[a].item == orig[a] && e[b].item == orig[b]);
            }
        }
        BST { root: root, size: n }
    }

    /// Feeds every entry of the tree `node` into `sink`, in order, and returns their number.
    pub fn consume_tree<S: Sink<(K, V)>>(node: Option<Box<BstNode<K, V>>>, sink: &mut S) -> (c: usize)
        requires
            node_seq(node).len() <= usize::MAX,
        ensures
            old(sink).faithful() ==> final(sink).faithful(),
            final(sink).consumed() == old(sink).consumed() + pairs(node_seq(node)),
            c == node_seq(node).len(),
        decreases node,
    {
        match node {
            None => {
                proof {
                    lemma_items_empty::<K, V>();
                    assert(old(sink).consumed() + pairs(node_seq(node)) =~= old(sink).consumed());
                }
                0
            },
            Some(b) => {
                let n = *b;
                let ghost l = node_seq(n.left);
                let ghost r = node_seq(n.right);
                let ghost out0 = sink.consumed();
                let cl = Self::consume_tree(n.left, sink);
                let ghost out1 = sink.consumed();
                sink.consume(n.entry.into_tuple());
                let cr = Self::consume_tree(n.right, sink);
                proof {
                    lemma_items_add(l, seq![n.entry]);
                    lemma_items_add(l + seq![n.entry], r);
                    lemma_items_single(n.entry);
                    assert(out1.push(n.entry.item) =~= out1 + seq![n.entry.item]);
                    assert(sink.consumed() =~= out0 + pairs(node_seq(node)));
                }
                cl + 1 + cr
            },
        }
    }
}

/// The parts of a sorted tree are sorted and ordered around its root.
pub proof fn lemma_node_sorted<K: Key, V>(n: BstNode<K, V>)
    requires
        sorted_entries(node_seq(Some(Box::new(n)))),
    ensures
        node_seq(Some(Box::new(n))) == node_seq(n.left) + seq![n.entry] + node_seq(n.right),
        sorted_entries(node_seq(n.left)),
        sorted_entries(node_seq(n.right)),
        forall|a: int| 0 <= a < node_seq(n.left).len() ==> erank(#[trigger] node_seq(n.left)[a]) <= erank(n.entry),
        forall|b: int| 0 <= b < node_seq(n.right).len() ==> erank(n.entry) <= erank(#[trigger] node_seq(n.right)[b]),
{
    let l = node_seq(n.left);
    let r = node_seq(n.right);
    lemma_sorted_parts(l, seq![n.entry], r);
    assert(seq![n.entry][0] == n.entry);
}

impl<K: Key, V> BST<K, V> {
    /// Removes the largest entry of a tree; returns the rest of the tree and a node without
    /// children that holds that entry.
    fn delete_max(root: Box<BstNode<K, V>>) -> (r: (Option<Box<BstNode<K, V>>>, Box<BstNode<K, V>>))
        ensures
            node_seq(r.0) + seq![r.1.entry] == node_seq(Some(root)),
            r.1.left is None,
            r.1.right is None,
        decreases root,
    {
        let n = *root;
        match n.right {
            None => {
                proof {
                    assert(node_seq(Some(root)) == node_seq(n.left) + seq![n.entry] + node_seq(
                        None::<Box<BstNode<K, V>>>,
                    ));
                    assert(node_seq(n.left) + seq![n.entry] =~= node_seq(Some(root)));
                }
                (n.left, Box::new(BstNode { entry: n.entry, left: None, right: None }))
            },
            Some(right) => {
                let (nr, m) = Self::delete_max(right);
                let rest = Some(Box::new(BstNode { entry: n.entry, left: n.left, right: nr }));
                proof {
                    assert(node_seq(rest) + seq![m.entry] =~= node_seq(Some(root)));
                }
                (rest, m)
            },
        }
    }

    /// Deletes the selected entries of a tree that lies left of a selected entry: an entry
    /// that the driver lets go left is selected there, together with everything right of it.
    fn delete_range_left<D: TraversalDriver<K>, S: Sink<(K, V)>>(
        d: &D,
        node: Option<Box<BstNode<K, V>>>,
        sink: &mut S,
    ) -> (r: (Option<Box<BstNode<K, V>>>, usize))
        requires
            interval_driver(d),
            sorted_entries(node_seq(node)),
            node_seq(node).len() <= usize::MAX,
            forall|a: int| 0 <= a < node_seq(node).len() ==> !above(d, (#[trigger] node_seq(node)[a]).item.0),
        ensures
            old(sink).faithful() ==> final(sink).faithful(),
            node_seq(r.0) == kept(d, node_seq(node)),
            final(sink).consumed() == old(sink).consumed() + pairs(picked(d, node_seq(node))),
            r.1 == picked(d, node_seq(node)).len(),
        decreases node,
    {
        match node {
            None => {
                proof {
                    lemma_none_picked(d, node_seq(node));
                    lemma_items_empty::<K, V>();
                    assert(old(sink).consumed() + pairs(picked(d, node_seq(node))) =~= old(sink).consumed());
                }
                (None, 0)
            },
            Some(b) => {
                let n = *b;
                let ghost l = node_seq(n.left);
                let ghost r = node_seq(n.right);
                let ghost x = n.entry;
                let ghost out0 = sink.consumed();
                proof {
                    lemma_node_sorted(n);
                    assert(node_seq(Some(b)) == l + seq![x] + r);
                    lemma_split_kept(d, l, x, r);
                    crate::bulk_delete::lemma_picked_len(d, l);
                    crate::bulk_delete::lemma_picked_len(d, r);
                    assert forall|a: int| 0 <= a < l.len() implies !above(d, (#[trigger] l[a]).item.0) by {
                        assert(l[a] == node_seq(node)[a]);
                    }
                    assert forall|a: int| 0 <= a < r.len() implies !above(d, (#[trigger] r[a]).item.0) by {
                        assert(r[a] == node_seq(node)[l.len() + 1 + a]);
                    }
                    assert(!above(d, x.item.0)) by {
                        assert(x == node_seq(node)[l.len() as int]);
                    }
                }
                let dec = d.decide(n.entry.key());
                if dec.left() {
                    proof {
                        assert forall|a: int| 0 <= a < r.len() implies selects(d, (#[trigger] r[a]).item.0) by {
                            lemma_driver_order(d, x.item.0, r[a].item.0);
                        }
                        lemma_all_picked(d, r);
                    }
                    let (left, cl) = Self::delete_range_left(d, n.left, sink);
                    let ghost out1 = sink.consumed();
                    sink.consume(n.entry.into_tuple());
                    let cr = Self::consume_tree(n.right, sink);
                    proof {
                        lemma_items_add(picked(d, l), seq![x]);
                        lemma_items_add(picked(d, l) + seq![x], r);
                        lemma_items_single(x);
                        assert(out1.push(x.item) =~= out1 + seq![x.item]);
                        assert(kept(d, l) + Seq::<Entry<K, V>>::empty() + Seq::<Entry<K, V>>::empty() =~= kept(d, l));
                        assert(sink.consumed() =~= out0 + pairs(picked(d, node_seq(node))));
                    }
                    (left, cl + 1 + cr)
                } else {
                    proof {
                        assert forall|a: int| 0 <= a < l.len() implies !selects(d, (#[trigger] l[a]).item.0) by {
                            lemma_driver_order(d, l[a].item.0, x.item.0);
                        }
                        lemma_none_picked(d, l);
                        lemma_items_empty::<K, V>();
                    }
                    let (right, cr) = Self::delete_range_left(d, n.right, sink);
                    let t = Some(Box::new(BstNode { entry: n.entry, left: n.left, right: right }));
                    proof {
                        assert(node_seq(t) == l + seq![x] + kept(d, r));
                        assert(Seq::<Entry<K, V>>::empty() + Seq::<Entry<K, V>>::empty() + picked(d, r) =~= picked(d, r));
                    }
                    (t, cr)
                }
            },
        }
    }

    /// Deletes the selected entries of a tree that lies right of a selected entry: an entry
    /// that the driver lets go right is selected there, together with everything left of it.
    fn delete_range_right<D: TraversalDriver<K>, S: Sink<(K, V)>>(
        d: &D,
        node: Option<Box<BstNode<K, V>>>,
        sink: &mut S,
    ) -> (r: (Option<Box<BstNode<K, V>>>, usize))
        requires
            interval_driver(d),
            sorted_entries(node_seq(node)),
            node_seq(node).len() <= usize::MAX,
            forall|a: int| 0 <= a < node_seq(node).len() ==> d.goes_left((#[trigger] node_seq(node)[a]).item.0),
        ensures
            old(sink).faithful() ==> final(sink).faithful(),
            node_seq(r.0) == kept(d, node_seq(node)),
            final(sink).consumed() == old(sink).consumed() + pairs(picked(d, node_seq(node))),
            r.1 == picked(d, node_seq(node)).len(),
        decreases node,
    {
        match node {
            None => {
                proof {
                    lemma_none_picked(d, node_seq(node));
                    lemma_items_empty::<K, V>();
                    assert(old(sink).consumed() + pairs(picked(d, node_seq(node))) =~= old(sink).consumed());
                }
                (None, 0)
            },
            Some(b) => {
                let n = *b;
                let ghost l = node_seq(n.left);
                let ghost r = node_seq(n.right);
                let ghost x = n.entry;
                let ghost out0 = sink.consumed();
                proof {
                    lemma_node_sorted(n);
                    assert(node_seq(Some(b)) == l + seq![x] + r);
                    lemma_split_kept(d, l, x, r);
                    crate::bulk_delete::lemma_picked_len(d, l);
                    crate::bulk_delete::lemma_picked_len(d, r);
                    assert forall|a: int| 0 <= a < l.len() implies d.goes_left((#[trigger] l[a]).item.0) by {
                        assert(l[a] == node_seq(node)[a]);
                    }
                    assert forall|a: int| 0 <= a < r.len() implies d.goes_left((#[trigger] r[a]).item.0) by {
                        assert(r[a] == node_seq(node)[l.len() + 1 + a]);
                    }
                    assert(d.goes_left(x.item.0)) by {
                        assert(x == node_seq(node)[l.len() as int]);
                    }
                }
                let dec = d.decide(n.entry.key());
                if dec.right() {
                    proof {
                        assert forall|a: int| 0 <= a < l.len() implies selects(d, (#[trigger] l[a]).item.0) by {
                            lemma_driver_order(d, l[a].item.0, x.item.0);
                        }
                        lemma_all_picked(d, l);
                    }
                    let ghost out0 = sink.consumed();
                    let cl = Self::consume_tree(n.left, sink);
                    let ghost out1 = sink.consumed();
                    sink.consume(n.entry.into_tuple());
                    let (right, cr) = Self::delete_range_right(d, n.right, sink);
                    proof {
                        lemma_items_add(l, seq![x]);
                        lemma_items_add(l + seq![x], picked(d, r));
                        lemma_items_single(x);
                        assert(out1.push(x.item) =~= out1 + seq![x.item]);
                        assert(Seq::<Entry<K, V>>::empty() + Seq::<Entry<K, V>>::empty() + kept(d, r) =~= kept(d, r));
                        assert(sink.consumed() =~= out0 + pairs(picked(d, node_seq(node))));
                    }
                    (right, cl + 1 + cr)
                } else {
                    proof {
                        assert forall|a: int| 0 <= a < r.len() implies !selects(d, (#[trigger] r[a]).item.0) by {
                            lemma_driver_order(d, x.item.0, r[a].item.0);
                        }
                        lemma_none_picked(d, r);
                        lemma_items_empty::<K, V>();
                    }
                    let (left, cl) = Self::delete_range_right(d, n.left, sink);
                    let t = Some(Box::new(BstNode { entry: n.entry, left: left, right: n.right }));
                    proof {
                        assert(node_seq(t) == kept(d, l) + seq![x] + r);
                        assert(picked(d, l) + Seq::<Entry<K, V>>::empty() + Seq::<Entry<K, V>>::empty() =~= picked(d, l));
                    }
                    (t, cl)
                }
            },
        }
    }
}

impl<K: Key, V> BST<K, V> {
    /// Joins two trees, all of whose entries in `left` come before those in `right`: the
    /// largest entry of `left` becomes the root.
    fn join(left: Option<Box<BstNode<K, V>>>, right: Option<Box<BstNode<K, V>>>) -> (t: Option<
        Box<BstNode<K, V>>,
    >)
        ensures
            node_seq(t) == node_seq(left) + node_seq(right),
    {
        match left {
            None => {
                assert(node_seq(left) + node_seq(right) =~= node_seq(right));
                right
            },
            Some(l) => {
                if right.is_none() {
                    assert(node_seq(Some(l)) + node_seq(right) =~= node_seq(Some(l)));
                    Some(l)
                } else {
                    let (rest, root) = Self::delete_max(l);
                    let t = Some(Box::new(BstNode { entry: root.entry, left: rest, right: right }));
                    proof {
                        assert(node_seq(t) =~= node_seq(rest) + seq![root.entry] + node_seq(right));
                    }
                    t
                }
            },
        }
    }

    /// Deletes the entries that `d` selects from the tree at `node_opt`, feeding them into
    /// `sink` in order; returns their number.  The search goes down to the first selected
    /// entry, which splits the work into a left and a right part.
    fn delete_range_loop<D: TraversalDriver<K>, S: Sink<(K, V)>>(
        d: &D,
        node_opt: &mut Option<Box<BstNode<K, V>>>,
        sink: &mut S,
    ) -> (c: usize)
        requires
            interval_driver(d),
            sorted_entries(node_seq(*old(node_opt))),
            node_seq(*old(node_opt)).len() <= usize::MAX,
        ensures
            old(sink).faithful() ==> final(sink).faithful(),
            node_seq(*final(node_opt)) == kept(d, node_seq(*old(node_opt))),
            final(sink).consumed() == old(sink).consumed() + pairs(picked(d, node_seq(*old(node_opt)))),
            c == picked(d, node_seq(*old(node_opt))).len(),
        decreases *old(node_opt),
    {
        let ghost s0 = node_seq(*node_opt);
        match node_opt.take() {
            None => {
                proof {
                    lemma_none_picked(d, s0);
                    lemma_items_empty::<K, V>();
                    assert(old(sink).consumed() + pairs(picked(d, s0)) =~= old(sink).consumed());
                }
                0
            },
            Some(b) => {
                let mut n = *b;
                let ghost l = node_seq(n.left);
                let ghost r = node_seq(n.right);
                let ghost x = n.entry;
                let ghost out0 = sink.consumed();
                proof {
                    lemma_node_sorted(n);
                    assert(s0 == l + seq![x] + r);
                    lemma_split_kept(d, l, x, r);
                    crate::bulk_delete::lemma_picked_len(d, l);
                    crate::bulk_delete::lemma_picked_len(d, r);
                }
                let dec = d.decide(n.entry.key());
                if dec.left() && dec.right() {
                    proof {
                        assert forall|a: int| 0 <= a < l.len() implies !above(d, (#[trigger] l[a]).item.0) by {
                            lemma_driver_order(d, l[a].item.0, x.item.0);
                        }
                        assert forall|a: int| 0 <= a < r.len() implies d.goes_left((#[trigger] r[a]).item.0) by {
                            lemma_driver_order(d, x.item.0, r[a].item.0);
                        }
                    }
                    let (new_left, cl) = Self::delete_range_left(d, n.left, sink);
                    let ghost out1 = sink.consumed();
                    sink.consume(n.entry.into_tuple());
                    let (new_right, cr) = Self::delete_range_right(d, n.right, sink);
                    *node_opt = Self::join(new_left, new_right);
                    proof {
                        lemma_items_add(picked(d, l), seq![x]);
                        lemma_items_add(picked(d, l) + seq![x], picked(d, r));
                        lemma_items_single(x);
                        assert(out1.push(x.item) =~= out1 + seq![x.item]);
                        assert(kept(d, l) + Seq::<Entry<K, V>>::empty() + kept(d, r) =~= kept(d, l) + kept(d, r));
                        assert(sink.consumed() =~= out0 + pairs(picked(d, s0)));
                    }
                    cl + 1 + cr
                } else if !dec.left() {
                    proof {
                        assert forall|a: int| 0 <= a < l.len() implies !selects(d, (#[trigger] l[a]).item.0) by {
                            lemma_driver_order(d, l[a].item.0, x.item.0);
                        }
                        lemma_none_picked(d, l);
                        lemma_items_empty::<K, V>();
                    }
                    let c = Self::delete_range_loop(d, &mut n.right, sink);
                    *node_opt = Some(Box::new(n));
                    proof {
                        assert(node_seq(*node_opt) == l + seq![x] + kept(d, r));
                        assert(Seq::<Entry<K, V>>::empty() + Seq::<Entry<K, V>>::empty() + picked(d, r) =~= picked(d, r));
                    }
                    c
                } else {
                    proof {
                        assert forall|a: int| 0 <= a < r.len() implies !selects(d, (#[trigger] r[a]).item.0) by {
                            lemma_driver_order(d, x.item.0, r[a].item.0);
                        }
                        lemma_none_picked(d, r);
                        lemma_items_empty::<K, V>();
                    }
                    let c = Self::delete_range_loop(d, &mut n.left, sink);
                    *node_opt = Some(Box::new(n));
                    proof {
                        assert(node_seq(*node_opt) == kept(d, l) + seq![x] + r);
                        assert(picked(d, l) + Seq::<Entry<K, V>>::empty() + Seq::<Entry<K, V>>::empty() =~= picked(d, l));
                    }
                    c
                }
            },
        }
    }

    /// Deletes the entries whose keys lie in `range` (and those whose key is its start) and
    /// feeds them into `sink`, in order.
    pub fn delete_range<S: Sink<(K, V)>>(&mut self, range: Range<K>, sink: S) -> (out: S)
        requires
            old(self).wf(),
        ensures
            sink.faithful() ==> out.faithful(),
            final(self).wf(),
            final(self)@ == kept(&(RangeDriver { range: range }), old(self)@),
            out.consumed() == sink.consumed() + pairs(picked(&(RangeDriver { range: range }), old(self)@)),
    {
        let driver = RangeDriver::new(range);
        proof {
            driver.lemma_interval();
            crate::bulk_delete::lemma_picked_len(&driver, self@);
            crate::laws::law_driver_selection(&driver, self@);
            crate::laws::law_in_order(|k: K| selects(&driver, k), self@);
        }
        let mut sink = sink;
        let c = Self::delete_range_loop(&driver, &mut self.root, &mut sink);
        self.size = self.size - c;
        sink
    }
}

/// Hands out the entries of a tree in order, taking the tree apart as it goes.
pub struct ConsumeIter<K, V> {
    pub cur: Option<Box<BstNode<K, V>>>,
}

impl<K, V> View for ConsumeIter<K, V> {
    type V = Seq<Entry<K, V>>;

    /// The entries not handed out yet, in order.
    open spec fn view(&self) -> Seq<Entry<K, V>> {
        node_seq(self.cur)
    }
}

impl<K, V> ConsumeIter<K, V> {
    pub fn new(cur: Option<Box<BstNode<K, V>>>) -> (it: Self)
        ensures
            it@ == node_seq(cur),
    {
        ConsumeIter { cur: cur }
    }

    /// The first remaining pair, or `None` when nothing remains.  Rotates the leftmost path
    /// until the first entry is at the top.
    pub fn next(&mut self) -> (r: Option<(K, V)>)
        ensures
            old(self)@.len() == 0 ==> r is None && final(self)@ == old(self)@,
            old(self)@.len() > 0 ==> r == Some(old(self)@[0].item) && final(self)@ == old(self)@.drop_first(),
    {
        let ghost s0 = self@;
        let first = self.cur.take();
        match first {
            None => None,
            Some(c) => {
                let mut cur = c;
                loop
                    invariant
                        node_seq(Some(cur)) == s0,
                        s0 == old(self)@,
                    decreases node_seq(cur.left).len(),
                {
                    let left = cur.left.take();
                    match left {
                        Some(node) => {
                            let mut node = node;
                            let ghost nl = node_seq(node.left);
                            let ghost nr = node_seq(node.right);
                            let ghost r = node_seq(cur.right);
                            let ghost xn = node.entry;
                            let ghost xc = cur.entry;
                            cur.left = node.right.take();
                            assert(node_seq(Some(cur)) == nr + seq![xc] + r);
                            node.right = Some(cur);
                            assert(node_seq(node.right) == nr + seq![xc] + r);
                            cur = node;
                            proof {
                                assert(node_seq(Some(cur)) == nl + seq![xn] + node_seq(cur.right));
                                assert(node_seq(Some(cur)) =~= nl + seq![xn] + (nr + seq![xc] + r));
                                assert(s0 =~= (nl + seq![xn] + nr) + seq![xc] + r);
                            }
                        },
                        None => {
                            let ghost r = node_seq(cur.right);
                            let ghost x = cur.entry;
                            self.cur = cur.right.take();
                            proof {
                                assert(s0 == Seq::<Entry<K, V>>::empty() + seq![x] + r);
                                assert(s0.drop_first() =~= r);
                            }
                            let n = *cur;
                            return Some(n.entry.into_tuple());
                        },
                    }
                }
            },
        }
    }
}

/// Hands out the entries of a tree in order and knows how many remain.
pub struct IntoIter<K, V> {
    pub inner: ConsumeIter<K, V>,
    pub remaining: usize,
}

impl<K, V> View for IntoIter<K, V> {
    type V = Seq<Entry<K, V>>;

    open spec fn view(&self) -> Seq<Entry<K, V>> {
        self.inner@
    }
}

impl<K, V> IntoIter<K, V> {
    pub open spec fn wf(&self) -> bool {
        self.remaining == self.inner@.len()
    }

    pub fn new(cur: Option<Box<BstNode<K, V>>>, remaining: usize) -> (it: Self)
        requires
            remaining == node_seq(cur).len(),
        ensures
            it.wf(),
            it@ == node_seq(cur),
    {
        IntoIter { inner: ConsumeIter::new(cur), remaining: remaining }
    }

    /// The first remaining pair, or `None` when nothing remains.
    pub fn next(&mut self) -> (r: Option<(K, V)>)
        requires
            old(self).wf(),
        ensures
            final(self).wf(),
            old(self)@.len() == 0 ==> r is None && final(self)@ == old(self)@,
            old(self)@.len() > 0 ==> r == Some(old(self)@[0].item) && final(self)@ == old(self)@.drop_first(),
    {
        let item = self.inner.next();
        if item.is_some() {
            self.remaining = self.remaining - 1;
        }
        item
    }

    /// The number of pairs that remain.
    pub fn len(&self) -> (n: usize)
        requires
            self.wf(),
        ensures
            n == self@.len(),
    {
        self.remaining
    }
}

impl<K: Key, V> BST<K, V> {
    /// Hands out the pairs of the tree in order.
    pub fn into_iter(self) -> (it: IntoIter<K, V>)
        requires
            self.wf(),
        ensures
            it.wf(),
            it@ == self@,
    {
        IntoIter::new(self.root, self.size)
    }

    /// Drops every entry, one at a time.
    pub fn clear(&mut self)
        requires
            old(self).wf(),
        ensures
            final(self).wf(),
            final(self)@ == Seq::<Entry<K, V>>::empty(),
    {
        let root = self.root.take();
        let mut iter = IntoIter::new(root, self.size);
        while iter.len() > 0
            invariant
                iter.wf(),
            decreases iter@.len(),
        {
            iter.next();
        }
        self.size = 0;
    }
}

/// A copy of a tree with the same entries.
fn copy_tree<K: Key, V: Copy>(t: &Option<Box<BstNode<K, V>>>) -> (r: Option<Box<BstNode<K, V>>>)
    ensures
        node_seq(r) == node_seq(*t),
    decreases *t,
{
    match t {
        None => None,
        Some(n) => {
            let left = copy_tree(&n.left);
            let right = copy_tree(&n.right);
            let e = Entry { item: (n.entry.item.0, n.entry.item.1) };
            Some(Box::new(BstNode { entry: e, left: left, right: right }))
        },
    }
}

impl<K: Key, V: Copy> Clone for BST<K, V> {
    /// A copy of the tree with the same entries.
    fn clone(&self) -> (r: Self)
        ensures
            r@ == self@,
            r.size == self.size,
    {
        BST { root: copy_tree(&self.root), size: self.size }
    }
}

} // verus!
