use vstd::prelude::*;

use crate::key::Key;
use crate::node::{Entry, erank};
use crate::slot_stack::DeleteRangeCache;
use crate::sink::Sink;
use crate::tree_spec::{
    all_none, clean, entries_le, inorder, is_desc, lemma_all_cells_none, lemma_all_none, lemma_decompose,
    lemma_path_child, lemma_path_extend, lemma_path_root, lemma_sorted_parts, lemma_sorted_split, path_present,
    prefix, present, sorted_entries, suffix,
};

verus! {

/// The left child of cell `idx`.
pub fn lefti(idx: usize) -> (r: usize)
    requires
        idx < usize::MAX / 2,
    ensures
        r == 2 * idx + 1,
{
    idx * 2 + 1
}

/// The right child of cell `idx`.
pub fn righti(idx: usize) -> (r: usize)
    requires
        idx < usize::MAX / 2,
    ensures
        r == 2 * idx + 2,
{
    idx * 2 + 2
}

/// The parent of cell `idx`.
pub fn parenti(idx: usize) -> (r: usize)
    requires
        idx > 0,
    ensures
        r == (idx - 1) / 2,
{
    (idx - 1) / 2
}

/// The depth of a cell: the root has depth 0.
pub open spec fn depth(i: int) -> int
    decreases i,
{
    if i <= 0 {
        0
    } else {
        depth((i - 1) / 2) + 1
    }
}

/// The depth of cell `idx`.
pub fn depth_of(idx: usize) -> (d: usize)
    ensures
        d == depth(idx as int),
        d <= idx,
{
    let mut i = idx;
    let mut d: usize = 0;
    while i > 0
        invariant
            d + depth(i as int) == depth(idx as int),
            d <= idx - i,
        decreases i,
    {
        assert(d + 1 <= idx - (i - 1) / 2);
        i = (i - 1) / 2;
        d = d + 1;
    }
    d
}

/// The entries are present in the tree with the rank of `key`.
pub open spec fn has_key<K: Key, V>(s: Seq<Entry<K, V>>, key: K) -> bool {
    exists|p: int| 0 <= p < s.len() && (#[trigger] s[p]).item.0.rank() == key.rank()
}

/// An implicit binary search tree: the entries live in the cells of `data`; the children of
/// cell `i` are the cells `2i+1` and `2i+2`.
pub struct TreeRepr<K, V> {
    pub data: Vec<Option<Entry<K, V>>>,
    pub size: usize,
    pub delete_range_cache: DeleteRangeCache,
}

impl<K: Key, V> View for TreeRepr<K, V> {
    type V = Seq<Entry<K, V>>;

    /// The entries of the tree in order.
    open spec fn view(&self) -> Seq<Entry<K, V>> {
        inorder(self.data@, 0)
    }
}

impl<K: Key, V> TreeRepr<K, V> {
    /// The tree is a clean, sorted implicit tree whose size is its number of entries.
    pub open spec fn wf(&self) -> bool {
        &&& clean(self.data@, 0)
        &&& sorted_entries(inorder(self.data@, 0))
        &&& self.size == inorder(self.data@, 0).len()
        &&& self.data@.len() < usize::MAX / 2
        &&& self.delete_range_cache.idle()
    }

    pub open spec fn cells(&self) -> Seq<Option<Entry<K, V>>> {
        self.data@
    }

    pub fn size(&self) -> (r: usize)
        ensures
            r == self.size,
    {
        self.size
    }

    /// The number of cells.
    pub fn capacity(&self) -> (r: usize)
        ensures
            r == self.data@.len(),
    {
        self.data.len()
    }

    /// Cell `idx` holds an entry.
    pub fn mask(&self, idx: usize) -> (r: bool)
        requires
            idx < self.data@.len(),
        ensures
            r == present(self.data@, idx as int),
    {
        self.data[idx].is_some()
    }

    /// Cell `idx` is outside the storage or empty.
    pub fn is_nil(&self, idx: usize) -> (r: bool)
        ensures
            r == !present(self.data@, idx as int),
    {
        idx >= self.data.len() || self.data[idx].is_none()
    }

    pub fn has_left(&self, idx: usize) -> (r: bool)
        requires
            idx < usize::MAX / 2,
        ensures
            r == present(self.data@, 2 * idx + 1),
    {
        !self.is_nil(lefti(idx))
    }

    pub fn has_right(&self, idx: usize) -> (r: bool)
        requires
            idx < usize::MAX / 2,
        ensures
            r == present(self.data@, 2 * idx + 2),
    {
        !self.is_nil(righti(idx))
    }

    /// The entry in cell `idx`.
    pub fn node(&self, idx: usize) -> (e: &Entry<K, V>)
        requires
            present(self.data@, idx as int),
        ensures
            Some(*e) == self.data@[idx as int],
    {
        self.data[idx].as_ref().unwrap()
    }

    pub fn node_opt(&self, idx: usize) -> (e: Option<&Entry<K, V>>)
        ensures
            present(self.data@, idx as int) ==> e == Some(&self.data@[idx as int].unwrap()),
            !present(self.data@, idx as int) ==> e is None,
    {
        if self.is_nil(idx) {
            None
        } else {
            Some(self.node(idx))
        }
    }

    pub fn key(&self, idx: usize) -> (k: &K)
        requires
            present(self.data@, idx as int),
        ensures
            *k == self.data@[idx as int].unwrap().item.0,
    {
        self.node(idx).key()
    }

    pub fn val(&self, idx: usize) -> (v: &V)
        requires
            present(self.data@, idx as int),
        ensures
            *v == self.data@[idx as int].unwrap().item.1,
    {
        self.node(idx).val()
    }

    /// The entry in the parent of cell `idx`.
    pub fn parent(&self, idx: usize) -> (e: &Entry<K, V>)
        requires
            idx > 0,
            present(self.data@, (idx - 1) / 2),
        ensures
            Some(*e) == self.data@[(idx - 1) / 2],
    {
        self.node(parenti(idx))
    }

    pub fn parent_opt(&self, idx: usize) -> (e: Option<&Entry<K, V>>)
        ensures
            idx > 0 && present(self.data@, (idx - 1) / 2) ==> e == Some(&self.data@[(idx - 1) / 2].unwrap()),
            !(idx > 0 && present(self.data@, (idx - 1) / 2)) ==> e is None,
    {
        if idx == 0 {
            None
        } else {
            self.node_opt(parenti(idx))
        }
    }

    pub fn left(&self, idx: usize) -> (e: &Entry<K, V>)
        requires
            idx < usize::MAX / 2,
            present(self.data@, 2 * idx + 1),
        ensures
            Some(*e) == self.data@[2 * idx + 1],
    {
        self.node(lefti(idx))
    }

    pub fn left_opt(&self, idx: usize) -> (e: Option<&Entry<K, V>>)
        requires
            idx < usize::MAX / 2,
        ensures
            present(self.data@, 2 * idx + 1) ==> e == Some(&self.data@[2 * idx + 1].unwrap()),
            !present(self.data@, 2 * idx + 1) ==> e is None,
    {
        self.node_opt(lefti(idx))
    }

    pub fn right(&self, idx: usize) -> (e: &Entry<K, V>)
        requires
            idx < usize::MAX / 2,
            present(self.data@, 2 * idx + 2),
        ensures
            Some(*e) == self.data@[2 * idx + 2],
    {
        self.node(righti(idx))
    }

    pub fn right_opt(&self, idx: usize) -> (e: Option<&Entry<K, V>>)
        requires
            idx < usize::MAX / 2,
        ensures
            present(self.data@, 2 * idx + 2) ==> e == Some(&self.data@[2 * idx + 2].unwrap()),
            !present(self.data@, 2 * idx + 2) ==> e is None,
    {
        self.node_opt(righti(idx))
    }

    /// Looks for `query` from the root: returns the cell holding an entry with that key, or
    /// the empty cell where such an entry belongs.
    pub fn index_of(&self, query: &K) -> (idx: usize)
        requires
            self.wf(),
        ensures
            is_desc(idx as int, 0),
            idx <= 2 * self.data@.len(),
            path_present(self.data@, 0, idx as int),
            forall|a: int| 0 <= a < prefix(self.data@, 0, idx as int).len()
                ==> erank(#[trigger] prefix(self.data@, 0, idx as int)[a]) < query.rank(),
            forall|b: int| 0 <= b < suffix(self.data@, 0, idx as int).len()
                ==> erank(#[trigger] suffix(self.data@, 0, idx as int)[b]) > query.rank(),
            present(self.data@, idx as int) ==> erank(self.data@[idx as int].unwrap()) == query.rank()
                && self@.contains(self.data@[idx as int].unwrap()),
            present(self.data@, idx as int) <==> has_key(self@, *query),
    {
        let ghost s = self.data@;
        proof {
            lemma_path_root(s);
        }
        if self.is_nil(0) {
            proof {
                assert(inorder(s, 0) =~= Seq::<Entry<K, V>>::empty());
            }
            return 0;
        }
        let mut idx: usize = 0;
        loop
            invariant
                self.wf(),
                s == self.data@,
                present(s, idx as int),
                is_desc(idx as int, 0),
                path_present(s, 0, idx as int),
                forall|a: int| 0 <= a < prefix(s, 0, idx as int).len()
                    ==> erank(#[trigger] prefix(s, 0, idx as int)[a]) < query.rank(),
                forall|b: int| 0 <= b < suffix(s, 0, idx as int).len()
                    ==> erank(#[trigger] suffix(s, 0, idx as int)[b]) > query.rank(),
            decreases s.len() - idx,
        {
            let ghost i = idx as int;
            let ghost x = s[i].unwrap();
            proof {
                lemma_decompose(s, 0, i);
                lemma_sorted_parts(prefix(s, 0, i), inorder(s, i), suffix(s, 0, i));
                lemma_sorted_split(s, i);
                lemma_path_extend(s, 0, i);
                lemma_path_child(s, 0, i);
                assert(inorder(s, 0) == prefix(s, 0, i) + (inorder(s, 2 * i + 1) + seq![x] + inorder(s, 2 * i + 2))
                    + suffix(s, 0, i));
            }
            let k = self.key(idx);
            if query.key_eq(k) {
                proof {
                    let p = (prefix(s, 0, i).len() + inorder(s, 2 * i + 1).len()) as int;
                    assert(inorder(s, 0)[p] == x);
                }
                return idx;
            }
            let next = if query.key_lt(k) {
                lefti(idx)
            } else {
                righti(idx)
            };
            proof {
                let n = next as int;
                if n == 2 * i + 1 {
                    assert forall|b: int| 0 <= b < suffix(s, 0, n).len()
                        implies erank(#[trigger] suffix(s, 0, n)[b]) > query.rank() by {
                        let r = inorder(s, 2 * i + 2);
                        if b == 0 {
                        } else if b < 1 + r.len() {
                            assert(suffix(s, 0, n)[b] == r[b - 1]);
                        } else {
                            assert(suffix(s, 0, n)[b] == suffix(s, 0, i)[b - 1 - r.len()]);
                        }
                    }
                } else {
                    assert forall|a: int| 0 <= a < prefix(s, 0, n).len()
                        implies erank(#[trigger] prefix(s, 0, n)[a]) < query.rank() by {
                        let l = inorder(s, 2 * i + 1);
                        let pr = prefix(s, 0, i);
                        if a < pr.len() {
                            assert(prefix(s, 0, n)[a] == pr[a]);
                        } else if a < pr.len() + l.len() {
                            assert(prefix(s, 0, n)[a] == l[a - pr.len()]);
                        } else {
                            assert(prefix(s, 0, n)[a] == x);
                        }
                    }
                }
            }
            if self.is_nil(next) {
                proof {
                    let n = next as int;
                    lemma_decompose(s, 0, n);
                    assert(inorder(s, n) =~= Seq::<Entry<K, V>>::empty());
                    if has_key(inorder(s, 0), *query) {
                        let p = choose|p: int| 0 <= p < inorder(s, 0).len()
                            && (#[trigger] inorder(s, 0)[p]).item.0.rank() == query.rank();
                        if p < prefix(s, 0, n).len() {
                            assert(inorder(s, 0)[p] == prefix(s, 0, n)[p]);
                        } else {
                            assert(inorder(s, 0)[p] == suffix(s, 0, n)[p - prefix(s, 0, n).len()]);
                        }
                    }
                }
                return next;
            }
            idx = next;
        }
    }

    /// Finds the value of an entry with the key `query`.
    pub fn find(&self, query: &K) -> (r: Option<&V>)
        requires
            self.wf(),
        ensures
            r is Some <==> has_key(self@, *query),
            r matches Some(v) ==> self@.contains(Entry { item: (*query, *v) }),
    {
        let idx = self.index_of(query);
        if self.is_nil(idx) {
            None
        } else {
            proof {
                K::lemma_rank_injective(self.data@[idx as int].unwrap().item.0, *query);
            }
            Some(self.val(idx))
        }
    }

    /// The tree holds an entry with the key `query`.
    pub fn contains(&self, query: &K) -> (r: bool)
        requires
            self.wf(),
        ensures
            r == has_key(self@, *query),
    {
        self.find(query).is_some()
    }

    /// Empties cell `idx` and returns its entry.
    pub fn take(&mut self, idx: usize) -> (e: Entry<K, V>)
        requires
            present(old(self).data@, idx as int),
            old(self).size > 0,
        ensures
            final(self).data@ == old(self).data@.update(idx as int, None),
            Some(e) == old(self).data@[idx as int],
            final(self).size == old(self).size - 1,
            final(self).delete_range_cache == old(self).delete_range_cache,
    {
        let e = self.data[idx].take();
        self.size = self.size - 1;
        e.unwrap()
    }

    /// Puts `node` into cell `idx` and returns what the cell held.
    pub fn place(&mut self, idx: usize, node: Entry<K, V>) -> (old_node: Option<Entry<K, V>>)
        requires
            idx < old(self).data@.len(),
            old(self).data@[idx as int] is None ==> old(self).size < usize::MAX,
        ensures
            final(self).data@ == old(self).data@.update(idx as int, Some(node)),
            old_node == old(self).data@[idx as int],
            final(self).size == if old_node is None { old(self).size + 1 } else { old(self).size as int },
            final(self).delete_range_cache == old(self).delete_range_cache,
    {
        let old_node = self.data[idx].take();
        if old_node.is_none() {
            self.size = self.size + 1;
        }
        self.data.set(idx, Some(node));
        old_node
    }

    /// Moves the entry of cell `src` into cell `dst`.
    pub fn move_from_to(&mut self, src: usize, dst: usize)
        requires
            present(old(self).data@, src as int),
            dst < old(self).data@.len(),
        ensures
            final(self).data@ == old(self).data@.update(src as int, None).update(
                dst as int,
                old(self).data@[src as int],
            ),
            final(self).size == old(self).size,
            final(self).delete_range_cache == old(self).delete_range_cache,
    {
        let x = self.data[src].take();
        self.data.set(dst, x);
    }

    /// Empties cell `idx` and feeds its entry into `sink`.
    pub fn move_to<S: Sink<(K, V)>>(&mut self, idx: usize, sink: &mut S)
        requires
            present(old(self).data@, idx as int),
            old(self).size > 0,
        ensures
            old(sink).faithful() ==> final(sink).faithful(),
            final(self).data@ == old(self).data@.update(idx as int, None),
            final(sink).consumed() == old(sink).consumed().push(old(self).data@[idx as int].unwrap().item),
            final(self).size == old(self).size - 1,
            final(self).delete_range_cache == old(self).delete_range_cache,
    {
        let node = self.take(idx);
        sink.consume(node.into_tuple());
    }
}

impl<K: Key, V: Copy> TreeRepr<K, V> {
    /// Copies the cells and the size of `master`, a tree with as many cells, into this tree.
    pub fn refill(&mut self, master: &Self)
        requires
            old(self).wf(),
            master.wf(),
            old(self).data@.len() == master.data@.len(),
        ensures
            final(self).wf(),
            final(self).data@ == master.data@,
            final(self).size == master.size,
            final(self)@ == master@,
    {
        let n = self.data.len();
        let mut i: usize = 0;
        while i < n
            invariant
                self.data@.len() == n,
                n == master.data@.len(),
                i <= n,
                forall|j: int| 0 <= j < i ==> self.data@[j] == master.data@[j],
                self.delete_range_cache == old(self).delete_range_cache,
            decreases n - i,
        {
            let cell: Option<Entry<K, V>> = match &master.data[i] {
                Some(e) => Some(Entry { item: (e.item.0, e.item.1) }),
                None => None,
            };
            self.data.set(i, cell);
            i = i + 1;
        }
        assert(self.data@ =~= master.data@);
        self.size = master.size;
    }
}

impl<K: Key, V: Copy> Clone for TreeRepr<K, V> {
    /// A copy of the tree with the same cells.
    fn clone(&self) -> (r: Self)
        ensures
            r.data@ == self.data@,
            r.size == self.size,
            r.delete_range_cache.idle(),
            r@ == self@,
            self.wf() ==> r.wf(),
    {
        let n = self.data.len();
        let mut data: Vec<Option<Entry<K, V>>> = Vec::with_capacity(n);
        let mut i: usize = 0;
        while i < n
            invariant
                n == self.data@.len(),
                i <= n,
                data@.len() == i,
                forall|j: int| 0 <= j < i ==> data@[j] == self.data@[j],
            decreases n - i,
        {
            let cell: Option<Entry<K, V>> = match &self.data[i] {
                Some(e) => Some(Entry { item: (e.item.0, e.item.1) }),
                None => None,
            };
            data.push(cell);
            i = i + 1;
        }
        assert(data@ =~= self.data@);
        TreeRepr {
            data: data,
            size: self.size,
            delete_range_cache: DeleteRangeCache::new(self.delete_range_cache.slots_min.capacity),
        }
    }
}

} // verus!
