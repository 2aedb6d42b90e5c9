use vstd::prelude::*;

use crate::key::Key;
use crate::node::{Entry, erank};

verus! {

/// Measure for recursion over the cells of an implicit tree.
pub open spec fn cell_measure(len: int, i: int) -> int {
    if 0 <= i < len {
        len - i
    } else {
        0
    }
}

/// Cell `i` holds an entry.
pub open spec fn present<K, V>(s: Seq<Option<Entry<K, V>>>, i: int) -> bool {
    0 <= i < s.len() && s[i] is Some
}

/// The entries of the subtree rooted at cell `i`, in order.  The left child of `i` is
/// `2i+1`, the right child `2i+2`; an empty cell ends its branch.
pub open spec fn inorder<K, V>(s: Seq<Option<Entry<K, V>>>, i: int) -> Seq<Entry<K, V>>
    decreases cell_measure(s.len() as int, i),
{
    if present(s, i) {
        inorder(s, 2 * i + 1) + seq![s[i].unwrap()] + inorder(s, 2 * i + 2)
    } else {
        Seq::empty()
    }
}

/// No cell of the subtree rooted at `i` holds an entry.
pub open spec fn all_none<K, V>(s: Seq<Option<Entry<K, V>>>, i: int) -> bool
    decreases cell_measure(s.len() as int, i),
{
    if 0 <= i < s.len() {
        s[i] is None && all_none(s, 2 * i + 1) && all_none(s, 2 * i + 2)
    } else {
        true
    }
}

/// Below an empty cell of the subtree rooted at `i` there is no entry.
pub open spec fn clean<K, V>(s: Seq<Option<Entry<K, V>>>, i: int) -> bool
    decreases cell_measure(s.len() as int, i),
{
    if 0 <= i < s.len() {
        if s[i] is Some {
            clean(s, 2 * i + 1) && clean(s, 2 * i + 2)
        } else {
            all_none(s, 2 * i + 1) && all_none(s, 2 * i + 2)
        }
    } else {
        true
    }
}

/// Cell `j` lies in the subtree rooted at cell `i`.
pub open spec fn is_desc(j: int, i: int) -> bool
    decreases (if 0 <= i < j { j } else { 0 }),
{
    if i < 0 || j < i {
        false
    } else if j == i {
        true
    } else {
        is_desc((j - 1) / 2, i)
    }
}

/// The entries are sorted by key (equal keys may repeat).
pub open spec fn sorted_entries<K: Key, V>(s: Seq<Entry<K, V>>) -> bool {
    forall|a: int, b: int| 0 <= a <= b < s.len() ==> erank(#[trigger] s[a]) <= erank(#[trigger] s[b])
}

/// Every entry of `s` has a key no greater than every entry of `t`.
pub open spec fn entries_le<K: Key, V>(s: Seq<Entry<K, V>>, t: Seq<Entry<K, V>>) -> bool {
    forall|a: int, b: int| 0 <= a < s.len() && 0 <= b < t.len() ==> erank(#[trigger] s[a]) <= erank(#[trigger] t[b])
}

pub proof fn lemma_desc_of_child(j: int, i: int)
    requires
        i >= 0,
    ensures
        (is_desc(j, 2 * i + 1) || is_desc(j, 2 * i + 2)) ==> is_desc(j, i),
    decreases j,
{
    if is_desc(j, 2 * i + 1) || is_desc(j, 2 * i + 2) {
        if j == 2 * i + 1 || j == 2 * i + 2 {
            assert((j - 1) / 2 == i);
            assert(is_desc(i, i));
        } else {
            lemma_desc_of_child((j - 1) / 2, i);
        }
    }
}

pub proof fn lemma_desc_split(j: int, i: int)
    requires
        i >= 0,
        is_desc(j, i),
        j != i,
    ensures
        is_desc(j, 2 * i + 1) || is_desc(j, 2 * i + 2),
    decreases j,
{
    let p = (j - 1) / 2;
    if p == i {
        assert(j == 2 * i + 1 || j == 2 * i + 2);
    } else {
        lemma_desc_split(p, i);
    }
}

pub proof fn lemma_desc_nested(j: int, a: int, b: int)
    requires
        0 <= a <= b,
        is_desc(j, a),
        is_desc(j, b),
    ensures
        is_desc(b, a),
    decreases j,
{
    if j != b {
        lemma_desc_nested((j - 1) / 2, a, b);
    }
}

pub proof fn lemma_desc_trans(j: int, i: int, c: int)
    requires
        is_desc(j, i),
        is_desc(i, c),
    ensures
        is_desc(j, c),
    decreases j,
{
    if j != i {
        lemma_desc_trans((j - 1) / 2, i, c);
    }
}

pub proof fn lemma_desc_disjoint(j: int, i: int)
    requires
        i >= 0,
    ensures
        !(is_desc(j, 2 * i + 1) && is_desc(j, 2 * i + 2)),
{
    if is_desc(j, 2 * i + 1) && is_desc(j, 2 * i + 2) {
        lemma_desc_nested(j, 2 * i + 1, 2 * i + 2);
        assert((2 * i + 2 - 1) / 2 == i);
        assert(!is_desc(i, 2 * i + 1));
    }
}

/// Facts about the two children of `i` used by most proofs.
pub proof fn lemma_children(i: int)
    requires
        i >= 0,
    ensures
        forall|j: int| #[trigger] is_desc(j, 2 * i + 1) ==> is_desc(j, i) && !is_desc(j, 2 * i + 2),
        forall|j: int| #[trigger] is_desc(j, 2 * i + 2) ==> is_desc(j, i) && !is_desc(j, 2 * i + 1),
        forall|j: int| #[trigger] is_desc(j, i) && j != i ==> is_desc(j, 2 * i + 1) || is_desc(j, 2 * i + 2),
        !is_desc(i, 2 * i + 1),
        !is_desc(i, 2 * i + 2),
{
    assert forall|j: int| #[trigger] is_desc(j, 2 * i + 1) implies is_desc(j, i) && !is_desc(j, 2 * i + 2) by {
        lemma_desc_of_child(j, i);
        lemma_desc_disjoint(j, i);
    }
    assert forall|j: int| #[trigger] is_desc(j, 2 * i + 2) implies is_desc(j, i) && !is_desc(j, 2 * i + 1) by {
        lemma_desc_of_child(j, i);
        lemma_desc_disjoint(j, i);
    }
    assert forall|j: int| #[trigger] is_desc(j, i) && j != i implies is_desc(j, 2 * i + 1) || is_desc(j, 2 * i + 2) by {
        lemma_desc_split(j, i);
    }
}

/// The subtree at `i` depends only on the cells of that subtree.
pub proof fn lemma_frame<K, V>(s1: Seq<Option<Entry<K, V>>>, s2: Seq<Option<Entry<K, V>>>, i: int)
    requires
        s1.len() == s2.len(),
        forall|j: int| 0 <= j < s1.len() && #[trigger] is_desc(j, i) ==> s1[j] == s2[j],
    ensures
        inorder(s1, i) == inorder(s2, i),
        clean(s1, i) == clean(s2, i),
        all_none(s1, i) == all_none(s2, i),
    decreases cell_measure(s1.len() as int, i),
{
    if 0 <= i < s1.len() {
        assert(is_desc(i, i));
        lemma_children(i);
        lemma_frame(s1, s2, 2 * i + 1);
        lemma_frame(s1, s2, 2 * i + 2);
    }
}

/// An empty subtree has no entries and is clean.
pub proof fn lemma_all_none<K, V>(s: Seq<Option<Entry<K, V>>>, i: int)
    requires
        all_none(s, i),
    ensures
        inorder(s, i) == Seq::<Entry<K, V>>::empty(),
        clean(s, i),
    decreases cell_measure(s.len() as int, i),
{
    if 0 <= i < s.len() {
        lemma_all_none(s, 2 * i + 1);
        lemma_all_none(s, 2 * i + 2);
    }
}

/// A clean subtree without entries is empty.
pub proof fn lemma_clean_empty<K, V>(s: Seq<Option<Entry<K, V>>>, i: int)
    requires
        clean(s, i),
        inorder(s, i).len() == 0,
    ensures
        all_none(s, i),
{
    if 0 <= i < s.len() {
        if s[i] is Some {
            assert(inorder(s, i).len() > 0);
        }
    }
}

/// A sorted subtree splits into a sorted left part, the root and a sorted right part.
pub proof fn lemma_sorted_split<K: Key, V>(s: Seq<Option<Entry<K, V>>>, i: int)
    requires
        present(s, i),
        sorted_entries(inorder(s, i)),
    ensures
        inorder(s, i) == inorder(s, 2 * i + 1) + seq![s[i].unwrap()] + inorder(s, 2 * i + 2),
        sorted_entries(inorder(s, 2 * i + 1)),
        sorted_entries(inorder(s, 2 * i + 2)),
        forall|a: int| 0 <= a < inorder(s, 2 * i + 1).len()
            ==> erank(#[trigger] inorder(s, 2 * i + 1)[a]) <= erank(s[i].unwrap()),
        forall|b: int| 0 <= b < inorder(s, 2 * i + 2).len()
            ==> erank(s[i].unwrap()) <= erank(#[trigger] inorder(s, 2 * i + 2)[b]),
{
    let l = inorder(s, 2 * i + 1);
    let r = inorder(s, 2 * i + 2);
    let all = inorder(s, i);
    assert(all == l + seq![s[i].unwrap()] + r);
    assert forall|a: int, b: int| 0 <= a <= b < l.len() implies erank(#[trigger] l[a]) <= erank(#[trigger] l[b]) by {
        assert(l[a] == all[a]);
        assert(l[b] == all[b]);
    }
    assert forall|a: int, b: int| 0 <= a <= b < r.len() implies erank(#[trigger] r[a]) <= erank(#[trigger] r[b]) by {
        assert(r[a] == all[l.len() + 1 + a]);
        assert(r[b] == all[l.len() + 1 + b]);
    }
    assert forall|a: int| 0 <= a < l.len() implies erank(#[trigger] l[a]) <= erank(s[i].unwrap()) by {
        assert(l[a] == all[a]);
        assert(all[l.len() as int] == s[i].unwrap());
    }
    assert forall|b: int| 0 <= b < r.len() implies erank(s[i].unwrap()) <= erank(#[trigger] r[b]) by {
        assert(r[b] == all[l.len() + 1 + b]);
        assert(all[l.len() as int] == s[i].unwrap());
    }
}


/// Measure for recursion along the path from `r` down to its descendant `i`.
pub open spec fn path_measure(r: int, i: int) -> int {
    if 0 <= r <= i {
        i - r
    } else {
        0
    }
}

/// The entries that precede the subtree of `i` within the subtree of its ancestor `r`.
pub open spec fn prefix<K, V>(s: Seq<Option<Entry<K, V>>>, r: int, i: int) -> Seq<Entry<K, V>>
    decreases path_measure(r, i),
{
    if 0 <= r < i {
        if is_desc(i, 2 * r + 1) {
            prefix(s, 2 * r + 1, i)
        } else {
            inorder(s, 2 * r + 1) + seq![s[r].unwrap()] + prefix(s, 2 * r + 2, i)
        }
    } else {
        Seq::empty()
    }
}

/// The entries that follow the subtree of `i` within the subtree of its ancestor `r`.
pub open spec fn suffix<K, V>(s: Seq<Option<Entry<K, V>>>, r: int, i: int) -> Seq<Entry<K, V>>
    decreases path_measure(r, i),
{
    if 0 <= r < i {
        if is_desc(i, 2 * r + 1) {
            suffix(s, 2 * r + 1, i) + seq![s[r].unwrap()] + inorder(s, 2 * r + 2)
        } else {
            suffix(s, 2 * r + 2, i)
        }
    } else {
        Seq::empty()
    }
}

/// Every cell on the path from `r` down to (but excluding) `i` holds an entry.
pub open spec fn path_present<K, V>(s: Seq<Option<Entry<K, V>>>, r: int, i: int) -> bool {
    forall|j: int| #[trigger] is_desc(j, r) && is_desc(i, j) && j != i ==> present(s, j)
}

/// `s1` and `s2` agree on every cell outside the subtree of `i`.
pub open spec fn same_outside<K, V>(s1: Seq<Option<Entry<K, V>>>, s2: Seq<Option<Entry<K, V>>>, i: int) -> bool {
    &&& s1.len() == s2.len()
    &&& forall|j: int| 0 <= j < s1.len() && !#[trigger] is_desc(j, i) ==> s1[j] == s2[j]
}

/// A cell below `r` on the way to `i` is a child of the next cell on the path.
pub proof fn lemma_path_step(i: int, r: int)
    requires
        0 <= r < i,
        is_desc(i, r),
    ensures
        is_desc(i, 2 * r + 1) || is_desc(i, 2 * r + 2),
        is_desc(i, 2 * r + 1) ==> !is_desc(i, 2 * r + 2),
{
    lemma_desc_split(i, r);
    lemma_desc_disjoint(i, r);
}

/// The subtree of `r` is the prefix, the subtree of `i`, and the suffix.
pub proof fn lemma_decompose<K, V>(s: Seq<Option<Entry<K, V>>>, r: int, i: int)
    requires
        0 <= r,
        is_desc(i, r),
        path_present(s, r, i),
    ensures
        inorder(s, r) == prefix(s, r, i) + inorder(s, i) + suffix(s, r, i),
    decreases path_measure(r, i),
{
    if r < i {
        assert(is_desc(r, r));
        assert(present(s, r));
        lemma_path_step(i, r);
        let c = if is_desc(i, 2 * r + 1) { 2 * r + 1 } else { 2 * r + 2 };
        lemma_children(r);
        assert forall|j: int| #[trigger] is_desc(j, c) && is_desc(i, j) && j != i implies present(s, j) by {
            assert(is_desc(j, r));
        }
        lemma_decompose(s, c, i);
        assert(inorder(s, r) == inorder(s, 2 * r + 1) + seq![s[r].unwrap()] + inorder(s, 2 * r + 2));
    } else {
        assert(prefix(s, r, i) == Seq::<Entry<K, V>>::empty());
        assert(suffix(s, r, i) == Seq::<Entry<K, V>>::empty());
    }
}

/// Prefix, suffix and the presence of the path depend only on the cells outside the subtree of `i`.
pub proof fn lemma_outside<K, V>(s1: Seq<Option<Entry<K, V>>>, s2: Seq<Option<Entry<K, V>>>, r: int, i: int)
    requires
        0 <= r,
        is_desc(i, r),
        i < s1.len(),
        same_outside(s1, s2, i),
    ensures
        prefix(s1, r, i) == prefix(s2, r, i),
        suffix(s1, r, i) == suffix(s2, r, i),
        path_present(s1, r, i) == path_present(s2, r, i),
    decreases path_measure(r, i),
{
    if r < i {
        lemma_path_step(i, r);
        let c = if is_desc(i, 2 * r + 1) { 2 * r + 1 } else { 2 * r + 2 };
        let o = if is_desc(i, 2 * r + 1) { 2 * r + 2 } else { 2 * r + 1 };
        lemma_children(r);
        lemma_outside(s1, s2, c, i);
        assert(!is_desc(r, i));
        assert(s1[r] == s2[r]);
        // the sibling subtree does not meet the subtree of i
        assert forall|j: int| 0 <= j < s1.len() && #[trigger] is_desc(j, o) implies s1[j] == s2[j] by {
            if is_desc(j, i) {
                lemma_desc_trans(j, i, c);
            }
        }
        lemma_frame(s1, s2, o);
        assert forall|j: int| #[trigger] is_desc(j, r) && is_desc(i, j) && j != i implies present(s1, j) == present(s2, j) by {
            if is_desc(j, i) {
                lemma_desc_nested(j, j, i);
                assert(j >= i);
            }
        }
    }
}

/// Moving one step down the path extends the prefix and the suffix.
pub proof fn lemma_path_extend<K, V>(s: Seq<Option<Entry<K, V>>>, r: int, i: int)
    requires
        0 <= r,
        is_desc(i, r),
    ensures
        prefix(s, r, 2 * i + 1) == prefix(s, r, i),
        suffix(s, r, 2 * i + 1) == seq![s[i].unwrap()] + inorder(s, 2 * i + 2) + suffix(s, r, i),
        prefix(s, r, 2 * i + 2) == prefix(s, r, i) + inorder(s, 2 * i + 1) + seq![s[i].unwrap()],
        suffix(s, r, 2 * i + 2) == suffix(s, r, i),
        is_desc(2 * i + 1, r),
        is_desc(2 * i + 2, r),
    decreases path_measure(r, i),
{
    let l = 2 * i + 1;
    let rr = 2 * i + 2;
    assert(l > i && rr > i);
    assert((l - 1) / 2 == i && (rr - 1) / 2 == i);
    assert(is_desc(i, i));
    assert(is_desc(l, i) && is_desc(rr, i));
    lemma_desc_nested(l, r, i);
    lemma_desc_nested(rr, r, i);
    if r == i {
        assert(is_desc(l, 2 * r + 1));
        lemma_children(r);
        assert(prefix(s, r, l) == prefix(s, 2 * r + 1, l));
        assert(prefix(s, 2 * r + 1, l) == Seq::<Entry<K, V>>::empty());
        assert(suffix(s, 2 * r + 1, l) == Seq::<Entry<K, V>>::empty());
        assert(prefix(s, 2 * r + 2, rr) == Seq::<Entry<K, V>>::empty());
        assert(suffix(s, 2 * r + 2, rr) == Seq::<Entry<K, V>>::empty());
        assert(seq![s[i].unwrap()] + inorder(s, 2 * i + 2) + Seq::<Entry<K, V>>::empty()
            == seq![s[i].unwrap()] + inorder(s, 2 * i + 2));
        assert(Seq::<Entry<K, V>>::empty() + inorder(s, 2 * i + 1) + seq![s[i].unwrap()]
            == inorder(s, 2 * i + 1) + seq![s[i].unwrap()]);
    } else {
        lemma_path_step(i, r);
        let c = if is_desc(i, 2 * r + 1) { 2 * r + 1 } else { 2 * r + 2 };
        lemma_children(r);
        lemma_desc_nested(l, c, i);
        lemma_desc_nested(rr, c, i);
        assert(is_desc(l, c) && is_desc(rr, c)) by {
            lemma_desc_nested(i, c, c);
        }
        lemma_path_extend(s, c, i);
        if c == 2 * r + 1 {
            assert(is_desc(l, 2 * r + 1));
            assert(is_desc(rr, 2 * r + 1));
        } else {
            assert(!is_desc(l, 2 * r + 1));
            assert(!is_desc(rr, 2 * r + 1));
            assert(prefix(s, r, rr) == inorder(s, 2 * r + 1) + seq![s[r].unwrap()] + prefix(s, 2 * r + 2, rr));
        }
    }
}


/// A sorted sequence stays sorted in each of its parts, and the parts are ordered.
pub proof fn lemma_sorted_parts<K: Key, V>(a: Seq<Entry<K, V>>, b: Seq<Entry<K, V>>, c: Seq<Entry<K, V>>)
    requires
        sorted_entries(a + b + c),
    ensures
        sorted_entries(a),
        sorted_entries(b),
        sorted_entries(c),
        entries_le(a, b),
        entries_le(b, c),
        entries_le(a, c),
{
    let all = a + b + c;
    assert forall|x: int, y: int| 0 <= x <= y < a.len() implies erank(#[trigger] a[x]) <= erank(#[trigger] a[y]) by {
        assert(a[x] == all[x] && a[y] == all[y]);
    }
    assert forall|x: int, y: int| 0 <= x <= y < b.len() implies erank(#[trigger] b[x]) <= erank(#[trigger] b[y]) by {
        assert(b[x] == all[a.len() + x] && b[y] == all[a.len() + y]);
    }
    assert forall|x: int, y: int| 0 <= x <= y < c.len() implies erank(#[trigger] c[x]) <= erank(#[trigger] c[y]) by {
        assert(c[x] == all[a.len() + b.len() + x] && c[y] == all[a.len() + b.len() + y]);
    }
    assert forall|x: int, y: int| 0 <= x < a.len() && 0 <= y < b.len() implies erank(#[trigger] a[x]) <= erank(#[trigger] b[y]) by {
        assert(a[x] == all[x] && b[y] == all[a.len() + y]);
    }
    assert forall|x: int, y: int| 0 <= x < b.len() && 0 <= y < c.len() implies erank(#[trigger] b[x]) <= erank(#[trigger] c[y]) by {
        assert(b[x] == all[a.len() + x] && c[y] == all[a.len() + b.len() + y]);
    }
    assert forall|x: int, y: int| 0 <= x < a.len() && 0 <= y < c.len() implies erank(#[trigger] a[x]) <= erank(#[trigger] c[y]) by {
        assert(a[x] == all[x] && c[y] == all[a.len() + b.len() + y]);
    }
}

/// Three sorted parts in order make a sorted sequence.
pub proof fn lemma_sorted_join<K: Key, V>(a: Seq<Entry<K, V>>, b: Seq<Entry<K, V>>, c: Seq<Entry<K, V>>)
    requires
        sorted_entries(a),
        sorted_entries(b),
        sorted_entries(c),
        entries_le(a, b),
        entries_le(b, c),
        entries_le(a, c),
    ensures
        sorted_entries(a + b + c),
{
    let all = a + b + c;
    assert forall|x: int, y: int| 0 <= x <= y < all.len() implies erank(#[trigger] all[x]) <= erank(#[trigger] all[y]) by {
        if x < a.len() {
            if y < a.len() {
                assert(all[x] == a[x] && all[y] == a[y]);
            } else if y < a.len() + b.len() {
                assert(all[x] == a[x] && all[y] == b[y - a.len()]);
            } else {
                assert(all[x] == a[x] && all[y] == c[y - a.len() - b.len()]);
            }
        } else if x < a.len() + b.len() {
            if y < a.len() + b.len() {
                assert(all[x] == b[x - a.len()] && all[y] == b[y - a.len()]);
            } else {
                assert(all[x] == b[x - a.len()] && all[y] == c[y - a.len() - b.len()]);
            }
        } else {
            assert(all[x] == c[x - a.len() - b.len()] && all[y] == c[y - a.len() - b.len()]);
        }
    }
}

/// Cleanliness is inherited along a present path.
pub proof fn lemma_clean_path<K, V>(s: Seq<Option<Entry<K, V>>>, r: int, i: int)
    requires
        0 <= r,
        is_desc(i, r),
        path_present(s, r, i),
        clean(s, r),
    ensures
        clean(s, i),
    decreases path_measure(r, i),
{
    if r < i {
        assert(is_desc(r, r));
        lemma_path_step(i, r);
        let c = if is_desc(i, 2 * r + 1) { 2 * r + 1 } else { 2 * r + 2 };
        lemma_children(r);
        assert forall|j: int| #[trigger] is_desc(j, c) && is_desc(i, j) && j != i implies present(s, j) by {
            assert(is_desc(j, r));
        }
        lemma_clean_path(s, c, i);
    }
}

/// Replacing the subtree of `i` by a clean one keeps the subtree of `r` clean.
pub proof fn lemma_clean_lift<K, V>(s1: Seq<Option<Entry<K, V>>>, s2: Seq<Option<Entry<K, V>>>, r: int, i: int)
    requires
        0 <= r,
        is_desc(i, r),
        i < s1.len(),
        path_present(s1, r, i),
        clean(s1, r),
        same_outside(s1, s2, i),
        clean(s2, i),
    ensures
        clean(s2, r),
    decreases path_measure(r, i),
{
    if r < i {
        assert(is_desc(r, r));
        assert(present(s1, r));
        assert(!is_desc(r, i));
        assert(s1[r] == s2[r]);
        lemma_path_step(i, r);
        let c = if is_desc(i, 2 * r + 1) { 2 * r + 1 } else { 2 * r + 2 };
        let o = if is_desc(i, 2 * r + 1) { 2 * r + 2 } else { 2 * r + 1 };
        lemma_children(r);
        assert forall|j: int| #[trigger] is_desc(j, c) && is_desc(i, j) && j != i implies present(s1, j) by {
            assert(is_desc(j, r));
        }
        lemma_clean_lift(s1, s2, c, i);
        assert forall|j: int| 0 <= j < s1.len() && #[trigger] is_desc(j, o) implies s1[j] == s2[j] by {
            if is_desc(j, i) {
                lemma_desc_trans(j, i, c);
            }
        }
        lemma_frame(s1, s2, o);
    }
}

/// Replacing the subtree of `i` changes the whole tree by exactly that subtree.
pub proof fn lemma_replace_subtree<K, V>(s1: Seq<Option<Entry<K, V>>>, s2: Seq<Option<Entry<K, V>>>, i: int)
    requires
        0 <= i < s1.len(),
        is_desc(i, 0),
        path_present(s1, 0, i),
        same_outside(s1, s2, i),
    ensures
        inorder(s1, 0) == prefix(s1, 0, i) + inorder(s1, i) + suffix(s1, 0, i),
        inorder(s2, 0) == prefix(s1, 0, i) + inorder(s2, i) + suffix(s1, 0, i),
        prefix(s1, 0, i) == prefix(s2, 0, i),
        suffix(s1, 0, i) == suffix(s2, 0, i),
        path_present(s2, 0, i),
        clean(s1, 0) && clean(s2, i) ==> clean(s2, 0),
        clean(s1, 0) ==> clean(s1, i),
{
    lemma_outside(s1, s2, 0, i);
    lemma_decompose(s1, 0, i);
    lemma_decompose(s2, 0, i);
    if clean(s1, 0) {
        lemma_clean_path(s1, 0, i);
        if clean(s2, i) {
            lemma_clean_lift(s1, s2, 0, i);
        }
    }
}

/// When every cell is empty, every subtree is empty.
pub proof fn lemma_all_cells_none<K, V>(s: Seq<Option<Entry<K, V>>>, i: int)
    requires
        forall|j: int| 0 <= j < s.len() ==> #[trigger] s[j] is None,
    ensures
        all_none(s, i),
    decreases cell_measure(s.len() as int, i),
{
    if 0 <= i < s.len() {
        lemma_all_cells_none(s, 2 * i + 1);
        lemma_all_cells_none(s, 2 * i + 2);
    }
}


/// The path to a present cell extends to its children.
pub proof fn lemma_path_child<K, V>(s: Seq<Option<Entry<K, V>>>, r: int, i: int)
    requires
        0 <= r,
        is_desc(i, r),
        path_present(s, r, i),
        present(s, i),
    ensures
        path_present(s, r, 2 * i + 1),
        path_present(s, r, 2 * i + 2),
{
    assert forall|j: int| #[trigger] is_desc(j, r) && is_desc(2 * i + 1, j) && j != 2 * i + 1 implies present(s, j) by {
        assert((2 * i + 1 - 1) / 2 == i);
        assert(is_desc(i, j));
    }
    assert forall|j: int| #[trigger] is_desc(j, r) && is_desc(2 * i + 2, j) && j != 2 * i + 2 implies present(s, j) by {
        assert((2 * i + 2 - 1) / 2 == i);
        assert(is_desc(i, j));
    }
}

/// The root lies on every path from itself.
pub proof fn lemma_path_root<K, V>(s: Seq<Option<Entry<K, V>>>)
    ensures
        is_desc(0, 0),
        path_present(s, 0, 0),
        prefix(s, 0, 0) == Seq::<Entry<K, V>>::empty(),
        suffix(s, 0, 0) == Seq::<Entry<K, V>>::empty(),
{
}

/// Replacing the subtree of `i` changes the subtree of its ancestor `r` by exactly that
/// subtree.
pub proof fn lemma_replace_at<K, V>(s1: Seq<Option<Entry<K, V>>>, s2: Seq<Option<Entry<K, V>>>, r: int, i: int)
    requires
        0 <= r,
        is_desc(i, r),
        i < s1.len(),
        path_present(s1, r, i),
        same_outside(s1, s2, i),
    ensures
        inorder(s1, r) == prefix(s1, r, i) + inorder(s1, i) + suffix(s1, r, i),
        inorder(s2, r) == prefix(s1, r, i) + inorder(s2, i) + suffix(s1, r, i),
        prefix(s1, r, i) == prefix(s2, r, i),
        suffix(s1, r, i) == suffix(s2, r, i),
        path_present(s2, r, i),
        clean(s1, r) && clean(s2, i) ==> clean(s2, r),
        clean(s1, r) ==> clean(s1, i),
{
    lemma_outside(s1, s2, r, i);
    lemma_decompose(s1, r, i);
    lemma_decompose(s2, r, i);
    if clean(s1, r) {
        lemma_clean_path(s1, r, i);
        if clean(s2, i) {
            lemma_clean_lift(s1, s2, r, i);
        }
    }
}

/// Prefix, suffix and the presence of the path below `r` depend only on the subtree of `r`.
pub proof fn lemma_path_frame<K, V>(s1: Seq<Option<Entry<K, V>>>, s2: Seq<Option<Entry<K, V>>>, r: int, i: int)
    requires
        0 <= r,
        is_desc(i, r),
        i < s1.len(),
        s1.len() == s2.len(),
        forall|j: int| 0 <= j < s1.len() && #[trigger] is_desc(j, r) ==> s1[j] == s2[j],
    ensures
        prefix(s1, r, i) == prefix(s2, r, i),
        suffix(s1, r, i) == suffix(s2, r, i),
        path_present(s1, r, i) == path_present(s2, r, i),
    decreases path_measure(r, i),
{
    if r < i {
        lemma_path_step(i, r);
        let c = if is_desc(i, 2 * r + 1) { 2 * r + 1 } else { 2 * r + 2 };
        let o = if is_desc(i, 2 * r + 1) { 2 * r + 2 } else { 2 * r + 1 };
        lemma_children(r);
        assert(is_desc(r, r));
        lemma_path_frame(s1, s2, c, i);
        lemma_frame(s1, s2, o);
        assert(s1[r] == s2[r]);
        assert forall|j: int| #[trigger] is_desc(j, r) && is_desc(i, j) && j != i implies present(s1, j) == present(s2, j) by {
        }
    }
}

} // verus!
