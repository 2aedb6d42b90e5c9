use vstd::prelude::*;

use crate::tree_repr::{depth, depth_of};

verus! {

/// The sequence A025480 of the OEIS: `a(2n) = n`, `a(2n+1) = a(n)`.
pub open spec fn a025480_spec(k: nat) -> nat
    decreases k,
{
    if k % 2 == 0 {
        k / 2
    } else {
        a025480_spec(k / 2)
    }
}

/// Two to the power `e`.
pub open spec fn p2(e: nat) -> nat
    decreases e,
{
    if e == 0 {
        1
    } else {
        2 * p2((e - 1) as nat)
    }
}

/// `n` is a power of two.
pub open spec fn is_p2(n: nat) -> bool
    decreases n,
{
    if n == 1 {
        true
    } else if n >= 2 && n % 2 == 0 {
        is_p2(n / 2)
    } else {
        false
    }
}

/// The cell of the `i`-th entry, in order, of a complete tree of `n` cells.
pub open spec fn inorder_cell(n: nat, i: nat) -> int {
    a025480_spec(n + 1 + i) - 1
}

/// The cell of the in-order position `offs + s` of a complete tree of `n` cells.
pub open spec fn cell_after(n: nat, offs: int, s: int) -> int {
    inorder_cell(n, (offs + s) as nat)
}

/// `a(k)` is zero only when `k + 1` is a power of two.
pub proof fn lemma_a025480_zero(k: nat)
    ensures
        a025480_spec(k) == 0 ==> is_p2(k + 1),
    decreases k,
{
    if k % 2 == 1 {
        lemma_a025480_zero(k / 2);
        assert((k + 1) / 2 == k / 2 + 1);
    }
}

/// No power of two lies strictly between two consecutive powers of two.
pub proof fn lemma_p2_gap(h: nat, n: nat)
    requires
        p2(h) < n < p2(h + 1),
    ensures
        !is_p2(n),
    decreases h,
{
    if is_p2(n) {
        if h == 0 {
            assert(p2(1) == 2);
        } else {
            assert(n % 2 == 0);
            assert(p2(h) == 2 * p2((h - 1) as nat));
            lemma_p2_gap((h - 1) as nat, n / 2);
        }
    }
}

/// Between two consecutive powers of two the sequence is positive.
pub proof fn lemma_a025480_pos(h: nat, k: nat)
    requires
        p2(h) <= k,
        k + 2 <= p2(h + 1),
    ensures
        a025480_spec(k) >= 1,
{
    lemma_a025480_zero(k);
    if k + 1 > p2(h) {
        lemma_p2_gap(h, k + 1);
    } else {
        assert(false);
    }
}

/// The depth of a cell is the exponent of the largest power of two not above its number
/// plus one.
pub proof fn lemma_depth_p2(i: int)
    requires
        0 <= i,
    ensures
        p2(depth(i) as nat) <= i + 1 < p2((depth(i) + 1) as nat),
        depth(i) >= 0,
    decreases i,
{
    if i > 0 {
        lemma_depth_p2((i - 1) / 2);
    }
}

/// A025480 of `k`: `k` with its trailing one bits and one more bit shifted out.
pub fn a025480(k: usize) -> (r: usize)
    requires
        k < usize::MAX,
    ensures
        r == a025480_spec(k as nat),
{
    let mut x = k;
    while x % 2 == 1
        invariant
            a025480_spec(x as nat) == a025480_spec(k as nat),
        decreases x,
    {
        x = x / 2;
    }
    x / 2
}

/// The cell of the `inorder`-th entry, in order, of a complete tree of `complete_tree_n`
/// cells.
pub fn inorder_to_idx_n(inorder: usize, complete_tree_n: usize) -> (r: usize)
    requires
        inorder < complete_tree_n,
        complete_tree_n + 1 + inorder < usize::MAX,
        a025480_spec((complete_tree_n + 1 + inorder) as nat) >= 1,
    ensures
        r == inorder_cell(complete_tree_n as nat, inorder as nat),
{
    let offs = complete_tree_n + 1;
    a025480(offs + inorder) - 1
}

/// For a complete tree of height `h`, every in-order position has a cell.
pub proof fn lemma_inorder_cell_pos(h: nat, i: nat)
    requires
        i + 1 < p2(h),
    ensures
        a025480_spec((p2(h) - 1 + 1 + i) as nat) >= 1,
{
    assert(p2(h + 1) == 2 * p2(h));
    lemma_a025480_pos(h, (p2(h) + i) as nat);
}

/// Computes `2^e - 1`.
fn complete_count_of(e: usize) -> (c: usize)
    requires
        p2(e as nat) <= usize::MAX,
    ensures
        c == p2(e as nat) - 1,
{
    let mut pw: usize = 1;
    let mut k: usize = 0;
    while k < e
        invariant
            k <= e,
            pw == p2(k as nat),
            p2(e as nat) <= usize::MAX,
        decreases e - k,
    {
        proof {
            lemma_p2_mono((k + 1) as nat, e as nat);
        }
        pw = pw * 2;
        k = k + 1;
    }
    proof {
        lemma_p2_mono(e as nat, e as nat);
    }
    pw - 1
}

/// Powers of two grow with the exponent.
pub proof fn lemma_p2_mono(a: nat, b: nat)
    requires
        a <= b,
    ensures
        p2(a) <= p2(b),
        p2(a) >= 1,
    decreases b,
{
    if a < b {
        lemma_p2_mono(a, (b - 1) as nat);
    } else if a > 0 {
        lemma_p2_mono((a - 1) as nat, (a - 1) as nat);
    }
}

/// The height of the complete tree that holds `count` cells.
fn height_for(count: usize) -> (h: usize)
    requires
        count <= usize::MAX / 4,
    ensures
        count == 0 ==> h == 0,
        count > 0 ==> h == depth(count - 1) + 1,
        count + 1 <= p2(h as nat) <= 2 * count + 1,
{
    if count == 0 {
        0
    } else {
        proof {
            lemma_depth_p2(count - 1);
        }
        depth_of(count - 1) + 1
    }
}

/// Hands out the cells of a complete tree that hold `count` entries, compacted at its
/// bottom right, in the order that rebuilding a subtree fills them.
pub struct RebuildIter {
    pub end: usize,
    pub start: usize,
    pub height: usize,
    pub complete_count: usize,
}

impl RebuildIter {
    pub open spec fn wf(&self) -> bool {
        &&& self.complete_count == p2(self.height as nat) - 1
        &&& self.start <= self.end <= self.complete_count
        &&& 2 * self.complete_count + 2 < usize::MAX
    }

    pub fn new(count: usize) -> (it: Self)
        requires
            count <= usize::MAX / 4,
        ensures
            it.wf(),
            it.start == 0,
            it.end == count,
            count == 0 ==> it.height == 0,
            count > 0 ==> it.height == depth(count - 1) + 1,
    {
        let height = height_for(count);
        let complete_count = complete_count_of(height);
        RebuildIter { start: 0, end: count, height: height, complete_count: complete_count }
    }

    /// The next cell from the front.
    pub fn next(&mut self) -> (r: Option<usize>)
        requires
            old(self).wf(),
        ensures
            final(self).wf(),
            final(self).start == old(self).start,
            final(self).height == old(self).height,
            final(self).complete_count == old(self).complete_count,
            old(self).start == old(self).end ==> r is None && final(self).end == old(self).end,
            old(self).start < old(self).end ==> final(self).end == old(self).end - 1 && r == Some(
                (a025480_spec((2 * old(self).complete_count + 1 - old(self).end) as nat) - 1) as usize,
            ),
    {
        if self.start == self.end {
            None
        } else {
            proof {
                assert(p2((self.height + 1) as nat) == 2 * p2(self.height as nat));
                lemma_a025480_pos(self.height as nat, (2 * self.complete_count + 1 - self.end) as nat);
            }
            let dst_idx = a025480(2 * self.complete_count + 1 - self.end) - 1;
            self.end = self.end - 1;
            Some(dst_idx)
        }
    }

    /// The next cell from the back.
    pub fn next_back(&mut self) -> (r: Option<usize>)
        requires
            old(self).wf(),
        ensures
            final(self).wf(),
            final(self).end == old(self).end,
            final(self).height == old(self).height,
            final(self).complete_count == old(self).complete_count,
            old(self).start == old(self).end ==> r is None && final(self).start == old(self).start,
            old(self).start < old(self).end ==> final(self).start == old(self).start + 1 && r == Some(
                (a025480_spec((2 * old(self).complete_count + 1 - (old(self).start + 1)) as nat) - 1) as usize,
            ),
    {
        if self.start == self.end {
            None
        } else {
            self.start = self.start + 1;
            proof {
                assert(p2((self.height + 1) as nat) == 2 * p2(self.height as nat));
                lemma_a025480_pos(self.height as nat, (2 * self.complete_count + 1 - self.start) as nat);
            }
            let dst_idx = a025480(2 * self.complete_count + 1 - self.start) - 1;
            Some(dst_idx)
        }
    }

    /// The number of cells left.
    pub fn len(&self) -> (n: usize)
        requires
            self.wf(),
        ensures
            n == self.end - self.start,
    {
        self.end - self.start
    }
}

/// The number of in-order positions below `j` of a complete tree of `n` cells whose cells lie
/// below `count`.
pub open spec fn hits(n: nat, count: nat, j: nat) -> nat
    decreases j,
{
    if j == 0 {
        0
    } else {
        hits(n, count, (j - 1) as nat) + if inorder_cell(n, (j - 1) as nat) < count {
            1nat
        } else {
            0nat
        }
    }
}

/// The number of even in-order positions below `j` of a complete tree of height `h` whose
/// cells (on the bottom level) lie below `count`.
pub open spec fn leaf_hits(h: nat, count: nat, j: nat) -> nat
    decreases j,
{
    if j == 0 {
        0
    } else {
        leaf_hits(h, count, (j - 1) as nat) + if (j - 1) % 2 == 0 && p2((h - 1) as nat) + (j - 1) / 2 <= count {
            1nat
        } else {
            0nat
        }
    }
}

/// In a complete tree of height `h`, the even in-order positions hold the bottom level from
/// left to right, and the odd ones hold the tree of height `h - 1`.
pub proof fn lemma_inorder_cell_step(h: nat, i: nat)
    requires
        h >= 1,
    ensures
        i % 2 == 0 ==> inorder_cell((p2(h) - 1) as nat, i) == p2((h - 1) as nat) + i / 2 - 1,
        i % 2 == 1 ==> inorder_cell((p2(h) - 1) as nat, i) == inorder_cell(
            (p2((h - 1) as nat) - 1) as nat,
            ((i - 1) / 2) as nat,
        ),
{
    let q = p2((h - 1) as nat);
    assert(p2(h) == 2 * q);
    lemma_p2_mono(0, (h - 1) as nat);
    let k = (2 * q + i) as nat;
    assert((p2(h) - 1) as nat + 1 + i == k);
    assert((q - 1) as nat + 1 + (i - 1) / 2 == q + (i - 1) / 2);
    if i % 2 == 0 {
        assert(k % 2 == 0);
        assert(k / 2 == q + i / 2);
    } else {
        assert(k % 2 == 1);
        assert(k / 2 == q + (i - 1) / 2);
    }
}

/// The even positions below `j` whose bottom-level cells lie below `count`.
pub proof fn lemma_leaf_hits(h: nat, count: nat, j: nat)
    requires
        h >= 1,
    ensures
        leaf_hits(h, count, j) == if count + 1 >= p2((h - 1) as nat) {
            if (j + 1) / 2 <= count + 1 - p2((h - 1) as nat) {
                (j + 1) / 2
            } else {
                (count + 1 - p2((h - 1) as nat)) as nat
            }
        } else {
            0nat
        },
    decreases j,
{
    if j > 0 {
        lemma_leaf_hits(h, count, (j - 1) as nat);
    }
}

/// Counting the positions of a tree of height `h` splits into its bottom level and the tree
/// of height `h - 1`.
pub proof fn lemma_hits_split(h: nat, count: nat, j: nat)
    requires
        h >= 1,
    ensures
        hits((p2(h) - 1) as nat, count, j) == leaf_hits(h, count, j) + hits(
            (p2((h - 1) as nat) - 1) as nat,
            count,
            j / 2,
        ),
    decreases j,
{
    if j > 0 {
        let i = (j - 1) as nat;
        lemma_hits_split(h, count, i);
        lemma_inorder_cell_step(h, i);
        if i % 2 == 1 {
            assert(j / 2 == (i - 1) / 2 + 1);
        } else {
            assert(j / 2 == i / 2);
        }
    }
}

/// Of all the positions of a complete tree of height `h`, as many have a cell below `count`
/// as there are such cells.
pub proof fn lemma_hits_all(h: nat, count: nat)
    ensures
        hits((p2(h) - 1) as nat, count, (p2(h) - 1) as nat) == if count <= p2(h) - 1 {
            count
        } else {
            (p2(h) - 1) as nat
        },
    decreases h,
{
    lemma_p2_mono(0, h);
    if h == 0 {
        assert(p2(0) == 1);
    } else {
        let q = p2((h - 1) as nat);
        assert(p2(h) == 2 * q);
        lemma_hits_all((h - 1) as nat, count);
        lemma_hits_split(h, count, (p2(h) - 1) as nat);
        lemma_leaf_hits(h, count, (p2(h) - 1) as nat);
        assert((p2(h) - 1) as nat / 2 == q - 1);
        assert(((p2(h) - 1) as nat + 1) / 2 == q);
    }
}

/// Hands out, in order, the cells of the complete tree of height `height` that lie below
/// `count`: the cells that a nearly complete tree of `count` entries occupies.
pub struct BuildIter {
    pub count: usize,
    pub complete_count: usize,
    pub skipped: usize,
    pub src_offs: usize,
}

impl BuildIter {
    pub open spec fn wf(&self) -> bool {
        &&& self.src_offs <= self.count <= self.complete_count
        &&& self.src_offs + self.skipped <= self.complete_count
        &&& exists|h: nat| self.complete_count == p2(h) - 1
        &&& 2 * self.complete_count + 2 < usize::MAX
        &&& self.src_offs == hits(
            self.complete_count as nat,
            self.count as nat,
            (self.src_offs + self.skipped) as nat,
        )
    }

    pub fn new(count: usize) -> (it: Self)
        requires
            count <= usize::MAX / 4,
        ensures
            it.wf(),
            it.count == count,
            it.src_offs == 0,
            it.skipped == 0,
            count > 0 ==> it.complete_count == p2((depth(count - 1) + 1) as nat) - 1,
            count == 0 ==> it.complete_count == 0,
    {
        let height = height_for(count);
        let complete_count = complete_count_of(height);
        BuildIter { count: count, complete_count: complete_count, skipped: 0, src_offs: 0 }
    }

    /// The next cell below `count`, in order; in-order positions whose cells lie at or above
    /// `count` are skipped.
    pub fn next(&mut self) -> (r: Option<usize>)
        requires
            old(self).wf(),
        ensures
            final(self).wf(),
            final(self).count == old(self).count,
            final(self).complete_count == old(self).complete_count,
            old(self).src_offs == old(self).count ==> r is None,
            old(self).src_offs < old(self).count ==> r is Some,
            r matches Some(d) ==> {
                &&& d < old(self).count
                &&& final(self).src_offs == old(self).src_offs + 1
                &&& final(self).skipped >= old(self).skipped
                &&& d == inorder_cell(
                    old(self).complete_count as nat,
                    (old(self).src_offs + final(self).skipped) as nat,
                )
                &&& forall|s: int|
                    old(self).skipped <= s < final(self).skipped ==> #[trigger] cell_after(
                        old(self).complete_count as nat,
                        old(self).src_offs as int,
                        s,
                    ) >= old(self).count
            },
    {
        if self.src_offs == self.count {
            return None;
        }
        let ghost skipped0 = self.skipped;
        let ghost h = choose|h: nat| self.complete_count == p2(h) - 1;
        loop
            invariant
                self.wf(),
                self.count == old(self).count,
                self.complete_count == old(self).complete_count,
                self.complete_count == p2(h) - 1,
                self.src_offs == old(self).src_offs,
                self.src_offs < self.count,
                self.skipped >= skipped0,
                skipped0 == old(self).skipped,
                forall|s: int|
                    skipped0 <= s < self.skipped ==> #[trigger] cell_after(
                        self.complete_count as nat,
                        self.src_offs as int,
                        s,
                    ) >= self.count,
            decreases self.complete_count - self.src_offs - self.skipped,
        {
            let inorder = self.src_offs + self.skipped;
            if inorder >= self.complete_count {
                proof {
                    // every position was visited, and as many had a cell below `count` as there
                    // are such cells
                    lemma_hits_all(h, self.count as nat);
                }
                return None;
            }
            proof {
                lemma_inorder_cell_pos(h, inorder as nat);
            }
            let dst_idx = inorder_to_idx_n(inorder, self.complete_count);
            if dst_idx < self.count {
                self.src_offs = self.src_offs + 1;
                return Some(dst_idx);
            }
            self.skipped = self.skipped + 1;
        }
    }
}

} // verus!
