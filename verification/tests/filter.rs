use std::ops::Range;

use rand::{Rng, SeedableRng, XorShiftRng};

use teardown_tree::external_api::{IntervalTeardownSet, TeardownSet};
use teardown_tree::interval::{IvNode, KeyInterval};
use teardown_tree::interval_tree::IvTree;
use teardown_tree::item_filter::{AcceptingFilter, ItemFilter, NoopFilter};
use teardown_tree::sink::UncheckedVecRefSink;

type Iv = KeyInterval;
type Tree = IvTree<Iv, ()>;

fn bounds(iv: &Iv) -> (usize, usize) {
    (iv.a, iv.b)
}

fn overlaps(x: &Iv, q: &Iv) -> bool {
    (x.a < q.b && q.a < x.b) || x.a == q.a
}

/// Accepts the intervals of a set.
struct SetFilter {
    set: IntervalTeardownSet<Iv>,
}

impl SetFilter {
    fn new(items: Vec<Range<usize>>) -> SetFilter {
        let items: Vec<Iv> = items.into_iter().map(|r| KeyInterval::new(r.start, r.end)).collect();
        SetFilter { set: IntervalTeardownSet::new(items) }
    }
}

impl ItemFilter<Iv> for SetFilter {
    fn accepts(&self, key: Iv) -> bool {
        self.set.contains(&key)
    }

    fn accept(&mut self, key: &Iv) -> bool {
        self.set.contains(key)
    }

    fn declared_noop() -> bool {
        false
    }

    fn is_noop() -> bool {
        false
    }
}

/// Accepts the keys of a set of numbers.
struct NumSetFilter {
    set: TeardownSet<usize>,
}

impl ItemFilter<usize> for NumSetFilter {
    fn accepts(&self, key: usize) -> bool {
        self.set.contains(&key)
    }

    fn accept(&mut self, key: &usize) -> bool {
        self.set.contains(key)
    }

    fn declared_noop() -> bool {
        false
    }

    fn is_noop() -> bool {
        false
    }
}

/// The largest upper bound of the subtree at `idx`, checked against the stored one.
fn check_maxb(tree: &Tree, idx: usize) -> usize {
    let data = &tree.repr.data;
    let node = data[idx].as_ref().unwrap();
    let mut expected = node.item.0.b;
    for c in [2 * idx + 1, 2 * idx + 2] {
        if c < data.len() && data[c].is_some() {
            expected = std::cmp::max(expected, check_maxb(tree, c));
        }
    }
    assert_eq!(expected, tree.maxb[idx], "idx={}", idx);
    expected
}

/// Empty cells have no entries below them.
fn check_clean(tree: &Tree, idx: usize) {
    let data = &tree.repr.data;
    for c in [2 * idx + 1, 2 * idx + 2] {
        if c < data.len() {
            if data[idx].is_none() {
                assert!(data[c].is_none(), "cell {} under an empty cell", c);
            }
            check_clean(tree, c);
        }
    }
}

fn test_shape_delete_overlap<F: ItemFilter<Iv>>(xs: Vec<Range<usize>>, filter: F, rm: Range<usize>) {
    let nodes: Vec<Option<IvNode<Iv, ()>>> = xs
        .iter()
        .map(|r| if r.start <= r.end { Some(IvNode::new(Iv::new(r.start, r.end), ())) } else { None })
        .collect();
    let tree = IntervalTeardownSet::from_internal(Tree::with_nodes(nodes));
    check_filter_overlap(tree, filter, rm);
}

fn check_filter_overlap<F: ItemFilter<Iv>>(mut tree: IntervalTeardownSet<Iv>, mut filter: F, rm: Range<usize>) {
    let orig: Vec<Iv> = tree.iter().into_iter().copied().collect();
    let query = KeyInterval::from_range(&rm);

    let mut expected_out: Vec<(usize, usize)> = Vec::new();
    let mut expected_rest: Vec<(usize, usize)> = Vec::new();
    for iv in orig.iter() {
        if overlaps(iv, &query) && filter.accept(iv) {
            expected_out.push(bounds(iv));
        } else {
            expected_rest.push(bounds(iv));
        }
    }

    let mut output: Vec<Iv> = Vec::with_capacity(tree.size());
    tree.filter_overlap(&query, filter, UncheckedVecRefSink::new(&mut output));

    let out: Vec<(usize, usize)> = output.iter().map(bounds).collect();
    let rest: Vec<(usize, usize)> = tree.iter().into_iter().map(bounds).collect();
    assert_eq!(out, expected_out);
    assert_eq!(rest, expected_rest);
    assert_eq!(out.len() + tree.size(), orig.len());
    check_clean(tree.internal(), 0);
    if tree.size() > 0 {
        check_maxb(tree.internal(), 0);
    }
}

#[test]
fn prebuilt_shape_overlap() {
    test_shape_delete_overlap(vec![1..1, 0..2], NoopFilter, 0..0);
    test_shape_delete_overlap(vec![1..1, 0..0, 2..2], SetFilter::new(vec![2..2, 1..1]), 0..2);
}

#[test]
fn delete_overlap_removes_overlapping() {
    let items: Vec<Iv> = (0..20).map(|x| Iv::new(x, x + 3)).collect();
    let mut tree = IntervalTeardownSet::new(items);
    let mut output: Vec<Iv> = Vec::new();
    tree.delete_overlap(&Iv::new(5, 8), UncheckedVecRefSink::new(&mut output));
    let out: Vec<(usize, usize)> = output.iter().map(bounds).collect();
    assert_eq!(out, vec![(3, 6), (4, 7), (5, 8), (6, 9), (7, 10)]);
    assert_eq!(tree.size(), 15);
    check_clean(tree.internal(), 0);
    check_maxb(tree.internal(), 0);
}

#[test]
fn filter_overlap_many_queries() {
    for k in 0..10 {
        let xs: Vec<Iv> = (0..9).map(|x| Iv::new(x, x + (x * k) % 4)).collect();
        for a in 0..11 {
            for b in a..11 {
                let flt = SetFilter::new(vec![1..2, 3..3, 4..4, 6..9, 8..8]);
                check_filter_overlap(IntervalTeardownSet::new(xs.clone()), flt, a..b);
                check_filter_overlap(IntervalTeardownSet::new(xs.clone()), NoopFilter, a..b);
            }
        }
    }
}

#[test]
fn filter_range_keeps_rejected() {
    let mut tree = TeardownSet::new((1..21).collect());
    let flt = NumSetFilter { set: TeardownSet::new(vec![2, 3, 5, 7, 11, 13, 17, 19]) };
    let mut output: Vec<usize> = Vec::new();
    tree.filter_range(4..15, flt, UncheckedVecRefSink::new(&mut output));
    assert_eq!(output, vec![5, 7, 11, 13]);
    let rest: Vec<usize> = tree.iter().into_iter().copied().collect();
    assert_eq!(rest, vec![1, 2, 3, 4, 6, 8, 9, 10, 12, 14, 15, 16, 17, 18, 19, 20]);
}

#[test]
fn filter_range_full_teardown() {
    // repeatedly filter a tree until the filter has taken what it accepts
    let n: usize = 300;
    let mut tree = TeardownSet::new((0..n).collect());
    let mut taken: Vec<usize> = Vec::new();
    for start in (0..n).step_by(37) {
        let flt = NumSetFilter { set: TeardownSet::new((0..n).filter(|x| x % 3 == 0).collect()) };
        let mut output: Vec<usize> = Vec::new();
        tree.filter_range_ref(&start..&(start + 50), flt, UncheckedVecRefSink::new(&mut output));
        for w in output.windows(2) {
            assert!(w[0] <= w[1]);
        }
        for x in output.iter() {
            assert!(x % 3 == 0 && *x >= start && *x < start + 50);
        }
        taken.extend(output);
    }
    taken.sort();
    let expected: Vec<usize> = (0..n).filter(|x| x % 3 == 0).collect();
    assert_eq!(taken, expected);
    let rest: Vec<usize> = tree.iter().into_iter().copied().collect();
    let expected_rest: Vec<usize> = (0..n).filter(|x| x % 3 != 0).collect();
    assert_eq!(rest, expected_rest);
}

#[test]
fn accepting_filter_takes_the_range() {
    for a in 0..22 {
        for b in a..22 {
            let mut one = TeardownSet::new((0..20).collect());
            let mut two = TeardownSet::new((0..20).collect());
            let mut out1: Vec<usize> = Vec::new();
            let mut out2: Vec<usize> = Vec::new();
            one.filter_range(a..b, AcceptingFilter, UncheckedVecRefSink::new(&mut out1));
            two.delete_range(a..b, UncheckedVecRefSink::new(&mut out2));
            assert_eq!(out1, out2);
            let r1: Vec<usize> = one.iter().into_iter().copied().collect();
            let r2: Vec<usize> = two.iter().into_iter().copied().collect();
            assert_eq!(r1, r2);
        }
    }
}

/// Lays the sorted items out as a binary search tree of random shape.
fn gen_tree_keys(items: &[Iv], rng: &mut XorShiftRng) -> Vec<Option<Iv>> {
    let mut layout: Vec<Option<Iv>> = vec![None];
    place_random(items, 0, &mut layout, rng);
    layout
}

fn place_random(items: &[Iv], idx: usize, layout: &mut Vec<Option<Iv>>, rng: &mut XorShiftRng) {
    if items.is_empty() {
        return;
    }
    while layout.len() <= 2 * idx + 2 {
        let len = layout.len();
        layout.resize(2 * len + 1, None);
    }
    let r = rng.gen_range(0, items.len());
    layout[idx] = Some(items[r]);
    place_random(&items[..r], 2 * idx + 1, layout, rng);
    place_random(&items[r + 1..], 2 * idx + 2, layout, rng);
}

fn normalize_range(r: &Range<usize>) -> Range<usize> {
    std::cmp::min(r.start, r.end)..std::cmp::max(r.start, r.end)
}

fn random_shape(xs: &[Range<usize>], rng: &mut XorShiftRng) -> IntervalTeardownSet<Iv> {
    let mut intervals: Vec<Iv> = xs.iter().map(|r| {
        let r = normalize_range(r);
        Iv::new(r.start, r.end)
    }).collect();
    intervals.sort();
    let nodes: Vec<Option<IvNode<Iv, ()>>> =
        gen_tree_keys(&intervals, rng).into_iter().map(|o| o.map(|iv| IvNode::new(iv, ()))).collect();
    IntervalTeardownSet::from_internal(Tree::with_nodes(nodes))
}

fn test_random_shape_overlap(xs: Vec<Range<usize>>, rm: Range<usize>, rng: &mut XorShiftRng) {
    let rm = normalize_range(&rm);
    let tree = random_shape(&xs, rng);
    check_filter_overlap(tree, NoopFilter, rm);
}

#[test]
fn prebuilt_random_shape_overlap() {
    let rng = &mut XorShiftRng::from_seed([3, 1, 4, 15]);

    test_random_shape_overlap(vec![0..0], 0..0, rng);
    test_random_shape_overlap(vec![0..2, 1..1], 0..0, rng);
    test_random_shape_overlap(vec![0..0, 0..0, 0..1], 0..1, rng);
    test_random_shape_overlap(vec![0..0, 1..1, 2..2], 0..1, rng);

    test_random_shape_overlap(vec![1..1, 0..0, 0..0, 0..0], 0..1, rng);
    test_random_shape_overlap(vec![0..0, 1..1, 0..0, 0..0], 0..1, rng);
    test_random_shape_overlap(vec![0..0, 0..0, 1..1, 0..0], 0..1, rng);
    test_random_shape_overlap(vec![0..0, 0..0, 0..0, 1..1], 0..1, rng);
    test_random_shape_overlap(vec![1..1, 1..1, 1..1, 1..1], 0..1, rng);

    test_random_shape_overlap(vec![0..2, 1..2, 1..1, 1..2], 1..2, rng);
    test_random_shape_overlap(vec![0..2, 0..2, 2..0, 1..2, 0..2, 1..2, 0..2, 0..2, 1..0, 1..2], 1..2, rng);
    test_random_shape_overlap(vec![0..2, 1..1, 0..2, 0..2, 1..2, 1..2, 1..2, 0..2, 1..2, 0..2], 1..2, rng);
}

fn test_random_shape_single(xs: Vec<Range<usize>>, rm: usize, rng: &mut XorShiftRng) {
    let iv = if !xs.is_empty() {
        let r = normalize_range(&xs[rm % xs.len()]);
        Iv::new(r.start, r.end)
    } else {
        Iv::new(0, 1)
    };
    let orig = random_shape(&xs, rng);
    let mut tree = orig.clone();
    let deleted = tree.delete(&iv);
    assert_eq!(deleted, orig.contains(&iv));
    assert!(deleted && tree.size() + 1 == orig.size() || !deleted && tree.size() == orig.size());
    let mut before: Vec<(usize, usize)> = orig.iter().into_iter().map(bounds).collect();
    if deleted {
        let pos = before.iter().position(|&b| b == bounds(&iv)).unwrap();
        before.remove(pos);
    }
    let after: Vec<(usize, usize)> = tree.iter().into_iter().map(bounds).collect();
    assert_eq!(after, before);
    check_clean(tree.internal(), 0);
    if tree.size() > 0 {
        check_maxb(tree.internal(), 0);
    }
}

#[test]
fn prebuilt_random_shape_single() {
    let rng = &mut XorShiftRng::from_seed([3, 1, 4, 15]);

    test_random_shape_single(vec![0..0], 0, rng);
    test_random_shape_single(vec![0..2, 1..1], 0, rng);
    test_random_shape_single(vec![0..0, 0..0, 0..1], 2, rng);
    test_random_shape_single(vec![0..0, 1..1, 2..2], 1, rng);

    test_random_shape_single(vec![1..1, 0..0, 0..0, 0..0], 0, rng);
    test_random_shape_single(vec![1..1, 0..0, 0..0, 0..0], 1, rng);
    test_random_shape_single(vec![1..1, 0..0, 0..0, 0..0], 2, rng);
    test_random_shape_single(vec![1..1, 0..0, 0..0, 0..0], 3, rng);
    test_random_shape_single(vec![1..1, 1..1, 1..1, 1..1], 3, rng);

    test_random_shape_single(vec![0..2, 1..2, 1..1, 1..2], 1, rng);
    test_random_shape_single(vec![0..2, 0..2, 2..0, 1..2, 0..2, 1..2, 0..2, 0..2, 1..0, 1..2], 3, rng);
    test_random_shape_single(vec![0..2, 1..1, 0..2, 0..2, 1..2, 1..2, 1..2, 0..2, 1..2, 0..2], 4, rng);
}
