use std::ops::Range;

use rand::{Rng, SeedableRng, XorShiftRng};
use teardown_tree::external_api::{IntervalTeardownSet, TeardownSet};
use teardown_tree::interval::KeyInterval;
use teardown_tree::item_filter::{ItemFilter, NoopFilter};
use teardown_tree::sink::UncheckedVecRefSink;
use teardown_tree::teardown_seq::{make_teardown_seq, ranges_from_draws};

/// Accepts the numbers of a set.
struct SetRefFilter<'a> {
    set: &'a TeardownSet<usize>,
}

impl<'a> ItemFilter<usize> for SetRefFilter<'a> {
    fn accepts(&self, key: usize) -> bool {
        self.set.contains(&key)
    }

    fn accept(&mut self, key: &usize) -> bool {
        self.set.contains(key)
    }

    fn declared_noop() -> bool {
        false
    }

    fn is_noop() -> bool {
        false
    }
}

/// Accepts the intervals of a set.
struct IvSetRefFilter<'a> {
    set: &'a IntervalTeardownSet<KeyInterval>,
}

impl<'a> ItemFilter<KeyInterval> for IvSetRefFilter<'a> {
    fn accepts(&self, key: KeyInterval) -> bool {
        self.set.contains(&key)
    }

    fn accept(&mut self, key: &KeyInterval) -> bool {
        self.set.contains(key)
    }

    fn declared_noop() -> bool {
        false
    }

    fn is_noop() -> bool {
        false
    }
}

fn delete_and_check(orig: &TeardownSet<usize>, search: Range<usize>, flt_set: &TeardownSet<usize>) -> TeardownSet<usize> {
    let mut tree = orig.clone();
    let mut output: Vec<usize> = Vec::new();
    tree.filter_range(search.clone(), SetRefFilter { set: flt_set }, UncheckedVecRefSink::new(&mut output));
    let before: Vec<usize> = orig.iter().into_iter().copied().collect();
    let selected = |x: usize| ((search.start <= x && x < search.end) || x == search.start) && flt_set.contains(&x);
    let expected: Vec<usize> = before.iter().copied().filter(|&x| selected(x)).collect();
    let rest: Vec<usize> = before.iter().copied().filter(|&x| !selected(x)).collect();
    assert_eq!(output, expected);
    assert_eq!(tree.iter().into_iter().copied().collect::<Vec<usize>>(), rest);
    assert_eq!(tree.size() + output.len(), orig.size());
    tree
}

fn full_teardown_filter_n(n: usize, rm_items: usize, flt_items: usize) {
    assert!(flt_items <= n);
    let mut rng = XorShiftRng::from_seed([96511, 42, 1423, 51984]);
    let elems: Vec<usize> = (0..n).collect();
    let ranges: Vec<Range<usize>> = make_teardown_seq(n, rm_items, &mut rng);
    let mut flt_elems: Vec<usize> = elems.clone();

    for i in 0..(n - flt_items) {
        let pos = rng.gen_range(0, n - flt_items - i);
        flt_elems.swap_remove(pos);
    }

    let mut orig = TeardownSet::new(elems);
    let flt_tree = TeardownSet::new(flt_elems);

    for range in ranges.into_iter() {
        orig = delete_and_check(&orig, range, &flt_tree);
    }
    assert_eq!(orig.size(), n - flt_items);
}

#[test]
fn lib_test_full_teardown_filter() {
    full_teardown_filter_n(3, 2, 2);
    full_teardown_filter_n(3, 2, 3);
    full_teardown_filter_n(3, 2, 2);
    full_teardown_filter_n(4, 2, 3);
    full_teardown_filter_n(4, 3, 2);
    full_teardown_filter_n(4, 3, 3);
    full_teardown_filter_n(5, 2, 0);
    full_teardown_filter_n(5, 2, 2);
    full_teardown_filter_n(5, 2, 5);
    full_teardown_filter_n(6, 3, 2);
    full_teardown_filter_n(8, 3, 5);
    full_teardown_filter_n(10, 3, 0);
    full_teardown_filter_n(10, 3, 5);
    full_teardown_filter_n(10, 3, 10);
    full_teardown_filter_n(15, 3, 12);
    full_teardown_filter_n(259, 3, 0);
    full_teardown_filter_n(259, 3, 123);
    full_teardown_filter_n(259, 3, 259);
    full_teardown_filter_n(1598, 21, 0);
    full_teardown_filter_n(1598, 21, 711);
    full_teardown_filter_n(1598, 21, 1598);
    full_teardown_filter_n(65918, 7347, 1965);
    full_teardown_filter_n(88165, 9664, 1);
    full_teardown_filter_n(196561, 81669, 97689);
    full_teardown_filter_n(756198, 247787, 17);
}

fn iv_bounds(set: &IntervalTeardownSet<KeyInterval>) -> Vec<(usize, usize)> {
    set.iter().into_iter().map(|iv| (iv.a, iv.b)).collect()
}

fn iv_delete_and_check<F: ItemFilter<KeyInterval>>(
    orig: &IntervalTeardownSet<KeyInterval>,
    rm: Range<usize>,
    mut filter: F,
) -> IntervalTeardownSet<KeyInterval> {
    let mut tree = orig.clone();
    let query = KeyInterval::from_range(&rm);
    let before = iv_bounds(orig);
    let mut expected: Vec<(usize, usize)> = Vec::new();
    let mut rest: Vec<(usize, usize)> = Vec::new();
    for &(a, b) in before.iter() {
        let overlaps = (a < rm.end && rm.start < b) || a == rm.start;
        if overlaps && filter.accept(&KeyInterval::new(a, b)) {
            expected.push((a, b));
        } else {
            rest.push((a, b));
        }
    }
    let mut output: Vec<KeyInterval> = Vec::new();
    tree.filter_overlap(&query, filter, UncheckedVecRefSink::new(&mut output));
    let out: Vec<(usize, usize)> = output.iter().map(|iv| (iv.a, iv.b)).collect();
    assert_eq!(out, expected);
    assert_eq!(iv_bounds(&tree), rest);
    tree
}

fn full_teardown_n(n: usize, rm_items: usize) {
    let mut rng = XorShiftRng::from_seed([96511, 42, 1423, 51984]);
    let elems: Vec<KeyInterval> = (0..n).map(|x| KeyInterval::new(x, x)).collect();
    let ranges: Vec<Range<usize>> = make_teardown_seq(n, rm_items, &mut rng);

    let mut orig = IntervalTeardownSet::new(elems);
    for range in ranges.into_iter() {
        orig = iv_delete_and_check(&orig, range, NoopFilter);
    }
    assert!(orig.size() == 0);
}

#[test]
fn test_full_teardown() {
    full_teardown_n(5, 2);
    full_teardown_n(10, 3);
    full_teardown_n(259, 3);
    full_teardown_n(1598, 21);
    full_teardown_n(65918, 7347);
    full_teardown_n(88165, 9664);
    full_teardown_n(196561, 81669);
    full_teardown_n(756198, 247787);
}

fn iv_full_teardown_filter_n(n: usize, rm_items: usize, flt_items: usize) {
    assert!(flt_items <= n);
    let mut rng = XorShiftRng::from_seed([96511, 42, 1423, 51984]);
    let elems: Vec<KeyInterval> = (0..n).map(|x| KeyInterval::new(x, x)).collect();
    let ranges: Vec<Range<usize>> = make_teardown_seq(n, rm_items, &mut rng);
    let mut flt_elems: Vec<KeyInterval> = elems.clone();

    for i in 0..(n - flt_items) {
        let pos = rng.gen_range(0, n - flt_items - i);
        flt_elems.swap_remove(pos);
    }

    let mut orig = IntervalTeardownSet::new(elems);
    let flt_tree = IntervalTeardownSet::new(flt_elems);
    for range in ranges.into_iter() {
        orig = iv_delete_and_check(&orig, range, IvSetRefFilter { set: &flt_tree });
    }
    assert_eq!(orig.size(), n - flt_items);
}

#[test]
fn interval_test_full_teardown_filter() {
    iv_full_teardown_filter_n(3, 2, 2);
    full_teardown_n(3, 2);
    iv_full_teardown_filter_n(3, 2, 3);
    iv_full_teardown_filter_n(5, 2, 0);
    iv_full_teardown_filter_n(5, 2, 2);
    iv_full_teardown_filter_n(5, 2, 5);
    iv_full_teardown_filter_n(10, 3, 0);
    iv_full_teardown_filter_n(10, 3, 5);
    iv_full_teardown_filter_n(10, 3, 10);
    iv_full_teardown_filter_n(259, 3, 0);
    iv_full_teardown_filter_n(259, 3, 123);
    iv_full_teardown_filter_n(259, 3, 259);
    iv_full_teardown_filter_n(1598, 21, 0);
    iv_full_teardown_filter_n(1598, 21, 711);
    iv_full_teardown_filter_n(1598, 21, 1598);
    iv_full_teardown_filter_n(65918, 7347, 1965);
    iv_full_teardown_filter_n(88165, 9664, 1);
    iv_full_teardown_filter_n(196561, 81669, 97689);
    iv_full_teardown_filter_n(756198, 247787, 17);
}

#[test]
fn teardown_seq_covers_every_item_once() {
    let mut rng = XorShiftRng::from_seed([3, 1, 4, 15]);
    for n in 0..60 {
        for rm in 1..8 {
            let ranges = make_teardown_seq(n, rm, &mut rng);
            assert_eq!(ranges.len(), n / rm + if n % rm != 0 { 1 } else { 0 });
            let mut seen = vec![0usize; n];
            for r in ranges.iter() {
                assert_eq!(r.start % rm, 0);
                assert_eq!(r.end, std::cmp::min(r.start + rm, n));
                for x in r.clone() {
                    seen[x] += 1;
                }
            }
            assert!(seen.iter().all(|&c| c == 1));
        }
    }
}

#[test]
fn ranges_from_draws_follows_the_pool() {
    let ranges = ranges_from_draws(10, 3, vec![2, 0, 1, 0]);
    assert_eq!(ranges, vec![6..9, 0..3, 3..6, 9..10]);
    let ranges = ranges_from_draws(5, 2, vec![0, 0, 0]);
    assert_eq!(ranges, vec![0..2, 4..5, 2..4]);
}
