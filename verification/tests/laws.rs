use teardown_tree::external_api::{IntervalTeardownMap, IntervalTeardownSet, TeardownMap, TeardownSet};
use teardown_tree::interval::KeyInterval;
use teardown_tree::item_filter::NoopFilter;
use teardown_tree::sink::{CountingSink, RefCopyingSink, Sink, UncheckedVecRefSink};

fn items(set: &TeardownSet<usize>) -> Vec<usize> {
    set.iter().into_iter().copied().collect()
}

fn mixed() -> Vec<usize> {
    vec![9, 3, 14, 3, 0, 7, 21, 7, 7, 11, 2, 18, 5, 30, 1, 16]
}

#[test]
fn delete_range_partitions_the_items() {
    let mut set = TeardownSet::new(mixed());
    let mut out: Vec<usize> = Vec::new();
    set.delete_range(3..12, UncheckedVecRefSink::new(&mut out));
    assert_eq!(out, vec![3, 3, 5, 7, 7, 7, 9, 11]);
    let rest = items(&set);
    assert_eq!(rest, vec![0, 1, 2, 14, 16, 18, 21, 30]);
    let mut all: Vec<usize> = out.iter().chain(rest.iter()).copied().collect();
    all.sort();
    let mut orig = mixed();
    orig.sort();
    assert_eq!(all, orig);
    assert_eq!(set.size() + out.len(), orig.len());
}

#[test]
fn delete_range_leaves_nothing_in_range() {
    for a in 0..32 {
        for b in a..33 {
            let mut set = TeardownSet::new(mixed());
            let mut out: Vec<usize> = Vec::new();
            set.delete_range(a..b, UncheckedVecRefSink::new(&mut out));
            for x in items(&set) {
                assert!(!(a <= x && x < b) && x != a);
            }
            for x in out.iter() {
                assert!((a <= *x && *x < b) || *x == a);
            }
            for w in out.windows(2) {
                assert!(w[0] <= w[1]);
            }
        }
    }
}

#[test]
fn delete_range_twice_takes_nothing_more() {
    let mut set = TeardownSet::new(mixed());
    let mut out: Vec<usize> = Vec::new();
    set.delete_range(5..17, UncheckedVecRefSink::new(&mut out));
    let after_first = items(&set);
    out.clear();
    set.delete_range(5..17, UncheckedVecRefSink::new(&mut out));
    assert!(out.is_empty());
    assert_eq!(items(&set), after_first);
}

#[test]
fn delete_ranges_commute() {
    let mut one = TeardownSet::new(mixed());
    let mut two = TeardownSet::new(mixed());
    let mut out: Vec<usize> = Vec::new();
    one.delete_range(2..8, UncheckedVecRefSink::new(&mut out));
    one.delete_range(7..19, UncheckedVecRefSink::new(&mut out));
    two.delete_range(7..19, UncheckedVecRefSink::new(&mut out));
    two.delete_range(2..8, UncheckedVecRefSink::new(&mut out));
    assert_eq!(items(&one), items(&two));
    assert_eq!(items(&one), vec![0, 1, 21, 30]);
}

#[test]
fn delete_whole_range_empties() {
    let mut set = TeardownSet::new(mixed());
    let mut out: Vec<usize> = Vec::new();
    set.delete_range(0..31, UncheckedVecRefSink::new(&mut out));
    let mut orig = mixed();
    orig.sort();
    assert_eq!(out, orig);
    assert!(set.is_empty());
}

#[test]
fn noop_filter_is_delete_range() {
    for a in 0..32 {
        for b in a..33 {
            let mut one = TeardownSet::new(mixed());
            let mut two = TeardownSet::new(mixed());
            let mut out1: Vec<usize> = Vec::new();
            let mut out2: Vec<usize> = Vec::new();
            one.delete_range(a..b, UncheckedVecRefSink::new(&mut out1));
            two.filter_range(a..b, NoopFilter, UncheckedVecRefSink::new(&mut out2));
            assert_eq!(out1, out2);
            assert_eq!(items(&one), items(&two));
        }
    }
}

#[test]
fn query_range_gives_what_delete_range_takes() {
    for a in 0..32 {
        for b in a..33 {
            let set = TeardownSet::new(mixed());
            let mut seen: Vec<usize> = Vec::new();
            set.query_range(a..b, RefCopyingSink::new(UncheckedVecRefSink::new(&mut seen)));
            let mut copy = TeardownSet::new(mixed());
            let mut out: Vec<usize> = Vec::new();
            copy.delete_range(a..b, UncheckedVecRefSink::new(&mut out));
            assert_eq!(seen, out);
        }
    }
}

#[test]
fn insert_new_then_present() {
    let mut map: TeardownMap<usize, usize> = TeardownMap::new(vec![(1, 10), (5, 50), (9, 90)]);
    assert_eq!(map.insert((4, 40)), None);
    assert_eq!(map.size(), 4);
    assert_eq!(map.find(&4), Some(&40));
    assert_eq!(map.insert((4, 44)), Some(40));
    assert_eq!(map.size(), 4);
    assert_eq!(map.find(&4), Some(&44));
    let pairs: Vec<(usize, usize)> = map.iter().into_iter().copied().collect();
    assert_eq!(pairs, vec![(1, 10), (4, 44), (5, 50), (9, 90)]);
}

#[test]
fn delete_takes_one_occurrence() {
    let mut set = TeardownSet::new(vec![7, 3, 7, 7, 1]);
    assert!(set.delete(&7));
    assert_eq!(items(&set), vec![1, 3, 7, 7]);
    assert!(!set.delete(&4));
    assert_eq!(items(&set), vec![1, 3, 7, 7]);
}

#[test]
fn delete_overlap_partitions_the_intervals() {
    let ivs: Vec<KeyInterval> = (0..12).map(|x| KeyInterval::new(x, x + 2)).collect();
    let mut set = IntervalTeardownSet::new(ivs);
    let mut out: Vec<KeyInterval> = Vec::new();
    set.delete_overlap(&KeyInterval::new(4, 6), UncheckedVecRefSink::new(&mut out));
    let got: Vec<(usize, usize)> = out.iter().map(|iv| (iv.a, iv.b)).collect();
    assert_eq!(got, vec![(3, 5), (4, 6), (5, 7)]);
    let rest: Vec<(usize, usize)> = set.iter().into_iter().map(|iv| (iv.a, iv.b)).collect();
    assert_eq!(rest.len() + got.len(), 12);
    for (a, b) in rest {
        assert!(!((a < 6 && 4 < b) || a == 4));
    }
}

#[test]
fn teardown_and_refill() {
    let master = TeardownSet::new((0..500).collect());
    let mut copy = master.clone();
    for round in 0..3 {
        let mut start = round;
        while !copy.is_empty() {
            let mut out: Vec<usize> = Vec::new();
            copy.delete_range(start..start + 37, UncheckedVecRefSink::new(&mut out));
            start += 37;
            if start > 600 {
                start = 0;
            }
        }
        copy.refill(&master);
        assert_eq!(items(&copy), (0..500).collect::<Vec<usize>>());
    }
}

#[test]
fn interval_refill_restores() {
    let master = IntervalTeardownSet::new((0..40).map(|x| KeyInterval::new(x, x + 5)).collect());
    let mut copy = master.clone();
    let mut out: Vec<KeyInterval> = Vec::new();
    copy.delete_overlap(&KeyInterval::new(10, 30), UncheckedVecRefSink::new(&mut out));
    assert_eq!(copy.size() + out.len(), 40);
    copy.refill(&master);
    assert_eq!(copy.size(), 40);
    let a: Vec<(usize, usize)> = copy.iter().into_iter().map(|iv| (iv.a, iv.b)).collect();
    let b: Vec<(usize, usize)> = master.iter().into_iter().map(|iv| (iv.a, iv.b)).collect();
    assert_eq!(a, b);
}

#[test]
fn many_inserts_stay_sorted() {
    let mut map: TeardownMap<usize, usize> = TeardownMap::new(vec![(500, 501)]);
    let mut expected: Vec<usize> = vec![500];
    let mut x: u64 = 12345;
    for _ in 0..3000 {
        x = x.wrapping_mul(6364136223846793005).wrapping_add(1442695040888963407);
        let k = ((x >> 33) % 5000) as usize;
        let old = map.insert((k, k + 1));
        if expected.contains(&k) {
            assert!(old.is_some());
        } else {
            assert_eq!(old, None);
            expected.push(k);
        }
    }
    expected.sort();
    let keys: Vec<usize> = map.iter().into_iter().map(|p| p.0).collect();
    assert_eq!(keys, expected);
    assert_eq!(map.size(), expected.len());
    for k in expected.iter() {
        assert_eq!(map.find(k), Some(&(k + 1)));
    }
}

#[test]
fn sequential_inserts() {
    let mut map: TeardownMap<usize, ()> = TeardownMap::new(Vec::new());
    for k in 0..2000 {
        assert_eq!(map.insert((k, ())), None);
    }
    for k in (2000..4000).rev() {
        assert_eq!(map.insert((k, ())), None);
    }
    let keys: Vec<usize> = map.iter().into_iter().map(|p| p.0).collect();
    assert_eq!(keys, (0..4000).collect::<Vec<usize>>());
}

#[test]
fn new_sorts_large_shuffled_input() {
    let n: usize = 200000;
    let mut elems: Vec<usize> = (0..n).collect();
    let mut x: u64 = 99;
    for i in (1..n).rev() {
        x = x.wrapping_mul(6364136223846793005).wrapping_add(1442695040888963407);
        let j = ((x >> 33) as usize) % (i + 1);
        elems.swap(i, j);
    }
    let set = TeardownSet::new(elems);
    assert_eq!(items(&set), (0..n).collect::<Vec<usize>>());
}

#[test]
fn new_keeps_equal_keys_in_order() {
    let map: TeardownMap<usize, usize> = TeardownMap::new(vec![(3, 1), (1, 2), (3, 3), (2, 4), (3, 5), (1, 6)]);
    let pairs: Vec<(usize, usize)> = map.iter().into_iter().copied().collect();
    assert_eq!(pairs, vec![(1, 2), (1, 6), (2, 4), (3, 1), (3, 3), (3, 5)]);
}

#[test]
fn query_overlap_gives_what_delete_overlap_takes() {
    let ivs: Vec<KeyInterval> = (0..30).map(|x| KeyInterval::new(x % 17, x % 17 + x % 5)).collect();
    for a in 0..20 {
        for b in a..22 {
            let set = IntervalTeardownSet::new(ivs.clone());
            let mut seen: Vec<KeyInterval> = Vec::new();
            set.query_overlap(&KeyInterval::new(a, b), RefCopyingSink::new(UncheckedVecRefSink::new(&mut seen)));
            let mut copy = IntervalTeardownSet::new(ivs.clone());
            let mut out: Vec<KeyInterval> = Vec::new();
            copy.delete_overlap(&KeyInterval::new(a, b), UncheckedVecRefSink::new(&mut out));
            assert_eq!(seen, out);
            assert_eq!(copy.size() + out.len(), ivs.len());
        }
    }
}

#[test]
fn interval_map_new_keeps_equal_intervals_in_order() {
    let map = IntervalTeardownMap::new(vec![
        (KeyInterval::new(2, 3), 1usize),
        (KeyInterval::new(1, 5), 2),
        (KeyInterval::new(2, 3), 3),
        (KeyInterval::new(1, 5), 4),
        (KeyInterval::new(2, 3), 5),
    ]);
    let got: Vec<(usize, usize, usize)> = map.iter().into_iter().map(|p| (p.0.a, p.0.b, p.1)).collect();
    assert_eq!(got, vec![(1, 5, 2), (1, 5, 4), (2, 3, 1), (2, 3, 3), (2, 3, 5)]);
}

#[test]
fn refill_after_teardown_reuses_storage() {
    let master = TeardownSet::new((0..100).collect());
    let mut copy = master.clone();
    let mut out: Vec<usize> = Vec::new();
    copy.delete_range(0..100, UncheckedVecRefSink::new(&mut out));
    assert!(copy.is_empty());
    assert_eq!(copy.internal().repr.capacity(), master.internal().repr.capacity());
    copy.refill(&master);
    assert_eq!(items(&copy), (0..100).collect::<Vec<usize>>());
}

#[test]
fn counting_sink_counts() {
    let mut out: Vec<usize> = Vec::new();
    let mut s = CountingSink::new(UncheckedVecRefSink::new(&mut out));
    for x in [5usize, 7, 9] {
        s.consume(x);
    }
    assert_eq!(s.count(), 3);
    drop(s);
    assert_eq!(out, vec![5, 7, 9]);
}

#[test]
fn into_iter_of_clone_matches_iter() {
    for n in 0..40 {
        let map: TeardownMap<usize, usize> = TeardownMap::new((0..n).map(|x| (x * 7 % 40, x)).collect());
        let by_ref: Vec<(usize, usize)> = map.iter().into_iter().copied().collect();
        let by_val: Vec<(usize, usize)> = map.clone().into_iter();
        assert_eq!(by_ref, by_val);
        assert_eq!(by_val.len(), map.size());
    }
}
