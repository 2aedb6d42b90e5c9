use std::ops::Range;

use teardown_tree::external_api::IntervalTeardownSet;
use teardown_tree::interval::{IvNode, KeyInterval};
use teardown_tree::interval_tree::IvTree;
use teardown_tree::sink::{RefCopyingSink, UncheckedVecRefSink};

type Tree = IvTree<usize, ()>;

fn lefti(i: usize) -> usize {
    2 * i + 1
}

fn righti(i: usize) -> usize {
    2 * i + 2
}

/// Every tree shape holding the keys `1..=n`, each passed to `check`.
fn test_exhaustive_n<F: Fn(Tree)>(n: usize, check: &F) {
    let items: Vec<usize> = (1..n + 1).collect();
    let mut shape: Vec<Option<usize>> = vec![None; 1 << n];
    let mut stack: Vec<(Range<usize>, usize)> = vec![(0..n, 0)];
    exhaustive_rec(&items, &mut shape, &mut stack, check);
}

fn exhaustive_rec<F: Fn(Tree)>(
    items: &[usize],
    shape: &mut Vec<Option<usize>>,
    stack: &mut Vec<(Range<usize>, usize)>,
    check: &F,
) {
    if stack.is_empty() {
        let nodes: Vec<Option<IvNode<usize, ()>>> = shape.iter().map(|o| o.map(|k| IvNode::new(k, ()))).collect();
        check(IvTree::with_nodes(nodes));
    } else {
        let (range, root) = stack.pop().unwrap();
        for i in range.clone() {
            shape[root] = Some(items[i]);
            let mut pushed = 0;
            if range.start < i {
                stack.push((range.start..i, lefti(root)));
                pushed += 1;
            }
            if i + 1 < range.end {
                stack.push((i + 1..range.end, righti(root)));
                pushed += 1;
            }
            exhaustive_rec(items, shape, stack, check);
            shape[root] = None;
            for _ in 0..pushed {
                stack.pop();
            }
        }
        stack.push((range, root));
    }
}

fn exhaustive_range_check(n: usize, range: &Range<usize>, output: &Vec<usize>) {
    let expected: Vec<usize> = if range.start == range.end && range.start <= n && 1 <= range.start {
        vec![range.start]
    } else {
        let expected_range = std::cmp::max(1, range.start)..std::cmp::min(n + 1, range.end);
        expected_range.collect()
    };
    assert_eq!(output, &expected, "range={:?}", range);
}

#[test]
fn query_overlap_exhaustive() {
    for n in 1..8 {
        test_exhaustive_n(n, &|tree| {
            let tree = IntervalTeardownSet::from_internal(tree);
            let n = tree.size();
            let mut output: Vec<usize> = Vec::with_capacity(n);
            for i in 0..n + 2 {
                for j in i..n + 2 {
                    output.truncate(0);
                    {
                        let sink = RefCopyingSink::new(UncheckedVecRefSink::new(&mut output));
                        tree.query_overlap(&KeyInterval::new(i, j), sink);
                    }
                    exhaustive_range_check(n, &(i..j), &output);
                }
            }
        });
    }
}

#[test]
fn key_interval_order_is_by_bounds() {
    let mut ivs: Vec<KeyInterval> = vec![
        KeyInterval::new(3, 4),
        KeyInterval::new(1, 9),
        KeyInterval::new(3, 2),
        KeyInterval::new(0, 0),
        KeyInterval::new(1, 1),
    ];
    ivs.sort();
    let bounds: Vec<(usize, usize)> = ivs.iter().map(|iv| (iv.a, iv.b)).collect();
    assert_eq!(bounds, vec![(0, 0), (1, 1), (1, 9), (3, 2), (3, 4)]);
    assert_eq!(KeyInterval::new(2, 5), KeyInterval::from(2..5));
}
