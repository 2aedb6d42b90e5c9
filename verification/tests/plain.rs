use std::ops::Range;

use teardown_tree::build_iters::{a025480, inorder_to_idx_n, RebuildIter};
use teardown_tree::external_api::{TeardownMap, TeardownSet};
use teardown_tree::plain_tree::{PlNode, PlTree};
use teardown_tree::sink::{RefCopyingSink, UncheckedVecRefSink};

type Tree = PlTree<usize, ()>;

// ---- helpers --------------------------------------------------------------------------------

fn lefti(i: usize) -> usize {
    2 * i + 1
}

fn righti(i: usize) -> usize {
    2 * i + 2
}

/// Every tree shape holding the given sorted items, each passed to `check`.
fn test_exhaustive_items<V: Clone, F: Fn(PlTree<usize, V>)>(items: &[(usize, V)], check: &F) {
    let n = items.len();
    let mut shape: Vec<Option<(usize, V)>> = vec![None; 1 << n];
    let mut stack: Vec<(Range<usize>, usize)> = vec![(0..n, 0)];
    exhaustive_rec(items, &mut shape, &mut stack, check);
}

fn exhaustive_rec<V: Clone, F: Fn(PlTree<usize, V>)>(
    items: &[(usize, V)],
    shape: &mut Vec<Option<(usize, V)>>,
    stack: &mut Vec<(Range<usize>, usize)>,
    check: &F,
) {
    if stack.is_empty() {
        let nodes: Vec<Option<PlNode<usize, V>>> = shape
            .iter()
            .map(|o| o.clone().map(|(k, v)| PlNode::new(k, v)))
            .collect();
        check(PlTree::with_nodes(nodes));
    } else {
        let (range, root) = stack.pop().unwrap();
        for i in range.clone() {
            shape[root] = Some(items[i].clone());
            let mut pushed = 0;
            if range.start < i {
                stack.push((range.start..i, lefti(root)));
                pushed += 1;
            }
            if i + 1 < range.end {
                stack.push((i + 1..range.end, righti(root)));
                pushed += 1;
            }
            exhaustive_rec(items, shape, stack, check);
            shape[root] = None;
            for _ in 0..pushed {
                stack.pop();
            }
        }
        stack.push((range, root));
    }
}

fn test_exhaustive_n<F: Fn(Tree)>(n: usize, check: &F) {
    let items: Vec<(usize, ())> = (1..n + 1).map(|x| (x, ())).collect();
    test_exhaustive_items(&items, check);
}

fn keys_of<V>(tree: &PlTree<usize, V>) -> Vec<usize> {
    tree.iter().into_iter().map(|p| p.0).collect()
}

/// The cells below an empty cell are empty, and the size counts the entries.
fn check_integrity<V>(tree: &PlTree<usize, V>) {
    let data = &tree.repr.data;
    let mut occupied = 0;
    for i in 0..data.len() {
        if data[i].is_some() {
            assert!(i == 0 || data[(i - 1) / 2].is_some(), "dangling cell {}", i);
            occupied += 1;
        }
    }
    assert_eq!(occupied, tree.size());
}

/// The entries are sorted.
fn check_bst<V>(tree: &PlTree<usize, V>) {
    let keys = keys_of(tree);
    for i in 1..keys.len() {
        assert!(keys[i - 1] <= keys[i], "keys={:?}", keys);
    }
}

fn exhaustive_range_check(n: usize, range: &Range<usize>, output: &Vec<usize>) {
    let expected: Vec<usize> = if range.start == range.end && range.start <= n && 1 <= range.start {
        vec![range.start]
    } else {
        let expected_range = std::cmp::max(1, range.start)..std::cmp::min(n + 1, range.end);
        expected_range.collect()
    };
    assert_eq!(output, &expected, "range={:?}", range);
}

fn selected(range: &Range<usize>, k: usize) -> bool {
    (range.start <= k && k < range.end) || k == range.start
}

fn exhaustive_check(n: usize, range: Range<usize>, output: &Vec<usize>, tree_mod: &Tree, tree_orig: &Tree) {
    exhaustive_range_check(n, &range, output);
    check_bst(tree_mod);
    check_integrity(tree_mod);
    let expected: Vec<usize> = keys_of(tree_orig).into_iter().filter(|k| !selected(&range, *k)).collect();
    assert_eq!(keys_of(tree_mod), expected);
    assert!(tree_mod.size() + output.len() == n);
}

fn clone_tree(tree: &Tree) -> Tree {
    let nodes: Vec<Option<PlNode<usize, ()>>> = tree
        .repr
        .data
        .iter()
        .map(|c| c.as_ref().map(|e| PlNode::new(e.item.0, ())))
        .collect();
    PlTree::with_nodes(nodes)
}

fn mk_prebuilt(items: &[usize]) -> Vec<Option<PlNode<usize, ()>>> {
    items.iter().map(|&x| if x == 0 { None } else { Some(PlNode::new(x, ())) }).collect()
}

fn delete_range_exhaustive_with_tree(tree: Tree) {
    let n = tree.size();
    let mut output: Vec<(usize, ())> = Vec::with_capacity(n);
    for i in 0..n + 2 {
        for j in i..n + 2 {
            let mut tree_mod = clone_tree(&tree);
            output.truncate(0);
            tree_mod.delete_range(i..j, UncheckedVecRefSink::new(&mut output));
            let keys: Vec<usize> = output.iter().map(|p| p.0).collect();
            exhaustive_check(n, i..j, &keys, &tree_mod, &tree);
        }
    }
}

fn delete_single_exhaustive_with_tree(tree: Tree) {
    let n = tree.size();
    for i in 1..n + 1 {
        let mut tree_mod = clone_tree(&tree);
        let deleted = tree_mod.delete(&i);
        assert!(deleted.is_some());
        let output = vec![i];
        exhaustive_check(n, i..i + 1, &output, &tree_mod, &tree);
    }
}

fn delete_range_n(n: usize) {
    let tree = PlTree::new((1..n + 1).zip(vec![(); n].into_iter()).collect::<Vec<_>>());
    delete_range_exhaustive_with_tree(tree);
}

fn test_prebuilt_delete(items: &[usize], range: Range<usize>) {
    let tree = PlTree::with_nodes(mk_prebuilt(items));
    let orig = clone_tree(&tree);
    let mut set = TeardownSet::from_internal(tree);
    let mut output: Vec<usize> = Vec::with_capacity(set.size());
    set.delete_range(range.clone(), UncheckedVecRefSink::new(&mut output));
    let tree = set.internal();
    check_bst(tree);
    check_integrity(tree);
    let expected_out: Vec<usize> = keys_of(&orig).into_iter().filter(|k| selected(&range, *k)).collect();
    assert_eq!(output, expected_out, "range={:?}", range);
    let expected_rest: Vec<usize> = keys_of(&orig).into_iter().filter(|k| !selected(&range, *k)).collect();
    assert_eq!(keys_of(tree), expected_rest);
    assert!(output.len() + tree.size() == orig.size());
    for i in 1..output.len() {
        assert!(output[i - 1] <= output[i]);
    }
}

fn test_prebuilt_query(items: &[usize], range: Range<usize>) {
    let tree = PlTree::with_nodes(mk_prebuilt(items));
    let set = TeardownSet::from_internal(tree);
    let mut output: Vec<usize> = Vec::with_capacity(set.size());
    set.query_range(range.clone(), RefCopyingSink::new(UncheckedVecRefSink::new(&mut output)));
    for i in 1..output.len() {
        assert!(output[i - 1] <= output[i]);
    }
    let expected: Vec<usize> = keys_of(set.internal())
        .into_iter()
        .filter(|&k| (k < range.end && range.start < k) || k == range.start)
        .collect();
    assert_eq!(output, expected, "range={:?}", range);
}

// ---- tests ----------------------------------------------------------------------------------

#[test]
fn build() {
    TeardownSet::new(vec![1usize]);
    TeardownSet::new(vec![1usize, 2]);
    TeardownSet::new(vec![1usize, 2, 3]);
    TeardownSet::new(vec![1usize, 2, 3, 4]);
    TeardownSet::new(vec![1usize, 2, 3, 4, 5]);
}

#[test]
fn delete_range1() {
    delete_range_n(1);
}

#[test]
fn delete_range2() {
    delete_range_n(1);
}

#[test]
fn delete_range3() {
    delete_range_n(1);
}

#[test]
fn delete_range4() {
    delete_range_n(4);
}

#[test]
fn delete_range_prebuilt() {
    test_prebuilt_delete(&[1], 1..2);
    test_prebuilt_delete(&[1], 1..1);
    test_prebuilt_delete(&[1, 0, 2], 1..1);
    test_prebuilt_delete(&[1, 0, 2], 2..2);
    test_prebuilt_delete(&[3, 2, 0, 1], 1..3);
    test_prebuilt_delete(&[3, 2, 0, 1], 2..4);
    test_prebuilt_delete(&[3, 2, 4, 1], 1..3);
    test_prebuilt_delete(&[3, 1, 4, 0, 2], 2..4);
    test_prebuilt_delete(&[4, 2, 0, 1, 3], 3..4);
    test_prebuilt_delete(&[2, 2, 2, 1], 2..3);
    test_prebuilt_delete(&[4, 3, 0, 2, 0, 0, 0, 1], 1..1);
    test_prebuilt_delete(&[4, 3, 0, 2, 0, 0, 0, 1], 2..2);
    test_prebuilt_delete(&[4, 3, 0, 2, 0, 0, 0, 1], 3..3);
    test_prebuilt_delete(&[4, 3, 0, 2, 0, 0, 0, 1], 4..4);
    test_prebuilt_delete(&[1, 0, 3, 0, 0, 2, 4], 1..2);
    test_prebuilt_delete(&[1, 0, 2, 0, 0, 0, 3, 0, 0, 0, 0, 0, 0, 0, 4], 1..1);
    test_prebuilt_delete(&[1, 0, 2, 0, 0, 0, 3, 0, 0, 0, 0, 0, 0, 0, 4], 2..2);
    test_prebuilt_delete(&[1, 0, 2, 0, 0, 0, 3, 0, 0, 0, 0, 0, 0, 0, 4], 3..3);
    test_prebuilt_delete(&[1, 0, 2, 0, 0, 0, 3, 0, 0, 0, 0, 0, 0, 0, 4], 4..4);
    test_prebuilt_delete(&[1, 0, 4, 0, 0, 2, 0, 0, 0, 0, 0, 0, 3], 1..4);
    test_prebuilt_delete(&[6, 4, 0, 1, 5, 0, 0, 0, 2, 0, 0, 0, 0, 0, 0, 0, 0, 0, 3], 4..6);
    test_prebuilt_delete(&[1, 0, 2, 0, 0, 0, 4, 0, 0, 0, 0, 0, 0, 3], 1..1);
    test_prebuilt_delete(
        &[1, 0, 2, 0, 0, 0, 3, 0, 0, 0, 0, 0, 0, 0, 5, 0, 0, 0, 0, 0, 0, 0, 0, 0, 0, 0, 0, 0, 0, 4],
        1..2,
    );
}

#[test]
fn delete_range_exhaustive() {
    for i in 1..8 {
        test_exhaustive_n(i, &|tree| delete_range_exhaustive_with_tree(tree));
    }
}

#[test]
fn delete_single_exhaustive() {
    for i in 1..8 {
        test_exhaustive_n(i, &|tree| delete_single_exhaustive_with_tree(tree));
    }
}

#[test]
fn query_range_exhaustive() {
    for i in 1..8 {
        test_exhaustive_n(i, &|tree| {
            let tree = TeardownSet::from_internal(tree);
            let n = tree.size();
            let mut output: Vec<usize> = Vec::with_capacity(n);
            for i in 0..n + 2 {
                for j in i..n + 2 {
                    output.truncate(0);
                    {
                        let sink = RefCopyingSink::new(UncheckedVecRefSink::new(&mut output));
                        tree.query_range(i..j, sink);
                    }
                    exhaustive_range_check(n, &(i..j), &output);
                }
            }
        });
    }
}

#[test]
fn iter_exhaustive() {
    for i in 1..10 {
        test_exhaustive_n(i, &|tree| {
            let tree = TeardownSet::from_internal(tree);
            let mut n = tree.size();
            for (i, &x) in tree.iter().into_iter().enumerate() {
                assert!(i + 1 == x, "i={}, x={}", i, x);
                n -= 1;
            }
            assert!(n == 0);
        });
    }
}

#[test]
fn into_iter_exhaustive() {
    for i in 1..10 {
        test_exhaustive_n(i, &|tree| {
            let tree = TeardownSet::from_internal(tree);
            let mut n = tree.size();
            for (i, x) in tree.into_iter().into_iter().enumerate() {
                assert!(i + 1 == x, "i={}, x={}", i, x);
                n -= 1;
            }
            assert!(n == 0);
        });
    }
}

#[test]
fn find_exhaustive() {
    for n in 1..10 {
        let items: Vec<(usize, usize)> = (1..n + 1).map(|x| (x, x)).collect();
        test_exhaustive_items(&items, &|tree: PlTree<usize, usize>| {
            let tree = TeardownMap::from_internal(tree);
            let n = tree.size();
            assert_eq!(tree.find(&0), None);
            for i in 1..n + 1 {
                assert_eq!(tree.find(&i), Some(&i));
            }
            for i in n + 1..2 * n + 2 {
                assert_eq!(tree.find(&i), None);
            }
        });
    }
}

#[test]
fn query_range_prebuilt() {
    test_prebuilt_query(&[1], 1..1);
    test_prebuilt_query(&[1], 0..2);
}

#[test]
fn base_repr_test_a025480() {
    let a = &a025480;
    assert_eq!(a(0), 0);
    assert_eq!(a(1), 0);
    assert_eq!(a(2), 1);
    assert_eq!(a(3), 0);
    assert_eq!(a(4), 2);
    assert_eq!(a(5), 1);
    assert_eq!(a(6), 3);
    assert_eq!(a(7), 0);
    assert_eq!(a(8), 4);
    assert_eq!(a(9), 2);
    assert_eq!(a(10), 5);
}

#[test]
fn tree_building_test_a025480() {
    let a = &a025480;
    assert_eq!(a(0), 0);
    assert_eq!(a(1), 0);
    assert_eq!(a(2), 1);
    assert_eq!(a(3), 0);
    assert_eq!(a(4), 2);
    assert_eq!(a(5), 1);
    assert_eq!(a(6), 3);
    assert_eq!(a(7), 0);
    assert_eq!(a(8), 4);
    assert_eq!(a(9), 2);
    assert_eq!(a(10), 5);
}

fn inorder_to_idx_exhaustive() {
    for h in 1..18 {
        let n: usize = (1 << h) - 1;
        let items = (0..n).map(|x| (x, ())).collect();
        let tree = PlTree::new(items);
        for i in 0..n {
            let idx = inorder_to_idx_n(i, n);
            assert_eq!(tree.repr.key(idx), &i);
        }
    }
}

#[test]
fn base_repr_test_inorder_to_idx_exhaustive() {
    inorder_to_idx_exhaustive();
}

#[test]
fn tree_building_test_inorder_to_idx_exhaustive() {
    inorder_to_idx_exhaustive();
}

#[test]
fn fwd_rebuild_iter() {
    let mut iter = RebuildIter::new(1);
    assert_eq!(iter.next(), Some(0));
    assert_eq!(iter.next(), None);

    let mut iter = RebuildIter::new(2);
    assert_eq!(iter.next(), Some(0));
    assert_eq!(iter.next(), Some(2));
    assert_eq!(iter.next(), None);

    let mut iter = RebuildIter::new(3);
    assert_eq!(iter.next(), Some(1));
    assert_eq!(iter.next(), Some(0));
    assert_eq!(iter.next(), Some(2));
    assert_eq!(iter.next(), None);

    let mut iter = RebuildIter::new(4);
    assert_eq!(iter.next(), Some(0));
    assert_eq!(iter.next(), Some(5));
    assert_eq!(iter.next(), Some(2));
    assert_eq!(iter.next(), Some(6));
    assert_eq!(iter.next(), None);

    let mut iter = RebuildIter::new(5);
    assert_eq!(iter.next(), Some(4));
    assert_eq!(iter.next(), Some(0));
    assert_eq!(iter.next(), Some(5));
    assert_eq!(iter.next(), Some(2));
    assert_eq!(iter.next(), Some(6));
    assert_eq!(iter.next(), None);

    let mut iter = RebuildIter::new(6);
    assert_eq!(iter.next(), Some(1));
    assert_eq!(iter.next(), Some(4));
    assert_eq!(iter.next(), Some(0));
    assert_eq!(iter.next(), Some(5));
    assert_eq!(iter.next(), Some(2));
    assert_eq!(iter.next(), Some(6));
    assert_eq!(iter.next(), None);

    let mut iter = RebuildIter::new(7);
    assert_eq!(iter.next(), Some(3));
    assert_eq!(iter.next(), Some(1));
    assert_eq!(iter.next(), Some(4));
    assert_eq!(iter.next(), Some(0));
    assert_eq!(iter.next(), Some(5));
    assert_eq!(iter.next(), Some(2));
    assert_eq!(iter.next(), Some(6));
    assert_eq!(iter.next(), None);

    let mut iter = RebuildIter::new(8);
    assert_eq!(iter.next(), Some(0));
    assert_eq!(iter.next(), Some(11));
    assert_eq!(iter.next(), Some(5));
    assert_eq!(iter.next(), Some(12));
    assert_eq!(iter.next(), Some(2));
    assert_eq!(iter.next(), Some(13));
    assert_eq!(iter.next(), Some(6));
    assert_eq!(iter.next(), Some(14));
    assert_eq!(iter.next(), None);
}

#[test]
fn bck_rebuild_iter() {
    let mut iter = RebuildIter::new(1);
    assert_eq!(iter.next_back(), Some(0));
    assert_eq!(iter.next_back(), None);

    let mut iter = RebuildIter::new(2);
    assert_eq!(iter.next_back(), Some(2));
    assert_eq!(iter.next_back(), Some(0));
    assert_eq!(iter.next_back(), None);

    let mut iter = RebuildIter::new(3);
    assert_eq!(iter.next_back(), Some(2));
    assert_eq!(iter.next_back(), Some(0));
    assert_eq!(iter.next_back(), Some(1));
    assert_eq!(iter.next_back(), None);

    let mut iter = RebuildIter::new(4);
    assert_eq!(iter.next_back(), Some(6));
    assert_eq!(iter.next_back(), Some(2));
    assert_eq!(iter.next_back(), Some(5));
    assert_eq!(iter.next_back(), Some(0));
    assert_eq!(iter.next_back(), None);

    let mut iter = RebuildIter::new(5);
    assert_eq!(iter.next_back(), Some(6));
    assert_eq!(iter.next_back(), Some(2));
    assert_eq!(iter.next_back(), Some(5));
    assert_eq!(iter.next_back(), Some(0));
    assert_eq!(iter.next_back(), Some(4));
    assert_eq!(iter.next_back(), None);

    let mut iter = RebuildIter::new(6);
    assert_eq!(iter.next_back(), Some(6));
    assert_eq!(iter.next_back(), Some(2));
    assert_eq!(iter.next_back(), Some(5));
    assert_eq!(iter.next_back(), Some(0));
    assert_eq!(iter.next_back(), Some(4));
    assert_eq!(iter.next_back(), Some(1));
    assert_eq!(iter.next_back(), None);

    let mut iter = RebuildIter::new(7);
    assert_eq!(iter.next_back(), Some(6));
    assert_eq!(iter.next_back(), Some(2));
    assert_eq!(iter.next_back(), Some(5));
    assert_eq!(iter.next_back(), Some(0));
    assert_eq!(iter.next_back(), Some(4));
    assert_eq!(iter.next_back(), Some(1));
    assert_eq!(iter.next_back(), Some(3));
    assert_eq!(iter.next_back(), None);

    let mut iter = RebuildIter::new(8);
    assert_eq!(iter.next_back(), Some(14));
    assert_eq!(iter.next_back(), Some(6));
    assert_eq!(iter.next_back(), Some(13));
    assert_eq!(iter.next_back(), Some(2));
    assert_eq!(iter.next_back(), Some(12));
    assert_eq!(iter.next_back(), Some(5));
    assert_eq!(iter.next_back(), Some(11));
    assert_eq!(iter.next_back(), Some(0));
    assert_eq!(iter.next_back(), None);
}

fn ins(tree: &mut PlTree<usize, usize>, x: usize) {
    let old = tree.insert((x, x));
    assert_eq!(None, old);
}

fn to_vec(tree: &PlTree<usize, usize>) -> Vec<usize> {
    keys_of(tree)
}

#[test]
fn insert_iter() {
    let n = 1000;

    let tree = &mut PlTree::new(vec![]);
    for i in (0..n).rev() {
        ins(tree, i);
        assert_eq!(to_vec(tree), (i..n).collect::<Vec<_>>());
    }

    let tree = &mut PlTree::new(vec![]);
    for i in 0..n {
        ins(tree, i);
        assert_eq!(tree.size(), i + 1);
        assert_eq!(to_vec(tree), (0..i + 1).collect::<Vec<_>>());
    }

    let tree = &mut PlTree::new(vec![]);
    for i in (0..n).rev() {
        ins(tree, i);
        assert_eq!(to_vec(tree), (i..n).collect::<Vec<_>>());
    }
}

#[test]
fn insert_predef() {
    let tree = &mut PlTree::new(vec![]);
    ins(tree, 9);
    ins(tree, 0);
    ins(tree, 8);
    ins(tree, 1);
    ins(tree, 2);
    ins(tree, 6);
    ins(tree, 7);
    ins(tree, 5);
    ins(tree, 3);
    ins(tree, 4);
    assert_eq!(tree.size(), 10);
    assert_eq!(to_vec(tree), (0..10).collect::<Vec<_>>());

    let items: Vec<_> = (0..255).map(|x| (x, x)).collect();

    let tree = &mut PlTree::new(items.clone());
    tree.delete_range(0..items.len(), vec![]);
    ins(tree, 9);
    ins(tree, 0);
    ins(tree, 8);
    ins(tree, 1);
    ins(tree, 2);
    ins(tree, 6);
    ins(tree, 7);
    ins(tree, 5);
    ins(tree, 3);
    ins(tree, 4);
    assert_eq!(tree.size(), 10);
    assert_eq!(to_vec(tree), (0..10).collect::<Vec<_>>());

    let tree = &mut PlTree::new(items.clone());
    tree.delete_range(0..items.len(), vec![]);
    ins(tree, 0);
    ins(tree, 1);
    ins(tree, 2);
    ins(tree, 4);
    ins(tree, 3);
    assert_eq!(tree.size(), 5);
    assert_eq!(to_vec(tree), (0..5).collect::<Vec<_>>());

    let tree = &mut PlTree::new(items.clone());
    tree.delete_range(0..items.len(), vec![]);
    ins(tree, 4);
    ins(tree, 3);
    ins(tree, 2);
    ins(tree, 0);
    ins(tree, 1);
    assert_eq!(tree.size(), 5);
    assert_eq!(to_vec(tree), (0..5).collect::<Vec<_>>());
}

/// A random permutation of `0..n`.
fn make_permutation(n: usize, rng: &mut rand::XorShiftRng) -> Vec<usize> {
    let mut seq: Vec<usize> = (0..n).collect();
    for i in 0..n {
        let j = rand::Rng::gen_range(rng, i, n);
        seq.swap(i, j);
    }
    seq
}

#[test]
fn insert_rng() {
    let n = 30;
    let mut rng = rand::XorShiftRng::new_unseeded();

    for _ in 0..1000 {
        let seq = make_permutation(n, &mut rng);
        let mut tree: PlTree<usize, usize> = PlTree::new(vec![]);
        for i in 0..n {
            assert_eq!(tree.insert((seq[i], seq[i])), None);
            assert_eq!(tree.size(), i + 1);
        }
        let keys: Vec<usize> = tree.iter().into_iter().map(|p| p.0).collect();
        assert_eq!(keys, (0..n).collect::<Vec<usize>>());
    }
}

fn dispersed(items: &[usize], cells: usize) -> (usize, Vec<Option<usize>>) {
    let mut data: Vec<Option<teardown_tree::node::Entry<usize, ()>>> = (0..cells).map(|_| None).collect();
    let mut src: Vec<(usize, ())> = items.iter().rev().map(|&x| (x, ())).collect();
    let h = teardown_tree::tree_repr::TreeRepr::fill_count(&mut data, &mut src, 0, items.len());
    (h, data.iter().map(|c| c.as_ref().map(|e| e.item.0)).collect())
}

#[test]
fn build_dispersed_layout() {
    let (h, cells) = dispersed(&[10, 20, 30, 40, 50], 7);
    assert_eq!(h, 3);
    assert_eq!(cells, vec![Some(30), Some(20), Some(50), Some(10), None, Some(40), None]);

    let (h, cells) = dispersed(&[1, 2, 3, 4, 5, 6], 7);
    assert_eq!(h, 3);
    assert_eq!(cells, vec![Some(3), Some(2), Some(5), Some(1), None, Some(4), Some(6)]);

    let items12: Vec<usize> = (1..13).collect();
    let (h, cells) = dispersed(&items12, 15);
    assert_eq!(h, 4);
    let bottom: Vec<bool> = cells[7..].iter().map(|c| c.is_some()).collect();
    assert_eq!(bottom, vec![true, false, true, false, true, false, true, true]);
    assert!(cells[..7].iter().all(|c| c.is_some()));

    let (h, cells) = dispersed(&[1, 2, 3, 4, 5, 6, 7], 7);
    assert_eq!(h, 3);
    assert_eq!(cells, vec![Some(4), Some(2), Some(6), Some(1), Some(3), Some(5), Some(7)]);

    let (h, cells) = dispersed(&[1, 2, 3, 4], 15);
    assert_eq!(h, 3);
    assert_eq!(cells.iter().filter(|c| c.is_some()).count(), 4);
    assert!(cells[7..].iter().all(|c| c.is_none()));
}
