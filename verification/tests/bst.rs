use std::ops::Range;

use teardown_tree::bst::BST;
use teardown_tree::sink::UncheckedVecRefSink;

fn build(elems: &[usize]) -> BST<usize, ()> {
    let elems: Vec<(usize, ())> = elems.iter().map(|&x| (x, ())).collect();
    BST::with_sorted(elems)
}

fn keys(tree: BST<usize, ()>) -> Vec<usize> {
    let mut it = tree.into_iter();
    let mut out = Vec::new();
    while let Some((k, _)) = it.next() {
        out.push(k);
    }
    out
}

fn run_test_with_tree(tree: &mut BST<usize, ()>, copy: &mut BST<usize, ()>, range: Range<usize>) {
    let mut output: Vec<(usize, ())> = Vec::with_capacity(tree.size());
    {
        let sink = UncheckedVecRefSink::new(&mut output);
        copy.delete_range(range.clone(), sink);
    }

    let expected_output: Vec<usize> = keys(tree.clone())
        .into_iter()
        .filter(|&x| range.start <= x && x < range.end || x == range.start)
        .collect();
    let output: Vec<usize> = output.into_iter().map(|(x, _)| x).collect();

    assert_eq!(output, expected_output);
    for x in keys(copy.clone()) {
        assert!(x < range.start || range.end <= x && x != range.start);
    }
}

fn run_test(elems: &[usize], range: Range<usize>) {
    let mut tree = build(elems);
    let mut copy = tree.clone();
    run_test_with_tree(&mut tree, &mut copy, range);
}

#[test]
fn bst_basic() {
    run_test(&[0], 0..1);
    run_test(&[0], 0..0);
    run_test(&[0], 1..1);

    run_test(&[0, 1], 0..0);
    run_test(&[0, 1], 0..1);
    run_test(&[0, 1], 0..2);
    run_test(&[0, 1], 1..2);
    run_test(&[0, 1], 2..2);

    run_test(&[0, 1, 2], 0..0);
    run_test(&[0, 1, 2], 0..1);
    run_test(&[0, 1, 2], 0..2);
    run_test(&[0, 1, 2], 0..3);
    run_test(&[0, 1, 2], 1..1);
    run_test(&[0, 1, 2], 1..2);
    run_test(&[0, 1, 2], 1..3);
    run_test(&[0, 1, 2], 2..2);
    run_test(&[0, 1, 2], 2..3);
    run_test(&[0, 1, 2], 3..3);

    run_test(&[0, 1, 2, 3, 4, 5, 6, 7, 8, 9, 10, 11], 10..20);

    run_test(&(0..100).collect::<Vec<_>>(), 80..90);

    let mut tree = build(&(0..100).collect::<Vec<_>>());
    let mut copy = tree.clone();
    let (tree, copy) = (&mut tree, &mut copy);
    run_test_with_tree(tree, copy, 10..20);
    run_test_with_tree(tree, copy, 50..60);
    run_test_with_tree(tree, copy, 20..30);
    run_test_with_tree(tree, copy, 40..50);
    run_test_with_tree(tree, copy, 90..100);
    run_test_with_tree(tree, copy, 30..40);
    run_test_with_tree(tree, copy, 70..80);
    run_test_with_tree(tree, copy, 60..70);
    run_test_with_tree(tree, copy, 80..90);
    run_test_with_tree(tree, copy, 0..10);
}

#[test]
fn bst_select_root() {
    // the size of the left subtree of a nearly complete tree
    assert_eq!(BST::<usize, ()>::build_select_root(1), 0);
    assert_eq!(BST::<usize, ()>::build_select_root(2), 1);
    assert_eq!(BST::<usize, ()>::build_select_root(3), 1);
    assert_eq!(BST::<usize, ()>::build_select_root(4), 2);
    assert_eq!(BST::<usize, ()>::build_select_root(5), 3);
    assert_eq!(BST::<usize, ()>::build_select_root(6), 3);
    assert_eq!(BST::<usize, ()>::build_select_root(7), 3);
    assert_eq!(BST::<usize, ()>::build_select_root(10), 6);
}

#[test]
fn bst_teardown_and_clear() {
    let mut tree = build(&(0..300).collect::<Vec<_>>());
    let mut out: Vec<(usize, ())> = Vec::new();
    for start in (0..300).step_by(25).rev() {
        tree.delete_range(start..start + 25, UncheckedVecRefSink::new(&mut out));
    }
    assert!(tree.is_empty());
    out.sort();
    assert_eq!(out.len(), 300);
    let mut tree = build(&[1, 2, 3]);
    tree.clear();
    assert_eq!(tree.size(), 0);
}
