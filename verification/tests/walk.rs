use teardown_tree::external_api::TeardownSet;
use teardown_tree::plain_tree::{PlNode, PlTree};
use teardown_tree::successor::{left_enclosing, Iter};

fn walk(tree: &PlTree<usize, ()>) -> Vec<usize> {
    let mut it = Iter::new(&tree.repr);
    let mut out = Vec::new();
    assert_eq!(it.len(), tree.size());
    while let Some(e) = it.next() {
        out.push(e.item.0);
    }
    assert_eq!(it.len(), 0);
    out
}

#[test]
fn iter_walks_in_order() {
    for n in 0..60 {
        let set = TeardownSet::new((0..n).rev().collect());
        assert_eq!(walk(set.internal()), (0..n).collect::<Vec<usize>>());
    }
}

#[test]
fn successor_on_sparse_shape() {
    // cells: 0:4, 1:2, 2:6, 3:1, 4:3, 5:5, 6:7, 14:8
    let mut nodes: Vec<Option<PlNode<usize, ()>>> = (0..15).map(|_| None).collect();
    for (i, k) in [(0, 4), (1, 2), (2, 6), (3, 1), (4, 3), (5, 5), (6, 7), (14, 8)] {
        nodes[i] = Some(PlNode::new(k, ()));
    }
    let tree = PlTree::with_nodes(nodes);
    assert_eq!(walk(&tree), vec![1, 2, 3, 4, 5, 6, 7, 8]);
    assert_eq!(tree.repr.successor(3), Some(1));
    assert_eq!(tree.repr.successor(4), Some(0));
    assert_eq!(tree.repr.successor(0), Some(5));
    assert_eq!(tree.repr.successor(5), Some(2));
    assert_eq!(tree.repr.successor(2), Some(6));
    assert_eq!(tree.repr.successor(6), Some(14));
    assert_eq!(tree.repr.successor(14), None);
}

#[test]
fn left_enclosing_strips_trailing_ones() {
    assert_eq!(left_enclosing(1), 0);
    assert_eq!(left_enclosing(2), 2);
    assert_eq!(left_enclosing(3), 0);
    assert_eq!(left_enclosing(5), 2);
    assert_eq!(left_enclosing(11), 2);
    assert_eq!(left_enclosing(12), 12);
    assert_eq!(left_enclosing(23), 2);
}
