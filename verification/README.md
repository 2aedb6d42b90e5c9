# teardown_tree

A binary search tree built for teardown: build a master copy once, then repeatedly clone
(or refill) it and tear the copy down with bulk range deletions.

The tree is implicit: entries live in one vector, the children of cell `i` are the cells
`2i+1` and `2i+2`, so a copy is a single allocation and a refill is a plain copy of cells.
Bulk deletion (`delete_range`, `filter_range`, `delete_overlap`, `filter_overlap`) hands
the removed entries to a `Sink` in key order and repacks the rest in place.

Every function of the library but one call into the `rand` crate (behind a trusted wrapper
in `src/teardown_seq.rs`) is verified with Verus against a contract over the in-order
sequence of entries (`inorder` in `src/tree_spec.rs`):

- `src/tree_spec.rs`, `src/tree_repr.rs`: the implicit tree, its model and well-formedness.
- `src/range_delete.rs`, `src/bulk_delete.rs`, `src/slot_stack.rs`: range deletion with
  slot stacks.  The algorithm is designed to visit only the deleted entries and the paths
  to the ends of the range; the contracts state what it does, not how long it takes.
- `src/item_filter.rs`, `src/interval_delete.rs`: deletion with a filter, and overlap
  deletion in the interval tree, whose cells know the largest upper bound below them.
- `src/tree_building.rs`, `src/partial_rebuild.rs`, `src/layout.rs`, `src/build_iters.rs`:
  building, stable sorting and rebuilding on insert, with the shape of rebuilt subtrees.
- `src/plain_tree.rs`, `src/interval_tree.rs`, `src/external_api.rs`: the maps and sets.
- `src/bst.rs`: a pointer-based tree used as a point of comparison.
- `src/laws.rs`: properties that relate several operations.

`app/` holds the benchmark program, which times the trees against `BTreeSet`.
