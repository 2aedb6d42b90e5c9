pub mod key;
pub mod node;
pub mod tree_spec;
pub mod slot_stack;
pub mod sink;
pub mod drivers;
pub mod tree_repr;
pub mod bulk_delete;
pub mod range_delete;
pub mod tree_building;
pub mod repr_ops;
pub mod plain_tree;
pub mod build_iters;
pub mod external_api;
pub mod interval;
pub mod interval_tree;
pub mod item_filter;
pub mod interval_delete;
pub mod laws;
pub mod layout;
pub mod partial_rebuild;
pub mod bst;
pub mod successor;
pub mod teardown_seq;
