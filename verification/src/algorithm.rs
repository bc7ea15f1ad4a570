pub mod k_min_tree;
pub mod order;
