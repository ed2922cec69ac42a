//! Cache-oblivious search-tree layouts and a simulated cache hierarchy to
//! measure them.

pub mod veb_layout;

pub mod veb;
pub mod index_list;
pub mod lru_cache;
pub mod hierarchy;
pub mod rng;
pub mod simalloc;
pub mod tree_shape;
pub mod trees_of_small_height;
pub mod hierarchical;
pub mod btree;
pub mod config;
pub mod workload;
