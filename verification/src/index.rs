pub mod btree;
pub mod tree;
