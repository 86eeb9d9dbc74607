pub mod check;
pub mod conds;
pub mod convert;
pub mod keys;
pub mod query_tree;
pub mod select;
