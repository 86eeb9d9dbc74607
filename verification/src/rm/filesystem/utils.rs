pub mod bitmap;
pub mod linklist;
pub mod hashmap;
