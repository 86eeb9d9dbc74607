use rua::index::btree::{split_words, BTree, BTreeNode, BTreeNodeType, Bucket, InsertStep};

#[test]
fn node_arrays() {
    let mut a = [1u64, 2, 3, 0, 0, 0];
    BTreeNode::insert_array(&mut a, 1, 9, 3);
    assert_eq!(a, [1, 9, 2, 3, 0, 0]);
    assert_eq!(BTreeNode::remove(&mut a, 0, 4), 1);
    assert_eq!(a, [9, 2, 3, 0, 0, 0]);
    let b = BTreeNode::split_off(&mut a, 1, 3);
    assert_eq!(b, [2, 3, 0, 0, 0, 0]);
    assert_eq!(a, [9, 0, 0, 0, 0, 0]);
    BTreeNode::push(&mut a, 4, 1);
    assert_eq!(BTreeNode::pop(&mut a, 2), Some(4));
    assert_eq!(BTreeNode::pop(&mut a, 0), None);
    let mut c = [5u64, 6, 0, 0, 0, 0];
    BTreeNode::append(&mut a, 1, &mut c, 2);
    assert_eq!(a, [9, 5, 6, 0, 0, 0]);
    assert_eq!(c, [0, 0, 0, 0, 0, 0]);
}

#[test]
fn layout_offsets() {
    assert_eq!(BTreeNode::memory_length(), 145);
    assert_eq!(BTree::get_offset_root(), 12);
    assert_eq!(BTree::get_offset_node_capacity(), 20);
    assert_eq!(BTree::get_index_col(), 24);
    assert_eq!(Bucket::get_offset_prev(), 12);
    assert_eq!(Bucket::get_offset_next(), 20);
    assert_eq!(Bucket::get_offset_data(2), 44);
}

#[test]
fn foreign_key_names() {
    let mut t = BTree { root: 0, index_col: vec![1], index_name: String::new(), ty: BTree::foreign_ty() };
    t.set_foreign_index_name("fk", "other");
    assert_eq!(t.index_name, "fk other");
    assert_eq!(t.get_foreign_constraint_name(), "fk");
    assert_eq!(t.get_foreign_table_name(), "other");
    assert!(t.is_foreign());
    assert!(!t.is_primary());
    assert_eq!(split_words("  a  bc\td "), vec!["a".to_string(), "bc".to_string(), "d".to_string()]);
}

#[test]
fn index_test() {
    let t = BTree { root: 0, index_col: vec![], index_name: "pk".to_string(), ty: BTree::primary_ty() };
    assert!(!t.is_index());
    let u = BTree { root: 0, index_col: vec![], index_name: "i".to_string(), ty: BTree::index_ty() };
    assert!(u.is_index());
}

fn node(ty: BTreeNodeType, key: [u64; 6], son: [u64; 6], bucket: [u64; 6]) -> BTreeNode {
    BTreeNode { ty, key, son, bucket }
}

fn is_leaf(n: &BTreeNode) -> bool {
    matches!(n.ty, BTreeNodeType::Leaf)
}

#[test]
fn leaf_split() {
    let mut leaf = node(BTreeNodeType::Leaf, [11, 12, 13, 14, 15, 0], [0; 6], [21, 22, 23, 24, 25, 0]);
    let mut father = node(BTreeNodeType::Internal, [50, 0, 0, 0, 0, 0], [100, 200, 0, 0, 0, 0], [0; 6]);
    let right = leaf.split(&mut father, 0, 300);
    assert!(is_leaf(&right));
    assert_eq!(leaf.key, [11, 12, 0, 0, 0, 0]);
    assert_eq!(leaf.bucket, [21, 22, 0, 0, 0, 0]);
    assert_eq!(right.key, [13, 14, 15, 0, 0, 0]);
    assert_eq!(right.bucket, [23, 24, 25, 0, 0, 0]);
    assert_eq!(father.key, [13, 50, 0, 0, 0, 0]);
    assert_eq!(father.son, [100, 300, 200, 0, 0, 0]);
}

#[test]
fn internal_split() {
    let mut inner = node(BTreeNodeType::Internal, [11, 12, 13, 14, 15, 0], [1, 2, 3, 4, 5, 6], [0; 6]);
    let mut root = node(BTreeNodeType::Internal, [0; 6], [100, 0, 0, 0, 0, 0], [0; 6]);
    let right = inner.split(&mut root, 0, 300);
    assert!(!is_leaf(&right));
    assert_eq!(inner.key, [11, 12, 0, 0, 0, 0]);
    assert_eq!(inner.son, [1, 2, 3, 0, 0, 0]);
    assert_eq!(right.key, [14, 15, 0, 0, 0, 0]);
    assert_eq!(right.son, [4, 5, 6, 0, 0, 0]);
    assert_eq!(root.key, [13, 0, 0, 0, 0, 0]);
    assert_eq!(root.son, [100, 300, 0, 0, 0, 0]);
}

#[test]
fn leaf_borrow_and_merge() {
    // borrow from a left sibling with three keys
    let mut leaf = node(BTreeNodeType::Leaf, [20, 0, 0, 0, 0, 0], [0; 6], [120, 0, 0, 0, 0, 0]);
    let mut left = node(BTreeNodeType::Leaf, [10, 11, 12, 0, 0, 0], [0; 6], [110, 111, 112, 0, 0, 0]);
    let mut father = node(BTreeNodeType::Internal, [20, 0, 0, 0, 0, 0], [1, 2, 0, 0, 0, 0], [0; 6]);
    leaf.combine_leaf(&mut father, 1, &mut left);
    assert_eq!(left.key, [10, 11, 0, 0, 0, 0]);
    assert_eq!(leaf.key, [12, 20, 0, 0, 0, 0]);
    assert_eq!(leaf.bucket, [112, 120, 0, 0, 0, 0]);
    assert_eq!(father.key, [12, 0, 0, 0, 0, 0]);
    // merge into a left sibling with two keys
    let mut leaf = node(BTreeNodeType::Leaf, [20, 0, 0, 0, 0, 0], [0; 6], [120, 0, 0, 0, 0, 0]);
    let mut left = node(BTreeNodeType::Leaf, [10, 11, 0, 0, 0, 0], [0; 6], [110, 111, 0, 0, 0, 0]);
    let mut father = node(BTreeNodeType::Internal, [20, 0, 0, 0, 0, 0], [1, 2, 0, 0, 0, 0], [0; 6]);
    leaf.combine_leaf(&mut father, 1, &mut left);
    assert_eq!(left.key, [10, 11, 20, 0, 0, 0]);
    assert_eq!(left.bucket, [110, 111, 120, 0, 0, 0]);
    assert_eq!(leaf.key, [0; 6]);
    assert_eq!(father.key, [0; 6]);
    assert_eq!(father.son, [1, 0, 0, 0, 0, 0]);
    // borrow from a right sibling: the separating key becomes the lent key
    let mut leaf = node(BTreeNodeType::Leaf, [10, 0, 0, 0, 0, 0], [0; 6], [110, 0, 0, 0, 0, 0]);
    let mut right = node(BTreeNodeType::Leaf, [20, 21, 22, 0, 0, 0], [0; 6], [120, 121, 122, 0, 0, 0]);
    let mut father = node(BTreeNodeType::Internal, [20, 0, 0, 0, 0, 0], [1, 2, 0, 0, 0, 0], [0; 6]);
    leaf.combine_leaf(&mut father, 0, &mut right);
    assert_eq!(leaf.key, [10, 20, 0, 0, 0, 0]);
    assert_eq!(right.key, [21, 22, 0, 0, 0, 0]);
    assert_eq!(right.bucket, [121, 122, 0, 0, 0, 0]);
    assert_eq!(father.key, [20, 0, 0, 0, 0, 0]);
    // no sibling
    let mut leaf = node(BTreeNodeType::Leaf, [10, 0, 0, 0, 0, 0], [0; 6], [110, 0, 0, 0, 0, 0]);
    let mut other = node(BTreeNodeType::Leaf, [30, 0, 0, 0, 0, 0], [0; 6], [130, 0, 0, 0, 0, 0]);
    let mut father = node(BTreeNodeType::Internal, [0; 6], [1, 0, 0, 0, 0, 0], [0; 6]);
    leaf.combine_leaf(&mut father, 0, &mut other);
    assert_eq!(leaf.key, [10, 0, 0, 0, 0, 0]);
    assert_eq!(other.key, [30, 0, 0, 0, 0, 0]);
}

#[test]
fn internal_borrow_and_merge() {
    // borrow through the parent from a left sibling
    let mut inner = node(BTreeNodeType::Internal, [40, 0, 0, 0, 0, 0], [7, 8, 0, 0, 0, 0], [0; 6]);
    let mut left = node(BTreeNodeType::Internal, [10, 11, 12, 0, 0, 0], [1, 2, 3, 4, 0, 0], [0; 6]);
    let mut father = node(BTreeNodeType::Internal, [30, 0, 0, 0, 0, 0], [100, 200, 0, 0, 0, 0], [0; 6]);
    inner.combine_internal(&mut father, 1, &mut left);
    assert_eq!(inner.key, [30, 40, 0, 0, 0, 0]);
    assert_eq!(inner.son, [4, 7, 8, 0, 0, 0]);
    assert_eq!(left.key, [10, 11, 0, 0, 0, 0]);
    assert_eq!(left.son, [1, 2, 3, 0, 0, 0]);
    assert_eq!(father.key, [12, 0, 0, 0, 0, 0]);
    // merge with a right sibling around the separating key
    let mut inner = node(BTreeNodeType::Internal, [10, 0, 0, 0, 0, 0], [1, 2, 0, 0, 0, 0], [0; 6]);
    let mut right = node(BTreeNodeType::Internal, [40, 0, 0, 0, 0, 0], [7, 8, 0, 0, 0, 0], [0; 6]);
    let mut father = node(BTreeNodeType::Internal, [30, 0, 0, 0, 0, 0], [100, 200, 0, 0, 0, 0], [0; 6]);
    inner.combine_internal(&mut father, 0, &mut right);
    assert_eq!(inner.key, [10, 30, 40, 0, 0, 0]);
    assert_eq!(inner.son, [1, 2, 7, 8, 0, 0]);
    assert_eq!(right.key, [0; 6]);
    assert_eq!(right.son, [0; 6]);
    assert_eq!(father.key, [0; 6]);
    assert_eq!(father.son, [100, 0, 0, 0, 0, 0]);
}

use rua::index::btree::{lower_bound, upper_bound, RawIndex, SearchStep};
use rua::rm::record::{ColumnData, Data, Record};

fn key(v: &[i64]) -> RawIndex {
    RawIndex { index: v.iter().map(|x| Data::Int(*x)).collect() }
}

#[test]
fn index_keys() {
    assert_eq!(key(&[1, 2]).compare(&key(&[1, 3])), Some(-1));
    assert_eq!(key(&[2, 0]).compare(&key(&[1, 3])), Some(1));
    assert_eq!(key(&[1, 3]).compare(&key(&[1, 3])), Some(0));
    assert_eq!(key(&[1]).compare(&key(&[1, 3])), None);
    assert!(key(&[4, 5]).same(&key(&[4, 5])));
    assert!(!key(&[4]).same(&key(&[4, 5])));
    assert!(!key(&[4, 6]).same(&key(&[4, 5])));
    let k = RawIndex::from_u64(u64::MAX);
    assert!(matches!(k.index[..], [Data::Int(-1)]));
    let rec = Record {
        cols: vec![
            ColumnData { index: 0, default: false, data: Some(Data::Int(7)) },
            ColumnData { index: 1, default: false, data: Some(Data::Str("x".to_string())) },
        ],
    };
    let r = RawIndex::from_record(&rec, &vec![1, 0]);
    assert!(matches!(&r.index[..], [Data::Str(s), Data::Int(7)] if s == "x"));
}

#[test]
fn bounds() {
    let keys = vec![key(&[1]), key(&[3]), key(&[3]), key(&[5])];
    assert_eq!(lower_bound(&keys, &key(&[3])), 1);
    assert_eq!(upper_bound(&keys, &key(&[3])), 3);
    assert_eq!(lower_bound(&keys, &key(&[0])), 0);
    assert_eq!(upper_bound(&keys, &key(&[9])), 4);
    assert_eq!(lower_bound(&keys, &key(&[4])), 3);
    assert_eq!(lower_bound(&vec![], &key(&[4])), 0);
    // keys out of order, or of another length, still give a boundary
    assert_eq!(lower_bound(&vec![key(&[5]), key(&[1])], &key(&[3])), 0);
    assert_eq!(lower_bound(&vec![key(&[1, 2])], &key(&[1])), 1);
    assert_eq!(upper_bound(&vec![key(&[1, 2])], &key(&[1])), 1);
}

#[test]
fn search_steps() {
    let leaf = node(BTreeNodeType::Leaf, [11, 12, 13, 0, 0, 0], [0; 6], [21, 22, 23, 0, 0, 0]);
    let keys = vec![key(&[1]), key(&[3]), key(&[5])];
    assert!(matches!(leaf.search(&keys, &key(&[3])), SearchStep::Found(Some(22))));
    assert!(matches!(leaf.search(&keys, &key(&[4])), SearchStep::Found(None)));
    assert!(matches!(leaf.search(&keys, &key(&[9])), SearchStep::Found(None)));
    let inner = node(BTreeNodeType::Internal, [11, 12, 0, 0, 0, 0], [31, 32, 33, 0, 0, 0], [0; 6]);
    let keys = vec![key(&[10]), key(&[20])];
    assert!(matches!(inner.search(&keys, &key(&[5])), SearchStep::Descend(31)));
    assert!(matches!(inner.search(&keys, &key(&[10])), SearchStep::Descend(32)));
    assert!(matches!(inner.search(&keys, &key(&[25])), SearchStep::Descend(33)));
}

fn ikey(v: i64) -> RawIndex {
    RawIndex { index: vec![Data::Int(v)] }
}

#[test]
fn insert_steps() {
    let leaf = node(BTreeNodeType::Leaf, [11, 12, 0, 0, 0, 0], [0; 6], [21, 22, 0, 0, 0, 0]);
    let keys = vec![ikey(1), ikey(3)];
    assert!(matches!(leaf.insert(&keys, &ikey(2), false), InsertStep::Before { pos: 1, next: 22 }));
    assert!(matches!(leaf.insert(&keys, &ikey(0), false), InsertStep::Before { pos: 0, next: 21 }));
    assert!(matches!(leaf.insert(&keys, &ikey(3), false), InsertStep::Present { bucket: 22, add: false }));
    assert!(matches!(leaf.insert(&keys, &ikey(3), true), InsertStep::Present { bucket: 22, add: true }));
    assert!(matches!(leaf.insert(&keys, &ikey(5), false), InsertStep::Append { prev: 22 }));
    let empty = node(BTreeNodeType::Leaf, [0; 6], [0; 6], [0; 6]);
    assert!(matches!(empty.insert(&vec![], &ikey(5), false), InsertStep::Append { prev: 0 }));
    let inner = node(BTreeNodeType::Internal, [11, 12, 0, 0, 0, 0], [31, 32, 33, 0, 0, 0], [0; 6]);
    assert!(matches!(inner.insert(&keys, &ikey(3), false), InsertStep::Descend { pos: 2, son: 33 }));
    assert!(matches!(inner.insert(&keys, &ikey(2), false), InsertStep::Descend { pos: 1, son: 32 }));
}

#[test]
fn inserting_keys() {
    let mut leaf = node(BTreeNodeType::Leaf, [11, 12, 0, 0, 0, 0], [0; 6], [21, 22, 0, 0, 0, 0]);
    leaf.insert_key(1, 15, 25);
    assert_eq!(leaf.key, [11, 15, 12, 0, 0, 0]);
    assert_eq!(leaf.bucket, [21, 25, 22, 0, 0, 0]);
    assert!(!leaf.needs_split());
    leaf.insert_key(3, 16, 26);
    leaf.insert_key(0, 10, 20);
    assert_eq!(leaf.key, [10, 11, 15, 12, 16, 0]);
    assert!(leaf.needs_split());
}

use rua::index::tree::IndexTree;

#[test]
fn index_tree_inserts_and_finds() {
    let mut t = IndexTree::new(1);
    for v in [5i64, 1, 9, 3, 7] {
        assert!(!t.insert_record(&ikey(v), (v * 10) as u64, false));
    }
    assert!(!t.root.leaf);
    assert_eq!(t.root.keys.len(), 1);
    assert_eq!(t.root.sons.len(), 2);
    assert!(matches!(t.root.keys[0].index[0], Data::Int(5)));
    for v in 10i64..60 {
        assert!(!t.insert_record(&ikey(v), v as u64, false));
    }
    for v in [1i64, 3, 5, 7, 9] {
        assert_eq!(t.search_record(&ikey(v)), Some(vec![(v * 10) as u64]));
    }
    for v in 10i64..60 {
        assert_eq!(t.search_record(&ikey(v)), Some(vec![v as u64]));
    }
    assert_eq!(t.search_record(&ikey(2)), None);
    assert_eq!(t.search_record(&ikey(100)), None);
    assert!(t.insert_record(&ikey(7), 71, false));
    assert_eq!(t.search_record(&ikey(7)), Some(vec![70]));
    assert!(t.insert_record(&ikey(7), 72, true));
    assert_eq!(t.search_record(&ikey(7)), Some(vec![70, 72]));
}

#[test]
fn index_tree_descending_inserts() {
    let mut t = IndexTree::new(1);
    for v in (0i64..40).rev() {
        assert!(!t.insert_record(&ikey(v), v as u64, false));
    }
    for v in 0i64..40 {
        assert_eq!(t.search_record(&ikey(v)), Some(vec![v as u64]));
    }
    assert!(t.root.keys.len() <= 4);
}
