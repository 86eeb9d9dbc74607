use rua::index::btree::BTree;
use rua::parser::ast::Value;
use rua::parser::ast::{Field, Type};
use rua::sm::check::{check_add_column, check_create_index, check_drop_index, check_no_repeat};
use rua::sm::convert::{date2str, str2date, value2int, VALUE_DATE, VALUE_FLOAT, VALUE_INT, VALUE_NULL, VALUE_STR};

#[test]
fn value_kinds() {
    assert_eq!(value2int(&Value::Int("1".to_string())), VALUE_INT);
    assert_eq!(value2int(&Value::Str("a".to_string())), VALUE_STR);
    assert_eq!(value2int(&Value::Float("1.5".to_string())), VALUE_FLOAT);
    assert_eq!(value2int(&Value::Date("2019-01-01".to_string())), VALUE_DATE);
    assert_eq!(value2int(&Value::Null), VALUE_NULL);
}

#[test]
fn fixed_dates() {
    assert_eq!(str2date("anything"), 1575185880);
    assert_eq!(date2str(0), "2019.12.01 15:38:00");
}

#[test]
fn repeats() {
    assert!(check_no_repeat(&vec!["a".to_string(), "b".to_string()]));
    assert!(!check_no_repeat(&vec!["a".to_string(), "b".to_string(), "a".to_string()]));
    assert!(check_no_repeat(&vec![]));
}

#[test]
fn droppable_index() {
    let trees = vec![
        BTree { root: 0, index_col: vec![], index_name: "idx".to_string(), ty: BTree::index_ty() },
        BTree { root: 0, index_col: vec![], index_name: "pk".to_string(), ty: BTree::primary_ty() },
    ];
    assert!(!check_drop_index(&"pk".to_string(), &trees));
    assert!(check_drop_index(&"idx".to_string(), &trees));
    assert!(!check_drop_index(&"none".to_string(), &trees));
}

#[test]
fn index_creation() {
    let columns = vec!["a".to_string(), "b".to_string()];
    let trees = vec![BTree { root: 0, index_col: vec![], index_name: "old".to_string(), ty: BTree::index_ty() }];
    assert!(check_create_index(&"idx".to_string(), &columns, &vec!["a".to_string(), "b".to_string()], &trees));
    assert!(!check_create_index(&"old".to_string(), &columns, &vec!["a".to_string()], &trees));
    assert!(!check_create_index(&"idx".to_string(), &columns, &vec![], &trees));
    assert!(!check_create_index(&"idx".to_string(), &columns, &vec!["a".to_string(), "a".to_string()], &trees));
    assert!(!check_create_index(&"idx".to_string(), &columns, &vec!["c".to_string()], &trees));
}

#[test]
fn column_addition() {
    let columns = vec!["a".to_string()];
    let new_col = Field::ColumnField { col_name: "b".to_string(), ty: Type::Date, not_null: false, default_value: None };
    let old_col = Field::ColumnField { col_name: "a".to_string(), ty: Type::Date, not_null: false, default_value: None };
    assert!(check_add_column(&columns, &new_col));
    assert!(!check_add_column(&columns, &old_col));
    assert!(!check_add_column(&columns, &Field::PrimaryKeyField { column_list: vec!["a".to_string()] }));
}
