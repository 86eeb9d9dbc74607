use rua::index::btree::{BTree, RawIndex};
use rua::index::tree::IndexTree;
use rua::parser::ast::{Column, Expr, Op, Selector, SetClause, Value, WhereClause};
use rua::rm::record::{ColumnData, ColumnType, Data, Record, Type};
use rua::sm::check::{check_delete, check_insert_value, check_select, check_update, check_where, TableMeta};

fn s(x: &str) -> String {
    x.to_string()
}

fn col(tb: &str, name: &str, index: u32, kind: Type, null_ok: bool) -> ColumnType {
    ColumnType {
        tb_name: s(tb),
        name: s(name),
        index,
        data_type: kind,
        numeric_precision: 0,
        can_be_null: null_ok,
        has_index: false,
        has_default: false,
        is_primary: false,
        is_foreign: false,
        default_null: false,
        foreign_table_name: String::new(),
        foreign_table_column: String::new(),
    }
}

fn tree(cols: Vec<u32>, name: &str, ty: u8) -> BTree {
    BTree { root: 0, index_col: cols, index_name: s(name), ty }
}

/// `dept(id INT, name VARCHAR)` keyed by `id`, and `emp(id INT, dept INT)` referring to it.
fn tables() -> Vec<TableMeta> {
    let mut fk = col("emp", "dept", 1, Type::Int(None), true);
    fk.is_foreign = true;
    fk.foreign_table_name = s("dept");
    vec![
        TableMeta {
            name: s("dept"),
            cols: vec![col("dept", "id", 0, Type::Int(None), false), col("dept", "name", 1, Type::Str(None), true)],
            btrees: vec![tree(vec![], "", 0), tree(vec![0], "pk", 1)],
        },
        TableMeta {
            name: s("emp"),
            cols: vec![col("emp", "id", 0, Type::Int(None), false), fk],
            btrees: vec![tree(vec![], "", 0), tree(vec![0], "pk", 1), tree(vec![1], "fk dept", 3)],
        },
    ]
}

fn c(tb: Option<&str>, name: &str) -> Column {
    Column { tb_name: tb.map(s), col_name: s(name) }
}

fn cmp(col: Column, expr: Expr) -> WhereClause {
    WhereClause::Comparison { col, op: Op::Equal, expr }
}

fn key(v: &[i64]) -> RawIndex {
    RawIndex { index: v.iter().map(|x| Data::Int(*x)).collect() }
}

#[test]
fn values_and_kinds() {
    assert!(Type::Int(None).valid_value(&Value::Int(s("1"))));
    assert!(Type::Date(None).valid_value(&Value::Null));
    assert!(!Type::Str(None).valid_value(&Value::Int(s("1"))));
    assert!(!Type::Numeric(None).valid_value(&Value::Int(s("1"))));
    assert!(Type::Int(Some(3)).comparable(&Type::Int(None)));
    assert!(!Type::Int(None).comparable(&Type::Str(None)));
}

#[test]
fn where_clauses() {
    let t = tables();
    let cols = &t[0].cols;
    let dept = s("dept");
    assert!(check_where(&dept, cols, &None));
    let ok = Some(vec![
        cmp(c(None, "id"), Expr::Value(Value::Int(s("1")))),
        WhereClause::IsAssert { col: c(Some("dept"), "name"), null: true },
    ]);
    assert!(check_where(&dept, cols, &ok));
    assert!(!check_where(&dept, cols, &Some(vec![cmp(c(None, "id"), Expr::Value(Value::Str(s("x"))))])));
    assert!(!check_where(&dept, cols, &Some(vec![cmp(c(Some("emp"), "id"), Expr::Value(Value::Null))])));
    assert!(!check_where(&dept, cols, &Some(vec![cmp(c(None, "id"), Expr::Column(c(None, "name")))])));
    assert!(!check_where(&dept, cols, &Some(vec![WhereClause::IsAssert { col: c(None, "none"), null: false }])));
}

#[test]
fn selects() {
    let t = tables();
    assert!(check_select(&t, &Selector::All, &None));
    // `id` is in both tables: it must be named with its table
    assert!(!check_select(&t, &Selector::Columns(vec![c(None, "id")]), &None));
    assert!(check_select(&t, &Selector::Columns(vec![c(Some("emp"), "id"), c(None, "name")]), &None));
    let join = Some(vec![cmp(c(Some("emp"), "dept"), Expr::Column(c(Some("dept"), "id")))]);
    assert!(check_select(&t, &Selector::All, &join));
    let mismatch = Some(vec![cmp(c(None, "name"), Expr::Column(c(Some("dept"), "id")))]);
    assert!(!check_select(&t, &Selector::All, &mismatch));
    let bad_value = Some(vec![cmp(c(None, "name"), Expr::Value(Value::Int(s("3"))))]);
    assert!(!check_select(&t, &Selector::All, &bad_value));
}

fn row(v: &[i64]) -> Record {
    Record {
        cols: v.iter().enumerate().map(|(i, x)| ColumnData { index: i as u32, default: false, data: Some(Data::Int(*x)) }).collect(),
    }
}

#[test]
fn deletes() {
    let t = tables();
    let rows = vec![row(&[1, 0]), row(&[2, 0])];
    // a department that an employee refers to cannot go
    assert!(!check_delete(&s("dept"), &None, &t, &rows, &vec![key(&[2])]));
    assert!(check_delete(&s("dept"), &None, &t, &rows, &vec![key(&[3])]));
    // nobody refers to employees
    assert!(check_delete(&s("emp"), &None, &t, &rows, &vec![key(&[1])]));
    let bad = Some(vec![cmp(c(None, "nope"), Expr::Value(Value::Null))]);
    assert!(!check_delete(&s("emp"), &bad, &t, &rows, &vec![]));
}

#[test]
fn inserts() {
    let t = tables();
    let values = vec![vec![Value::Int(s("3")), Value::Str(s("x"))]];
    let stored = tree_of(&[1]);
    let empty = tree_of(&[]);
    assert!(check_insert_value(&s("dept"), &values, &t, &vec![key(&[3])], &stored, &vec![], &vec![]));
    // a repeated key, stored or new
    assert!(!check_insert_value(&s("dept"), &values, &t, &vec![key(&[1])], &stored, &vec![], &vec![]));
    assert!(!check_insert_value(&s("dept"), &values, &t, &vec![key(&[3]), key(&[3])], &empty, &vec![], &vec![]));
    // NULL where it may not be, a value of another type, a missing value
    assert!(!check_insert_value(&s("dept"), &vec![vec![Value::Null, Value::Null]], &t, &vec![], &empty, &vec![], &vec![]));
    assert!(!check_insert_value(&s("dept"), &vec![vec![Value::Str(s("a")), Value::Null]], &t, &vec![], &empty, &vec![], &vec![]));
    assert!(!check_insert_value(&s("dept"), &vec![vec![Value::Int(s("1"))]], &t, &vec![], &empty, &vec![], &vec![]));
    // the referred department must exist
    let emp = vec![vec![Value::Int(s("9")), Value::Int(s("1"))]];
    assert!(check_insert_value(&s("emp"), &emp, &t, &vec![key(&[9])], &empty, &vec![vec![key(&[1])]], &vec![tree_of(&[1])]));
    assert!(!check_insert_value(&s("emp"), &emp, &t, &vec![key(&[9])], &empty, &vec![vec![key(&[5])]], &vec![tree_of(&[1])]));
}

fn tree_of(keys: &[i64]) -> IndexTree {
    let mut tree = IndexTree::new(1);
    for k in keys {
        tree.insert_record(&key(&[*k]), 0, false);
    }
    tree
}

#[test]
fn updates() {
    let t = tables();
    let set_name = vec![SetClause { col_name: s("name"), value: Value::Str(s("y")) }];
    let set_id = vec![SetClause { col_name: s("id"), value: Value::Int(s("7")) }];
    let none: Vec<RawIndex> = vec![];
    // not a key column: nothing more to check
    assert!(check_update(&s("dept"), &set_name, &None, &t, &vec![key(&[1])], &vec![key(&[1])], &vec![key(&[1])], &vec![key(&[1])], &vec![], &vec![]));
    // a referred key cannot change
    assert!(!check_update(&s("dept"), &set_id, &None, &t, &vec![key(&[1])], &vec![key(&[7])], &vec![key(&[1])], &vec![key(&[1])], &vec![], &vec![]));
    assert!(check_update(&s("dept"), &set_id, &None, &t, &vec![key(&[1])], &vec![key(&[7])], &vec![key(&[1])], &vec![key(&[2])], &vec![], &vec![]));
    // a new key that another row holds
    assert!(!check_update(&s("dept"), &set_id, &None, &t, &vec![key(&[1])], &vec![key(&[2])], &vec![key(&[1]), key(&[2])], &none, &vec![], &vec![]));
    // two rows taking the same key
    assert!(!check_update(&s("dept"), &set_id, &None, &t, &vec![key(&[1]), key(&[2])], &vec![key(&[7]), key(&[7])], &vec![key(&[1]), key(&[2])], &none, &vec![], &vec![]));
    // a column set twice, or of another type
    let twice = vec![set_name[0].clone(), set_name[0].clone()];
    assert!(!check_update(&s("dept"), &twice, &None, &t, &none, &none, &none, &none, &vec![], &vec![]));
    let bad = vec![SetClause { col_name: s("id"), value: Value::Str(s("x")) }];
    assert!(!check_update(&s("dept"), &bad, &None, &t, &none, &none, &none, &none, &vec![], &vec![]));
}
