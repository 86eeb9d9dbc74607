use rua::index::btree::BTree;
use rua::parser::ast::{Column, Field, Type, Value};
use rua::rm::record::{datatype2int, ColumnType, ColumnTypeVec, Type as Stored, TYPE_DATE, TYPE_FLOAT, TYPE_INT, TYPE_NUMERIC, TYPE_STR};
use rua::sm::convert::{primary_column_types_from_column_types, primary_index_from_column_types, print_from_column_types};
use rua::sm::check::{
    check_create_table, check_drop_column, check_drop_constraint_foreign_key, check_drop_constraint_primary_key,
    check_drop_primary_key, check_drop_table, table_foreign_this_table, TableMeta,
};

fn s(x: &str) -> String {
    x.to_string()
}

fn col(tb: &str, name: &str, index: u32, kind: Stored) -> ColumnType {
    ColumnType {
        tb_name: s(tb),
        name: s(name),
        index,
        data_type: kind,
        numeric_precision: 0,
        can_be_null: true,
        has_index: false,
        has_default: false,
        is_primary: false,
        is_foreign: false,
        default_null: false,
        foreign_table_name: String::new(),
        foreign_table_column: String::new(),
    }
}

fn fk_col(tb: &str, name: &str, index: u32, kind: Stored, to: &str) -> ColumnType {
    let mut c = col(tb, name, index, kind);
    c.is_foreign = true;
    c.foreign_table_name = s(to);
    c.foreign_table_column = s("id");
    c
}

fn tree(cols: Vec<u32>, name: &str, ty: u8) -> BTree {
    BTree { root: 0, index_col: cols, index_name: s(name), ty }
}

/// `dept(id INT, name VARCHAR)` with primary key `(id)`, and `emp(id, dept)` where
/// `emp.dept` refers to `dept`.
fn catalog() -> Vec<TableMeta> {
    vec![
        TableMeta {
            name: s("dept"),
            cols: vec![col("dept", "id", 0, Stored::Int(None)), col("dept", "name", 1, Stored::Str(None))],
            btrees: vec![tree(vec![], "", 0), tree(vec![0], "pk_dept", 1)],
        },
        TableMeta {
            name: s("emp"),
            cols: vec![col("emp", "id", 0, Stored::Int(None)), fk_col("emp", "dept", 1, Stored::Int(None), "dept")],
            btrees: vec![
                tree(vec![], "", 0),
                tree(vec![0, 1], "pk_emp", 1),
                tree(vec![1], "fk_dept dept", 3),
            ],
        },
    ]
}

fn column(name: &str, ty: Type, default_value: Option<Value>) -> Field {
    Field::ColumnField { col_name: s(name), ty, not_null: false, default_value }
}

fn names(v: &[&str]) -> Vec<String> {
    v.iter().map(|x| s(x)).collect()
}

#[test]
fn kinds() {
    assert_eq!(datatype2int(&Stored::Int(None)), TYPE_INT);
    assert_eq!(datatype2int(&Stored::Str(None)), TYPE_STR);
    assert_eq!(datatype2int(&Stored::Float(None)), TYPE_FLOAT);
    assert_eq!(datatype2int(&Stored::Date(Some(3))), TYPE_DATE);
    assert_eq!(datatype2int(&Stored::Numeric(None)), TYPE_NUMERIC);
    assert_eq!(Stored::Str(None).to_string(), "VARCHAR");
    assert_eq!(Stored::Numeric(Some(1)).to_string(), "NUMERIC");
    assert!(Stored::Int(None).of_same_type(&Type::Int(4)));
    assert!(Stored::Str(None).of_same_type(&Type::Varchar(10)));
    assert!(Stored::Date(None).of_same_type(&Type::Date));
    assert!(Stored::Float(None).of_same_type(&Type::Float));
    assert!(!Stored::Int(None).of_same_type(&Type::Varchar(4)));
    assert!(!Stored::Numeric(None).of_same_type(&Type::Numeric(4, 2)));
    assert!(matches!(Stored::default(), Stored::Int(None)));
}

#[test]
fn default_strings() {
    assert_eq!(Stored::Int(Some(-42)).get_default_string(), "-42");
    assert_eq!(Stored::Int(None).get_default_string(), "NULL");
    assert_eq!(Stored::Str(Some(s("abc"))).get_default_string(), "abc");
    assert_eq!(Stored::Float(Some(s("1.5"))).get_default_string(), "1.5");
    assert_eq!(Stored::Date(Some(1575185880)).get_default_string(), "1575185880");
    assert_eq!(Stored::Numeric(Some(0)).get_default_string(), "0");
    assert_eq!(Stored::Date(None).get_default_string(), "NULL");
}

#[test]
fn table_description() {
    let mut id = col("t", "id", 0, Stored::Int(None));
    id.is_primary = true;
    id.can_be_null = false;
    let name = col("t", "name", 1, Stored::Str(Some(s("x"))));
    let day = col("t", "day", 2, Stored::Date(None));
    let cts = vec![id.clone(), name.clone(), day.clone()];
    assert_eq!(
        print_from_column_types(&cts),
        vec![s("id\nname\nday"), s("INT\nVARCHAR\nDATE"), s("NO\nYES\nYES"), s("PRI\nMUL\n"), s("NULL\nx\nNULL")]
    );
    assert_eq!(print_from_column_types(&vec![]), vec![s(""), s(""), s(""), s(""), s("")]);
    assert_eq!(id.print(true), vec![s("id"), s("INT"), s("NO"), s("PRI"), s("NULL")]);
    assert_eq!(day.print(false), vec![s("day"), s("DATE"), s("YES"), s(""), s("NULL")]);
    let v = ColumnTypeVec { cols: cts.clone() };
    assert_eq!(v.print(2), vec![s("id\nname\nday"), s("INT\nVARCHAR\nDATE")]);
    assert_eq!(v.get_primary_index(), vec![0]);
    assert_eq!(primary_index_from_column_types(&cts), vec![0]);
    let keys = primary_column_types_from_column_types(&cts);
    assert_eq!(keys.len(), 1);
    assert_eq!(keys[0].name, "id");
}

#[test]
fn column_match() {
    let c = col("emp", "id", 0, Stored::Int(None));
    assert!(c.match_(&Column { tb_name: None, col_name: s("id") }));
    assert!(c.match_(&Column { tb_name: Some(s("emp")), col_name: s("id") }));
    assert!(!c.match_(&Column { tb_name: Some(s("dept")), col_name: s("id") }));
    assert!(!c.match_(&Column { tb_name: None, col_name: s("name") }));
}

#[test]
fn plain_table_creation() {
    let tables = catalog();
    let fields = vec![
        column("a", Type::Int(4), Some(Value::Int(s("1")))),
        column("b", Type::Varchar(8), Some(Value::Null)),
        Field::PrimaryKeyField { column_list: names(&["a"]) },
    ];
    assert!(check_create_table(&fields, &tables));
    assert!(check_create_table(&vec![], &tables));
}

#[test]
fn refused_columns() {
    let tables = catalog();
    // a name twice
    assert!(!check_create_table(&vec![column("a", Type::Int(4), None), column("a", Type::Date, None)], &tables));
    // a default of another type
    assert!(!check_create_table(&vec![column("a", Type::Int(4), Some(Value::Str(s("x"))))], &tables));
    // two primary keys
    let two_keys = vec![
        column("a", Type::Int(4), None),
        Field::PrimaryKeyField { column_list: names(&["a"]) },
        Field::PrimaryKeyField { column_list: names(&["a"]) },
    ];
    assert!(!check_create_table(&two_keys, &tables));
    // a key over an undeclared column, or over a column twice
    let unknown = vec![column("a", Type::Int(4), None), Field::PrimaryKeyField { column_list: names(&["b"]) }];
    assert!(!check_create_table(&unknown, &tables));
    let twice = vec![column("a", Type::Int(4), None), Field::PrimaryKeyField { column_list: names(&["a", "a"]) }];
    assert!(!check_create_table(&twice, &tables));
}

fn with_foreign(ty: Type, to: &str, fcols: &[&str]) -> Vec<Field> {
    vec![
        column("d", ty, None),
        column("e", Type::Int(4), None),
        Field::ForeignKeyField {
            column_list: names(&["d", "e"][..fcols.len()]),
            foreign_tb_name: s(to),
            foreign_column_list: names(fcols),
        },
    ]
}

#[test]
fn foreign_keys() {
    let tables = catalog();
    assert!(check_create_table(&with_foreign(Type::Int(4), "dept", &["id"]), &tables));
    // each column must be of the kind of the column it refers to
    assert!(!check_create_table(&with_foreign(Type::Int(4), "dept", &["id", "name"]), &tables));
    // the referred columns may go on past the primary key
    let longer = vec![
        column("d", Type::Int(4), None),
        column("e", Type::Varchar(4), None),
        Field::ForeignKeyField {
            column_list: names(&["d", "e"]),
            foreign_tb_name: s("dept"),
            foreign_column_list: names(&["id", "name"]),
        },
    ];
    assert!(check_create_table(&longer, &tables));
    // no such table, no such column, a column of another kind
    assert!(!check_create_table(&with_foreign(Type::Int(4), "none", &["id"]), &tables));
    assert!(!check_create_table(&with_foreign(Type::Int(4), "dept", &["code"]), &tables));
    assert!(!check_create_table(&with_foreign(Type::Date, "dept", &["id"]), &tables));
    // the referred columns must begin with the primary key
    assert!(!check_create_table(&with_foreign(Type::Varchar(4), "dept", &["name"]), &tables));
    // as many columns on both sides
    let uneven = vec![
        column("d", Type::Int(4), None),
        Field::ForeignKeyField {
            column_list: names(&["d"]),
            foreign_tb_name: s("dept"),
            foreign_column_list: names(&["id", "name"]),
        },
    ];
    assert!(!check_create_table(&uneven, &tables));
    // a table without a primary key cannot be referred to
    let mut bare = catalog();
    bare[0].btrees.pop();
    assert!(!check_create_table(&with_foreign(Type::Int(4), "dept", &["id"]), &bare));
}

#[test]
fn referring_tables() {
    let tables = catalog();
    assert_eq!(table_foreign_this_table(&s("dept"), &tables), vec![s("emp")]);
    assert_eq!(table_foreign_this_table(&s("emp"), &tables), Vec::<String>::new());
    assert!(!check_drop_table(&s("dept"), &tables));
    assert!(check_drop_table(&s("emp"), &tables));
    assert!(check_drop_table(&s("none"), &tables));
}

#[test]
fn column_drops() {
    let tables = catalog();
    // the whole primary key of a table that is referred to
    assert!(!check_drop_column(&s("dept"), &s("id"), &tables));
    assert!(check_drop_column(&s("dept"), &s("name"), &tables));
    assert!(!check_drop_column(&s("dept"), &s("none"), &tables));
    // part of a primary key over two columns
    assert!(!check_drop_column(&s("emp"), &s("dept"), &tables));
    // the whole primary key of a table nobody refers to
    let mut solo = catalog();
    solo[1].btrees[1].index_col = vec![0];
    assert!(check_drop_column(&s("emp"), &s("id"), &solo));
    // a column in an index over two columns
    solo[1].btrees.push(tree(vec![1, 0], "idx", 2));
    assert!(!check_drop_column(&s("emp"), &s("dept"), &solo));
}

#[test]
fn key_drops() {
    let tables = catalog();
    assert!(!check_drop_primary_key(&s("dept"), &tables));
    assert!(check_drop_primary_key(&s("emp"), &tables));
    let mut bare = catalog();
    bare[1].btrees.remove(1);
    assert!(!check_drop_primary_key(&s("emp"), &bare));
    // the named key is refused, any other name accepted
    assert!(!check_drop_constraint_primary_key(&s("emp"), &s("pk_emp"), &tables));
    assert!(check_drop_constraint_primary_key(&s("emp"), &s("other"), &tables));
    assert!(!check_drop_constraint_primary_key(&s("dept"), &s("other"), &tables));
    assert!(check_drop_constraint_foreign_key(&s("emp"), &s("fk_dept"), &tables));
    assert!(!check_drop_constraint_foreign_key(&s("emp"), &s("dept"), &tables));
    assert!(!check_drop_constraint_foreign_key(&s("dept"), &s("fk_dept"), &tables));
}

use rua::parser::ast::Column as NamedColumn;
use rua::rm::record::{ColumnData, Data, Record, RecordList};

fn row(values: Vec<Option<Data>>) -> Record {
    Record {
        cols: values
            .into_iter()
            .enumerate()
            .map(|(i, data)| ColumnData { index: i as u32, default: false, data })
            .collect(),
    }
}

#[test]
fn record_columns() {
    let ty = vec![col("t", "a", 0, Stored::Int(None)), col("t", "b", 1, Stored::Str(None))];
    let r = row(vec![Some(Data::Int(1)), None]);
    assert!(matches!(r.get_match_data(&NamedColumn { tb_name: None, col_name: s("a") }, &ty), Some(Data::Int(1))));
    assert!(r.get_match_data(&NamedColumn { tb_name: None, col_name: s("b") }, &ty).is_none());
    assert!(r.get_match_data(&NamedColumn { tb_name: Some(s("u")), col_name: s("a") }, &ty).is_none());
    assert!(r.cols[0].same(&ColumnData { index: 0, default: true, data: Some(Data::Int(1)) }));
    assert!(!r.cols[0].same(&ColumnData { index: 0, default: false, data: None }));
    assert!(r.cols[1].same(&ColumnData { index: 1, default: false, data: None }));
    assert!(!r.cols[1].same(&ColumnData { index: 0, default: false, data: None }));
    let sub = r.sub_record(&vec![1, 0]);
    assert_eq!(sub.cols.len(), 2);
    assert_eq!(sub.cols[0].index, 1);
    assert!(matches!(sub.cols[1].data, Some(Data::Int(1))));
    let list = RecordList { ty, record: vec![r, row(vec![Some(Data::Int(2)), Some(Data::Str(s("z")))])] };
    let only_b = list.sub_record_list(&vec![1]);
    assert_eq!(only_b.ty.len(), 1);
    assert_eq!(only_b.ty[0].name, "b");
    assert_eq!(only_b.record.len(), 2);
    assert!(only_b.record[0].cols[0].data.is_none());
    assert!(matches!(&only_b.record[1].cols[0].data, Some(Data::Str(x)) if x == "z"));
}
