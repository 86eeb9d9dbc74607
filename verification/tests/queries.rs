use rua::index::btree::{BTree, RawIndex};
use rua::index::tree::IndexTree;
use rua::parser::ast::{self, Column, Expr, Op, Value, WhereClause};
use rua::rm::record::{ColumnData, ColumnType, Data, Record, RecordList, Type};
use rua::sm::check::TableMeta;
use rua::sm::conds::create_conds;
use rua::sm::convert::{datatype_from_type, value2data};
use rua::sm::keys::{check_add_constraint_foreign_key, check_add_primary_key};
use rua::utils::convert::{date_to_str, str_to_date};
use rua::sm::query_tree::{Range, RangeCondition};
use rua::sm::select::{NullCondition, PairCondition, ProductNode, ProjectNode, SelectNode};

fn s(x: &str) -> String {
    x.to_string()
}

fn col(tb: &str, name: &str, index: u32) -> ColumnType {
    ColumnType {
        tb_name: s(tb),
        name: s(name),
        index,
        data_type: Type::Int(None),
        numeric_precision: 0,
        can_be_null: true,
        has_index: false,
        has_default: false,
        is_primary: false,
        is_foreign: false,
        default_null: false,
        foreign_table_name: String::new(),
        foreign_table_column: String::new(),
    }
}

fn c(tb: Option<&str>, name: &str) -> Column {
    Column { tb_name: tb.map(s), col_name: s(name) }
}

fn tables() -> Vec<TableMeta> {
    vec![
        TableMeta { name: s("a"), cols: vec![col("a", "x", 0), col("a", "y", 1)], btrees: Vec::<BTree>::new() },
        TableMeta { name: s("b"), cols: vec![col("b", "z", 0)], btrees: Vec::<BTree>::new() },
    ]
}

fn num(v: &str) -> Expr {
    Expr::Value(Value::Int(s(v)))
}

fn is_int(d: &Option<Data>, v: i64) -> bool {
    matches!(d, Some(Data::Int(x)) if *x == v)
}

fn row(v: &[Option<i64>]) -> Record {
    Record {
        cols: v
            .iter()
            .enumerate()
            .map(|(i, x)| ColumnData { index: i as u32, default: false, data: x.map(Data::Int) })
            .collect(),
    }
}

fn cond(name: &str, r: Range) -> RangeCondition {
    RangeCondition { col: c(Some("a"), name), range: r }
}

fn range(min: Option<i64>, min_equal: bool, max: Option<i64>, max_equal: bool) -> Range {
    Range { min: min.map(Data::Int), min_equal, max: max.map(Data::Int), max_equal, not_equal: vec![] }
}

#[test]
fn literal_values() {
    assert!(is_int(&value2data(&Value::Int(s("-42"))), -42));
    assert!(matches!(value2data(&Value::Str(s("hi"))), Some(Data::Str(t)) if t == "hi"));
    assert!(matches!(value2data(&Value::Date(s("2020-01-02"))), Some(Data::Date(1575185880))));
    assert!(value2data(&Value::Null).is_none());
}

#[test]
fn conditions_of_a_where_clause() {
    let t = tables();
    let w = Some(vec![
        WhereClause::Comparison { col: c(None, "x"), op: Op::GreaterEqual, expr: num("3") },
        WhereClause::Comparison { col: c(Some("a"), "x"), op: Op::Less, expr: num("9") },
        WhereClause::Comparison { col: c(None, "x"), op: Op::NotEqual, expr: num("5") },
        WhereClause::IsAssert { col: c(None, "z"), null: true },
        WhereClause::Comparison { col: c(None, "y"), op: Op::Equal, expr: Expr::Column(c(None, "z")) },
    ]);
    let mut rc = Vec::new();
    let mut nc = Vec::new();
    let mut pc = Vec::new();
    create_conds(&t, &w, &mut rc, &mut nc, &mut pc);
    assert_eq!(rc.len(), 1);
    assert_eq!(rc[0].col.tb_name, Some(s("a")));
    assert_eq!(rc[0].col.col_name, s("x"));
    assert!(is_int(&rc[0].range.min, 3) && rc[0].range.min_equal);
    assert!(is_int(&rc[0].range.max, 9) && !rc[0].range.max_equal);
    assert_eq!(rc[0].range.not_equal.len(), 1);
    assert_eq!(nc.len(), 1);
    assert_eq!(nc[0].col.tb_name, Some(s("b")));
    assert!(nc[0].is_null);
    assert_eq!(pc.len(), 1);
    assert_eq!(pc[0].l_col.tb_name, Some(s("a")));
    assert_eq!(pc[0].r_col.tb_name, Some(s("b")));
    assert_eq!(pc[0].op, Op::Equal);

    let mut rc2 = Vec::new();
    let mut nc2 = Vec::new();
    let mut pc2 = Vec::new();
    create_conds(&t, &None, &mut rc2, &mut nc2, &mut pc2);
    assert!(rc2.is_empty() && nc2.is_empty() && pc2.is_empty());
}

#[test]
fn rows_meeting_conditions() {
    let ty = vec![col("a", "x", 0), col("a", "y", 1)];
    let rows = RecordList {
        ty: ty.clone(),
        record: vec![row(&[Some(1), Some(1)]), row(&[Some(4), Some(2)]), row(&[None, Some(3)]), row(&[Some(7), Some(7)])],
    };
    let node = SelectNode { range_conds: vec![cond("x", range(Some(2), true, None, false))], pair_conds: vec![], null_conds: vec![] };
    let out = node.query(rows);
    assert_eq!(out.record.len(), 2);
    assert!(is_int(&out.record[0].cols[0].data, 4));
    assert!(is_int(&out.record[1].cols[0].data, 7));

    let pair = SelectNode {
        range_conds: vec![],
        pair_conds: vec![PairCondition { l_col: c(None, "x"), r_col: c(None, "y"), op: Op::Equal }],
        null_conds: vec![],
    };
    assert!(pair.is_valid(&row(&[Some(7), Some(7)]), &ty));
    assert!(!pair.is_valid(&row(&[Some(4), Some(2)]), &ty));
    assert!(!pair.is_valid(&row(&[None, None]), &ty));

    let null = SelectNode { range_conds: vec![], pair_conds: vec![], null_conds: vec![NullCondition { col: c(None, "x"), is_null: true }] };
    assert!(!null.is_valid(&row(&[None, Some(1)]), &ty));
}

#[test]
fn choosing_an_index() {
    let ty = vec![col("a", "x", 0), col("a", "y", 1)];
    let node = SelectNode {
        range_conds: vec![cond("x", range(Some(2), true, Some(2), true)), cond("y", range(Some(1), false, None, false))],
        pair_conds: vec![],
        null_conds: vec![],
    };
    assert_eq!(node.used_index_count(&vec![0, 1], &ty), 2);
    assert_eq!(node.used_index_count(&vec![1, 0], &ty), 1);
    assert_eq!(node.used_index_count(&vec![], &ty), 0);
    assert_eq!(node.best_index(&vec![vec![1], vec![0, 1], vec![0]], &ty), Some(1));
    let none = SelectNode { range_conds: vec![], pair_conds: vec![], null_conds: vec![] };
    assert_eq!(none.best_index(&vec![vec![0]], &ty), None);
}

#[test]
fn rows_meeting_clauses() {
    let ty = vec![col("a", "x", 0), col("a", "y", 1)];
    let r = row(&[Some(3), None]);
    let lt = WhereClause::Comparison { col: c(None, "x"), op: Op::Less, expr: num("5") };
    let gt = WhereClause::Comparison { col: c(None, "x"), op: Op::Greater, expr: num("5") };
    assert!(r.match_(&lt, &ty));
    assert!(!r.match_(&gt, &ty));
    assert!(r.match_(&WhereClause::IsAssert { col: c(None, "y"), null: true }, &ty));
    assert!(!r.match_(&WhereClause::IsAssert { col: c(None, "x"), null: true }, &ty));
    assert!(r.match_(&WhereClause::IsAssert { col: c(None, "w"), null: false }, &ty));
    let pair = WhereClause::Comparison { col: c(None, "x"), op: Op::Equal, expr: Expr::Column(c(None, "y")) };
    assert!(!r.match_(&pair, &ty));
    let null = WhereClause::Comparison { col: c(None, "x"), op: Op::Equal, expr: Expr::Value(Value::Null) };
    assert!(!r.match_(&null, &ty));
}

#[test]
fn declared_types() {
    assert!(matches!(datatype_from_type(&ast::Type::Int(11), &Some(Value::Int(s("-7")))), Type::Int(Some(-7))));
    assert!(matches!(datatype_from_type(&ast::Type::Int(11), &None), Type::Int(None)));
    assert!(matches!(datatype_from_type(&ast::Type::Varchar(8), &Some(Value::Str(s("ab")))), Type::Str(Some(t)) if t == "ab"));
    assert!(matches!(datatype_from_type(&ast::Type::Date, &Some(Value::Date(s("2020-01-01")))), Type::Date(Some(1575185880))));
    assert!(matches!(datatype_from_type(&ast::Type::Float, &Some(Value::Float(s("1.5")))), Type::Float(Some(t)) if t == "1.5"));
    assert!(matches!(Type::from_type(&ast::Type::Float, &None), Type::Float(None)));
}

#[test]
fn date_text_reads_back() {
    for text in ["2021-03-07", "1000-00-31", "9999-12-01"] {
        assert_eq!(date_to_str(str_to_date(text)), text);
    }
}

fn key(v: &[i64]) -> RawIndex {
    RawIndex { index: v.iter().map(|x| Data::Int(*x)).collect() }
}

fn keyed_tables(pk_on_b: bool) -> Vec<TableMeta> {
    let mut a = tables();
    if pk_on_b {
        a[1].btrees.push(BTree { root: 0, index_col: vec![0], index_name: s("pk"), ty: 1 });
    }
    a[0].btrees.push(BTree { root: 0, index_col: vec![1], index_name: s("fk1 b"), ty: 3 });
    a
}

#[test]
fn adding_a_primary_key() {
    let t = keyed_tables(true);
    let names = vec![s("x")];
    assert!(check_add_primary_key(&s("a"), &names, &t, &vec![key(&[1]), key(&[2])]));
    assert!(!check_add_primary_key(&s("a"), &names, &t, &vec![key(&[1]), key(&[1])]));
    assert!(!check_add_primary_key(&s("a"), &vec![s("x"), s("x")], &t, &vec![]));
    assert!(!check_add_primary_key(&s("a"), &vec![s("w")], &t, &vec![]));
    assert!(!check_add_primary_key(&s("b"), &vec![s("z")], &t, &vec![]));
}

#[test]
fn adding_a_foreign_key() {
    let t = keyed_tables(true);
    let (a, b, fk) = (s("a"), s("b"), s("fk2"));
    let here = vec![s("y")];
    let there = vec![s("z")];
    let mut referred = IndexTree::new(1);
    referred.insert_record(&key(&[1]), 10, false);
    referred.insert_record(&key(&[2]), 20, false);
    assert!(check_add_constraint_foreign_key(&a, &fk, &here, &b, &there, &t, &vec![key(&[2])], &referred));
    assert!(!check_add_constraint_foreign_key(&a, &fk, &here, &b, &there, &t, &vec![key(&[3])], &referred));
    assert!(!check_add_constraint_foreign_key(&a, &s("fk1"), &here, &b, &there, &t, &vec![], &referred));
    assert!(!check_add_constraint_foreign_key(&a, &fk, &here, &s("c"), &there, &t, &vec![], &referred));
    assert!(!check_add_constraint_foreign_key(&a, &fk, &vec![s("x"), s("y")], &b, &there, &t, &vec![], &referred));
    let no_pk = keyed_tables(false);
    assert!(!check_add_constraint_foreign_key(&a, &fk, &here, &b, &there, &no_pk, &vec![], &referred));
}

#[test]
fn joining_tables() {
    let a = RecordList { ty: vec![col("a", "x", 0)], record: vec![row(&[Some(1)]), row(&[Some(2)])] };
    let b = RecordList { ty: vec![col("b", "z", 0)], record: vec![row(&[Some(7)]), row(&[Some(8)]), row(&[None])] };
    let out = ProductNode { son: vec![a, b] }.query();
    assert_eq!(out.ty.len(), 2);
    assert_eq!(out.ty[0].tb_name, "a");
    assert_eq!(out.ty[1].tb_name, "b");
    assert_eq!(out.record.len(), 6);
    assert!(is_int(&out.record[0].cols[0].data, 1) && is_int(&out.record[0].cols[1].data, 7));
    assert!(is_int(&out.record[2].cols[0].data, 1) && out.record[2].cols[1].data.is_none());
    assert!(is_int(&out.record[3].cols[0].data, 2) && is_int(&out.record[3].cols[1].data, 7));
    let single = RecordList { ty: vec![col("a", "x", 0)], record: vec![row(&[Some(5)])] };
    let same = ProductNode { son: vec![single] }.query();
    assert_eq!(same.record.len(), 1);
    let empty = RecordList { ty: vec![col("b", "z", 0)], record: vec![] };
    let one = RecordList { ty: vec![col("a", "x", 0)], record: vec![row(&[Some(5)])] };
    assert_eq!(ProductNode { son: vec![one, empty] }.query().record.len(), 0);
}

#[test]
fn keeping_named_columns() {
    let rows = RecordList { ty: vec![col("a", "x", 0), col("a", "y", 1)], record: vec![row(&[Some(1), Some(2)])] };
    let node = ProjectNode { cols: vec![c(None, "y"), c(Some("a"), "y"), c(None, "w")] };
    assert_eq!(node.selected_columns(&rows.ty), vec![1, 1]);
    let out = node.query(rows);
    assert_eq!(out.ty.len(), 2);
    assert_eq!(out.ty[0].name, "y");
    assert!(is_int(&out.record[0].cols[0].data, 2) && is_int(&out.record[0].cols[1].data, 2));
    let all = ProjectNode { cols: vec![] };
    let rows2 = RecordList { ty: vec![col("a", "x", 0)], record: vec![row(&[Some(3)])] };
    assert_eq!(all.query(rows2).record.len(), 1);
}

#[test]
fn foreign_key_lists_of_different_lengths() {
    let none: Vec<TableMeta> = Vec::new();
    let referred = IndexTree::new(1);
    assert!(!check_add_constraint_foreign_key(&s("zz"), &s("fk"), &vec![s("x"), s("y")], &s("b"), &vec![s("z")], &none, &vec![], &referred));
}
