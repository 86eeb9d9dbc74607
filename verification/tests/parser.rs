use rua::parser::ast::{
    AlterStmt, Column, DatabaseStmt, Expr, Field, IndexStmt, Op, Selector, Stmt, SystemStmt,
    TableStmt, Type, Value, WhereClause,
};
use rua::parser::lexer::{tokenize, Kw, Token};
use rua::parser::sql::{parse_sql, ParseError};

#[test]
fn parser_test() {
    let correct = vec![
        "show databases;",
        "create database test1;",
        "create database test1;show databases;",
        "drop database test1;",
        "use test1;",
        "show tables;",
        "create table tb (c1 date, c2 int(1) not null default 1, c3 varchar(1) default \"default\", c4 float not null, primary key (c1, c2), foreign key (c5) references tb2 (c1));",
        "drop table tb;",
        "desc tb;",
        "insert into tb values (\"1\", 1), (\"2\", 2);",
        "delete from tb where id = 1;",
        "delete from tb;",
        "delete from tb where id = number;",
        "delete from tb where id = number and id = 1;",
        "update tb set id = 1;",
        "update tb set id = 1 where id = number;",
        "select * from tb;",
        "select tb.c1 from tb, tb2 where tb1.id = \"1\";",
        "create index idx on tb (c1, c2);",
        "drop index idx on tb;",
        "alter table tb add index idx (c1, c2);",
        "alter table tb drop index idx;",
        "alter table tb add c1 date not null default 1;",
        "alter table tb drop c1;",
        "alter table tb2 change c1 c1 date default 1;",
        "alter table tb2 rename to tb4;",
        "alter table pk add primary key (c1, c2);",
        "alter table pk drop primary key;",
        "alter table tb add constraint pk primary key (c1, c2);",
        "alter table tb drop primary key pk;",
        "alter table tb add constraint fk foreign key (c1, c2) references ftb (c4, c5);",
        "alter table tb drop foreign key fk;",
    ];
    let incorrect = vec!["1;"];

    for s in &correct {
        assert!(parse_sql(s).is_ok());
    }

    for s in &incorrect {
        assert!(parse_sql(s).is_err());
    }
}

fn name(s: &str) -> String {
    s.to_string()
}

#[test]
fn statements_in_order() {
    let sql = parse_sql("create database test1;show databases;").unwrap();
    assert_eq!(sql.stmt_list.len(), 2);
    assert_eq!(
        sql.stmt_list[0],
        Stmt::Database(DatabaseStmt::CreateDatabase { db_name: name("test1") })
    );
    assert_eq!(sql.stmt_list[1], Stmt::System(SystemStmt::ShowDatabases));
}

#[test]
fn empty_text_has_no_statement() {
    assert_eq!(parse_sql("").unwrap().stmt_list.len(), 0);
    assert_eq!(parse_sql("  \n\t ").unwrap().stmt_list.len(), 0);
}

#[test]
fn keywords_ignore_case() {
    let sql = parse_sql("SHOW Databases;").unwrap();
    assert_eq!(sql.stmt_list[0], Stmt::System(SystemStmt::ShowDatabases));
    let sql = parse_sql("Use MyDb;").unwrap();
    assert_eq!(
        sql.stmt_list[0],
        Stmt::Database(DatabaseStmt::UseDatabase { db_name: name("MyDb") })
    );
}

#[test]
fn create_table_fields() {
    let sql = parse_sql(
        "create table tb (c1 date, c2 int(1) not null default 1, primary key (c1), foreign key (c2) references t2 (d));",
    )
    .unwrap();
    let expected = Stmt::Table(TableStmt::CreateTable {
        tb_name: name("tb"),
        field_list: vec![
            Field::ColumnField { col_name: name("c1"), ty: Type::Date, not_null: false, default_value: None },
            Field::ColumnField {
                col_name: name("c2"),
                ty: Type::Int(1),
                not_null: true,
                default_value: Some(Value::Int(name("1"))),
            },
            Field::PrimaryKeyField { column_list: vec![name("c1")] },
            Field::ForeignKeyField {
                column_list: vec![name("c2")],
                foreign_tb_name: name("t2"),
                foreign_column_list: vec![name("d")],
            },
        ],
    });
    assert_eq!(sql.stmt_list[0], expected);
}

#[test]
fn numeric_widths() {
    let sql = parse_sql("create table t (a numeric(10, -2), b varchar(255));").unwrap();
    match &sql.stmt_list[0] {
        Stmt::Table(TableStmt::CreateTable { field_list, .. }) => {
            assert_eq!(
                field_list[0],
                Field::ColumnField { col_name: name("a"), ty: Type::Numeric(10, -2), not_null: false, default_value: None }
            );
            assert_eq!(
                field_list[1],
                Field::ColumnField { col_name: name("b"), ty: Type::Varchar(255), not_null: false, default_value: None }
            );
        }
        _ => panic!("not a table"),
    }
    // widths are written without leading zeros and fit in 64 bits
    assert!(parse_sql("create table t (a int(01));").is_err());
    assert!(parse_sql("create table t (a int(99999999999999999999));").is_err());
    assert!(parse_sql("create table t (a int(-9223372036854775808));").is_ok());
}

#[test]
fn select_with_conditions() {
    let sql = parse_sql("select tb.c1 from tb, tb2 where tb1.id = \"1\" and c is not null and d <= 2.5;").unwrap();
    let expected = Stmt::Table(TableStmt::Select {
        table_list: vec![name("tb"), name("tb2")],
        selector: Selector::Columns(vec![Column { tb_name: Some(name("tb")), col_name: name("c1") }]),
        where_clause: Some(vec![
            WhereClause::Comparison {
                col: Column { tb_name: Some(name("tb1")), col_name: name("id") },
                op: Op::Equal,
                expr: Expr::Value(Value::Str(name("1"))),
            },
            WhereClause::IsAssert { col: Column { tb_name: None, col_name: name("c") }, null: false },
            WhereClause::Comparison {
                col: Column { tb_name: None, col_name: name("d") },
                op: Op::LessEqual,
                expr: Expr::Value(Value::Float(name("2.5"))),
            },
        ]),
    });
    assert_eq!(sql.stmt_list[0], expected);
}

#[test]
fn comparison_marks() {
    let cases = vec![
        ("=", Op::Equal),
        ("<>", Op::NotEqual),
        ("!=", Op::NotEqual),
        ("<=", Op::LessEqual),
        (">=", Op::GreaterEqual),
        ("<", Op::Less),
        (">", Op::Greater),
    ];
    for (mark, op) in cases {
        let text = format!("delete from t where a {} b;", mark);
        let sql = parse_sql(&text).unwrap();
        let expected = Stmt::Table(TableStmt::Delete {
            tb_name: name("t"),
            where_clause: Some(vec![WhereClause::Comparison {
                col: Column { tb_name: None, col_name: name("a") },
                op: op,
                expr: Expr::Column(Column { tb_name: None, col_name: name("b") }),
            }]),
        });
        assert_eq!(sql.stmt_list[0], expected);
    }
}

#[test]
fn alter_statements() {
    let sql = parse_sql("alter table tb drop primary key; alter table tb drop primary key pk; alter table tb add index idx (a);").unwrap();
    assert_eq!(sql.stmt_list[0], Stmt::Alter(AlterStmt::DropPrimaryKey { tb_name: name("tb") }));
    assert_eq!(
        sql.stmt_list[1],
        Stmt::Alter(AlterStmt::DropConstraintPrimaryKey { tb_name: name("tb"), pk_name: name("pk") })
    );
    assert_eq!(
        sql.stmt_list[2],
        Stmt::Index(IndexStmt::AlterAddIndex { idx_name: name("idx"), tb_name: name("tb"), column_list: vec![name("a")] })
    );
}

#[test]
fn insert_values_and_dates() {
    let sql = parse_sql("insert into t values (-1, '2019-12-01', null), (2.0, \"x y\", 3);").unwrap();
    let expected = Stmt::Table(TableStmt::Insert {
        tb_name: name("t"),
        value_lists: vec![
            vec![Value::Int(name("-1")), Value::Date(name("2019-12-01")), Value::Null],
            vec![Value::Float(name("2.0")), Value::Str(name("x y")), Value::Int(name("3"))],
        ],
    });
    assert_eq!(sql.stmt_list[0], expected);
}

#[test]
fn copy_statement() {
    let sql = parse_sql("copy tb from \"data.txt\";").unwrap();
    match &sql.stmt_list[0] {
        Stmt::Copy(c) => {
            assert_eq!(c.tb_name, "tb");
            assert_eq!(c.path, "data.txt");
        }
        _ => panic!("not a copy"),
    }
}

#[test]
fn errors() {
    assert_eq!(parse_sql("show databases").unwrap_err(), ParseError::UnrecognizedToken { at: 0 });
    assert_eq!(parse_sql("show tables; select;").unwrap_err(), ParseError::UnrecognizedToken { at: 3 });
    assert_eq!(parse_sql("show @ databases;").unwrap_err(), ParseError::InvalidToken);
    assert_eq!(parse_sql("insert into t values (\"open);").unwrap_err(), ParseError::InvalidToken);
    assert!(parse_sql("create table t ();").is_err());
    assert!(parse_sql("delete from t where;").is_err());
    assert!(parse_sql("select * from t;;").is_err());
}

#[test]
fn tokens() {
    let toks = tokenize("Select a.b, 'd' FROM t<>-12 1.5").unwrap();
    let expected = vec![
        Token::Kw(Kw::Select),
        Token::Ident(name("a")),
        Token::Dot,
        Token::Ident(name("b")),
        Token::Comma,
        Token::Date(name("d")),
        Token::Kw(Kw::From),
        Token::Ident(name("t")),
        Token::Ne,
        Token::Int(name("-12")),
        Token::Float(name("1.5")),
    ];
    assert_eq!(toks.len(), expected.len());
    for (a, b) in toks.iter().zip(expected.iter()) {
        assert!(same(a, b));
    }
    assert!(tokenize("a # b").is_none());
}

fn same(a: &Token, b: &Token) -> bool {
    format!("{:?}", a) == format!("{:?}", b)
}
