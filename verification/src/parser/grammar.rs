//! The statement grammar, stated two ways: how each piece of the syntax tree is written as
//! tokens (`render_*`), and which token runs a left-to-right reader accepts (`sp_*`, each
//! giving where the piece it reads ends).
use vstd::prelude::*;
use crate::parser::ast::{
    AlterStmt, Column, DatabaseStmt, Expr, Field, IndexStmt, Op, Selector, SetClause, Sql, Stmt,
    SystemStmt, TableStmt, Type, Value, WhereClause,
};
use crate::parser::lexer::{Kw, STok};
use crate::utils::text::int_chars;

verus! {

// ---------------------------------------------------------------- rendering

/// Items joined by a separator.
pub open spec fn sep_render<A>(s: Seq<A>, f: spec_fn(A) -> Seq<STok>, sep: STok) -> Seq<STok>
    decreases s.len(),
{
    if s.len() == 0 {
        Seq::empty()
    } else if s.len() == 1 {
        f(s[0])
    } else {
        sep_render(s.drop_last(), f, sep) + seq![sep] + f(s.last())
    }
}

pub proof fn lemma_sep_render_push<A>(s: Seq<A>, f: spec_fn(A) -> Seq<STok>, sep: STok, x: A)
    ensures
        sep_render(s.push(x), f, sep) == if s.len() == 0 {
            f(x)
        } else {
            sep_render(s, f, sep) + seq![sep] + f(x)
        },
{
    assert(s.push(x).drop_last() =~= s);
    assert(s.push(x).last() == x);
    if s.len() == 0 {
        assert(s.push(x)[0] == x);
    }
}

pub open spec fn kw(k: Kw) -> STok {
    STok::Kw(k)
}

pub open spec fn tok_name(n: String) -> Seq<STok> {
    seq![STok::Ident(n@)]
}

pub open spec fn paren(x: Seq<STok>) -> Seq<STok> {
    seq![STok::LParen] + x + seq![STok::RParen]
}

pub open spec fn render_names(s: Seq<String>) -> Seq<STok> {
    sep_render(s, |n: String| tok_name(n), STok::Comma)
}

pub open spec fn size_tok(n: i64) -> STok {
    STok::Int(int_chars(n as int))
}

pub open spec fn render_type(ty: Type) -> Seq<STok> {
    match ty {
        Type::Int(n) => seq![kw(Kw::Int), STok::LParen, size_tok(n), STok::RParen],
        Type::Varchar(n) => seq![kw(Kw::Varchar), STok::LParen, size_tok(n), STok::RParen],
        Type::Date => seq![kw(Kw::Date)],
        Type::Float => seq![kw(Kw::Float)],
        Type::Numeric(a, b) => seq![
            kw(Kw::Numeric),
            STok::LParen,
            size_tok(a),
            STok::Comma,
            size_tok(b),
            STok::RParen,
        ],
    }
}

pub open spec fn render_value(v: Value) -> Seq<STok> {
    match v {
        Value::Int(s) => seq![STok::Int(s@)],
        Value::Str(s) => seq![STok::Str(s@)],
        Value::Float(s) => seq![STok::Float(s@)],
        Value::Date(s) => seq![STok::Date(s@)],
        Value::Null => seq![kw(Kw::Null)],
    }
}

pub open spec fn render_not_null(not_null: bool) -> Seq<STok> {
    if not_null {
        seq![kw(Kw::Not), kw(Kw::Null)]
    } else {
        Seq::empty()
    }
}

pub open spec fn render_default(d: Option<Value>) -> Seq<STok> {
    match d {
        Some(v) => seq![kw(Kw::Default)] + render_value(v),
        None => Seq::empty(),
    }
}

pub open spec fn render_field(f: Field) -> Seq<STok> {
    match f {
        Field::ColumnField { col_name, ty, not_null, default_value } => tok_name(col_name)
            + render_type(ty) + render_not_null(not_null) + render_default(default_value),
        Field::PrimaryKeyField { column_list } => seq![kw(Kw::Primary), kw(Kw::Key)] + paren(
            render_names(column_list@),
        ),
        Field::ForeignKeyField { column_list, foreign_tb_name, foreign_column_list } => seq![
            kw(Kw::Foreign),
            kw(Kw::Key),
        ] + paren(render_names(column_list@)) + seq![kw(Kw::References)] + tok_name(
            foreign_tb_name,
        ) + paren(render_names(foreign_column_list@)),
    }
}

pub open spec fn render_fields(s: Seq<Field>) -> Seq<STok> {
    sep_render(s, |f: Field| render_field(f), STok::Comma)
}

pub open spec fn render_values(s: Seq<Value>) -> Seq<STok> {
    sep_render(s, |v: Value| render_value(v), STok::Comma)
}

pub open spec fn render_value_list(v: Vec<Value>) -> Seq<STok> {
    paren(render_values(v@))
}

pub open spec fn render_value_lists(s: Seq<Vec<Value>>) -> Seq<STok> {
    sep_render(s, |v: Vec<Value>| render_value_list(v), STok::Comma)
}

pub open spec fn render_column(c: Column) -> Seq<STok> {
    match c.tb_name {
        Some(tb) => seq![STok::Ident(tb@), STok::Dot, STok::Ident(c.col_name@)],
        None => seq![STok::Ident(c.col_name@)],
    }
}

pub open spec fn op_tok(op: Op) -> STok {
    match op {
        Op::Equal => STok::Eq,
        Op::NotEqual => STok::Ne,
        Op::LessEqual => STok::Le,
        Op::GreaterEqual => STok::Ge,
        Op::Less => STok::Lt,
        Op::Greater => STok::Gt,
    }
}

pub open spec fn render_expr(e: Expr) -> Seq<STok> {
    match e {
        Expr::Value(v) => render_value(v),
        Expr::Column(c) => render_column(c),
    }
}

pub open spec fn render_where(w: WhereClause) -> Seq<STok> {
    match w {
        WhereClause::IsAssert { col, null } => render_column(col) + if null {
            seq![kw(Kw::Is), kw(Kw::Null)]
        } else {
            seq![kw(Kw::Is), kw(Kw::Not), kw(Kw::Null)]
        },
        WhereClause::Comparison { col, op, expr } => render_column(col) + seq![op_tok(op)]
            + render_expr(expr),
    }
}

pub open spec fn render_wheres(s: Seq<WhereClause>) -> Seq<STok> {
    sep_render(s, |w: WhereClause| render_where(w), kw(Kw::And))
}

pub open spec fn render_opt_where(o: Option<Vec<WhereClause>>) -> Seq<STok> {
    match o {
        Some(v) => seq![kw(Kw::Where)] + render_wheres(v@),
        None => Seq::empty(),
    }
}

pub open spec fn render_set(c: SetClause) -> Seq<STok> {
    seq![STok::Ident(c.col_name@), STok::Eq] + render_value(c.value)
}

pub open spec fn render_sets(s: Seq<SetClause>) -> Seq<STok> {
    sep_render(s, |c: SetClause| render_set(c), STok::Comma)
}

pub open spec fn render_columns(s: Seq<Column>) -> Seq<STok> {
    sep_render(s, |c: Column| render_column(c), STok::Comma)
}

pub open spec fn render_selector(s: Selector) -> Seq<STok> {
    match s {
        Selector::All => seq![STok::Star],
        Selector::Columns(v) => render_columns(v@),
    }
}

/// `alter table <name>`
pub open spec fn alter_head(tb: String) -> Seq<STok> {
    seq![kw(Kw::Alter), kw(Kw::Table), STok::Ident(tb@)]
}

pub open spec fn render_stmt(s: Stmt) -> Seq<STok> {
    match s {
        Stmt::System(SystemStmt::ShowDatabases) => seq![kw(Kw::Show), kw(Kw::Databases)],
        Stmt::Database(d) => match d {
            DatabaseStmt::CreateDatabase { db_name } => seq![kw(Kw::Create), kw(Kw::Database)]
                + tok_name(db_name),
            DatabaseStmt::DropDatabase { db_name } => seq![kw(Kw::Drop), kw(Kw::Database)]
                + tok_name(db_name),
            DatabaseStmt::UseDatabase { db_name } => seq![kw(Kw::Use)] + tok_name(db_name),
            DatabaseStmt::ShowTables => seq![kw(Kw::Show), kw(Kw::Tables)],
        },
        Stmt::Table(t) => match t {
            TableStmt::CreateTable { tb_name, field_list } => seq![kw(Kw::Create), kw(Kw::Table)]
                + tok_name(tb_name) + paren(render_fields(field_list@)),
            TableStmt::DropTable { tb_name } => seq![kw(Kw::Drop), kw(Kw::Table)] + tok_name(
                tb_name,
            ),
            TableStmt::Desc { tb_name } => seq![kw(Kw::Desc)] + tok_name(tb_name),
            TableStmt::Insert { tb_name, value_lists } => seq![kw(Kw::Insert), kw(Kw::Into)]
                + tok_name(tb_name) + seq![kw(Kw::Values)] + render_value_lists(value_lists@),
            TableStmt::Delete { tb_name, where_clause } => seq![kw(Kw::Delete), kw(Kw::From)]
                + tok_name(tb_name) + render_opt_where(where_clause),
            TableStmt::Update { tb_name, set_clause, where_clause } => seq![kw(Kw::Update)]
                + tok_name(tb_name) + seq![kw(Kw::SetKw)] + render_sets(set_clause@)
                + render_opt_where(where_clause),
            TableStmt::Select { table_list, selector, where_clause } => seq![kw(Kw::Select)]
                + render_selector(selector) + seq![kw(Kw::From)] + render_names(table_list@)
                + render_opt_where(where_clause),
        },
        Stmt::Index(i) => match i {
            IndexStmt::CreateIndex { idx_name, tb_name, column_list } => seq![
                kw(Kw::Create),
                kw(Kw::Index),
            ] + tok_name(idx_name) + seq![kw(Kw::On)] + tok_name(tb_name) + paren(
                render_names(column_list@),
            ),
            IndexStmt::DropIndex { idx_name, tb_name } => seq![kw(Kw::Drop), kw(Kw::Index)]
                + tok_name(idx_name) + seq![kw(Kw::On)] + tok_name(tb_name),
            IndexStmt::AlterAddIndex { idx_name, tb_name, column_list } => alter_head(tb_name)
                + seq![kw(Kw::Add), kw(Kw::Index)] + tok_name(idx_name) + paren(
                render_names(column_list@),
            ),
            IndexStmt::AlterDropIndex { idx_name, tb_name } => alter_head(tb_name) + seq![
                kw(Kw::Drop),
                kw(Kw::Index),
            ] + tok_name(idx_name),
        },
        Stmt::Alter(a) => match a {
            AlterStmt::AddColumn { tb_name, field } => alter_head(tb_name) + seq![kw(Kw::Add)]
                + render_field(field),
            AlterStmt::DropColumn { tb_name, col_name } => alter_head(tb_name) + seq![
                kw(Kw::Drop),
            ] + tok_name(col_name),
            AlterStmt::ChangeColumn { tb_name, col_name, field } => alter_head(tb_name) + seq![
                kw(Kw::Change),
            ] + tok_name(col_name) + render_field(field),
            AlterStmt::RenameTable { tb_name, new_name } => alter_head(tb_name) + seq![
                kw(Kw::Rename),
                kw(Kw::To),
            ] + tok_name(new_name),
            AlterStmt::AddPrimaryKey { tb_name, column_list } => alter_head(tb_name) + seq![
                kw(Kw::Add),
                kw(Kw::Primary),
                kw(Kw::Key),
            ] + paren(render_names(column_list@)),
            AlterStmt::DropPrimaryKey { tb_name } => alter_head(tb_name) + seq![
                kw(Kw::Drop),
                kw(Kw::Primary),
                kw(Kw::Key),
            ],
            AlterStmt::AddConstraintPrimaryKey { tb_name, pk_name, column_list } => alter_head(
                tb_name,
            ) + seq![kw(Kw::Add), kw(Kw::Constraint)] + tok_name(pk_name) + seq![
                kw(Kw::Primary),
                kw(Kw::Key),
            ] + paren(render_names(column_list@)),
            AlterStmt::DropConstraintPrimaryKey { tb_name, pk_name } => alter_head(tb_name)
                + seq![kw(Kw::Drop), kw(Kw::Primary), kw(Kw::Key)] + tok_name(pk_name),
            AlterStmt::AddConstraintForeignKey {
                tb_name,
                fk_name,
                column_list,
                foreign_tb_name,
                foreign_column_list,
            } => alter_head(tb_name) + seq![kw(Kw::Add), kw(Kw::Constraint)] + tok_name(fk_name)
                + seq![kw(Kw::Foreign), kw(Kw::Key)] + paren(render_names(column_list@)) + seq![
                kw(Kw::References),
            ] + tok_name(foreign_tb_name) + paren(render_names(foreign_column_list@)),
            AlterStmt::DropConstraintForeignKey { tb_name, fk_name } => alter_head(tb_name)
                + seq![kw(Kw::Drop), kw(Kw::Foreign), kw(Kw::Key)] + tok_name(fk_name),
        },
        Stmt::Copy(c) => seq![kw(Kw::Copy)] + tok_name(c.tb_name) + seq![
            kw(Kw::From),
            STok::Str(c.path@),
        ],
    }
}

/// Each statement followed by `;`.
pub open spec fn render_stmts(s: Seq<Stmt>) -> Seq<STok>
    decreases s.len(),
{
    if s.len() == 0 {
        Seq::empty()
    } else {
        render_stmts(s.drop_last()) + render_stmt(s.last()) + seq![STok::Semi]
    }
}

pub open spec fn render_sql(q: Sql) -> Seq<STok> {
    render_stmts(q.stmt_list@)
}

// ---------------------------------------------------------------- well-formed trees

/// The lists that the syntax writes with at least one item are not empty.
pub open spec fn wf_field(f: Field) -> bool {
    match f {
        Field::ColumnField { .. } => true,
        Field::PrimaryKeyField { column_list } => column_list@.len() >= 1,
        Field::ForeignKeyField { column_list, foreign_column_list, .. } => column_list@.len() >= 1
            && foreign_column_list@.len() >= 1,
    }
}

pub open spec fn wf_opt_where(o: Option<Vec<WhereClause>>) -> bool {
    match o {
        Some(v) => v@.len() >= 1,
        None => true,
    }
}

pub open spec fn wf_stmt(s: Stmt) -> bool {
    match s {
        Stmt::Table(t) => match t {
            TableStmt::CreateTable { field_list, .. } => field_list@.len() >= 1 && forall|i: int|
                0 <= i < field_list@.len() ==> wf_field(#[trigger] field_list@[i]),
            TableStmt::Insert { value_lists, .. } => value_lists@.len() >= 1 && forall|i: int|
                0 <= i < value_lists@.len() ==> (#[trigger] value_lists@[i])@.len() >= 1,
            TableStmt::Delete { where_clause, .. } => wf_opt_where(where_clause),
            TableStmt::Update { set_clause, where_clause, .. } => set_clause@.len() >= 1
                && wf_opt_where(where_clause),
            TableStmt::Select { table_list, selector, where_clause } => table_list@.len() >= 1
                && (match selector {
                Selector::Columns(v) => v@.len() >= 1,
                Selector::All => true,
            }) && wf_opt_where(where_clause),
            _ => true,
        },
        Stmt::Index(i) => match i {
            IndexStmt::CreateIndex { column_list, .. } => column_list@.len() >= 1,
            IndexStmt::AlterAddIndex { column_list, .. } => column_list@.len() >= 1,
            _ => true,
        },
        Stmt::Alter(a) => match a {
            AlterStmt::AddColumn { field, .. } => field is ColumnField,
            AlterStmt::ChangeColumn { field, .. } => field is ColumnField,
            AlterStmt::AddPrimaryKey { column_list, .. } => column_list@.len() >= 1,
            AlterStmt::AddConstraintPrimaryKey { column_list, .. } => column_list@.len() >= 1,
            AlterStmt::AddConstraintForeignKey { column_list, foreign_column_list, .. } =>
                column_list@.len() >= 1 && foreign_column_list@.len() >= 1,
            _ => true,
        },
        _ => true,
    }
}

pub open spec fn wf_sql(q: Sql) -> bool {
    forall|i: int| 0 <= i < q.stmt_list@.len() ==> wf_stmt(#[trigger] q.stmt_list@[i])
}

// ---------------------------------------------------------------- reading

/// The tokens from `p` to `k` are read (the reader says `sp`) and are `text`.
pub open spec fn read_as(t: Seq<STok>, p: int, k: int, sp: Option<int>, text: Seq<STok>) -> bool {
    sp == Some(k) && p < k <= t.len() && t.subrange(p, k) == text
}

pub open spec fn is_tok(t: Seq<STok>, i: int, x: STok) -> bool {
    0 <= i < t.len() && t[i] == x
}

pub open spec fn is_kw(t: Seq<STok>, i: int, k: Kw) -> bool {
    is_tok(t, i, STok::Kw(k))
}

pub open spec fn is_ident_at(t: Seq<STok>, i: int) -> bool {
    0 <= i < t.len() && t[i] is Ident
}

/// Items read by `elem` and joined by `sep`, from `p`.
pub open spec fn sp_list(
    t: Seq<STok>,
    p: int,
    elem: spec_fn(Seq<STok>, int) -> Option<int>,
    sep: STok,
) -> Option<int>
    decreases t.len() - p,
{
    match elem(t, p) {
        None => None,
        Some(q) => if p <= q && is_tok(t, q, sep) {
            sp_list(t, q + 1, elem, sep)
        } else {
            Some(q)
        },
    }
}

/// `( inner )`
pub open spec fn sp_paren(t: Seq<STok>, p: int, inner: Option<int>) -> Option<int> {
    match inner {
        Some(q) => if is_tok(t, p, STok::LParen) && is_tok(t, q, STok::RParen) {
            Some(q + 1)
        } else {
            None
        },
        None => None,
    }
}

pub open spec fn sp_name(t: Seq<STok>, p: int) -> Option<int> {
    if is_ident_at(t, p) {
        Some(p + 1)
    } else {
        None
    }
}

pub open spec fn sp_names(t: Seq<STok>, p: int) -> Option<int> {
    sp_list(t, p, |t: Seq<STok>, p: int| sp_name(t, p), STok::Comma)
}

pub open spec fn sp_paren_names(t: Seq<STok>, p: int) -> Option<int> {
    if is_tok(t, p, STok::LParen) {
        sp_paren(t, p, sp_names(t, p + 1))
    } else {
        None
    }
}

/// A width, written as an integer without leading zeros.
pub open spec fn canon_int(s: Seq<char>) -> bool {
    exists|n: i64| int_chars(n as int) == s
}

pub open spec fn is_size_at(t: Seq<STok>, i: int) -> bool {
    0 <= i < t.len() && t[i] is Int && canon_int(t[i]->Int_0)
}

pub open spec fn sp_type(t: Seq<STok>, p: int) -> Option<int> {
    if is_kw(t, p, Kw::Int) || is_kw(t, p, Kw::Varchar) {
        if is_tok(t, p + 1, STok::LParen) && is_size_at(t, p + 2) && is_tok(t, p + 3, STok::RParen) {
            Some(p + 4)
        } else {
            None
        }
    } else if is_kw(t, p, Kw::Date) || is_kw(t, p, Kw::Float) {
        Some(p + 1)
    } else if is_kw(t, p, Kw::Numeric) {
        if is_tok(t, p + 1, STok::LParen) && is_size_at(t, p + 2) && is_tok(t, p + 3, STok::Comma)
            && is_size_at(t, p + 4) && is_tok(t, p + 5, STok::RParen) {
            Some(p + 6)
        } else {
            None
        }
    } else {
        None
    }
}

pub open spec fn is_value_at(t: Seq<STok>, i: int) -> bool {
    0 <= i < t.len() && (t[i] is Int || t[i] is Str || t[i] is Float || t[i] is Date || t[i]
        == kw(Kw::Null))
}

pub open spec fn sp_value(t: Seq<STok>, p: int) -> Option<int> {
    if is_value_at(t, p) {
        Some(p + 1)
    } else {
        None
    }
}

/// `name type [not null] [default value]`
pub open spec fn sp_column_field(t: Seq<STok>, p: int) -> Option<int> {
    if !is_ident_at(t, p) {
        None
    } else {
        match sp_type(t, p + 1) {
            None => None,
            Some(q) => {
                let r = if is_kw(t, q, Kw::Not) {
                    if is_kw(t, q + 1, Kw::Null) {
                        Some(q + 2)
                    } else {
                        None
                    }
                } else {
                    Some(q)
                };
                match r {
                    None => None,
                    Some(r) => if is_kw(t, r, Kw::Default) {
                        sp_value(t, r + 1)
                    } else {
                        Some(r)
                    },
                }
            },
        }
    }
}

/// `foreign key (names) references name (names)`, from the `(`.
pub open spec fn sp_foreign_tail(t: Seq<STok>, p: int) -> Option<int> {
    match sp_paren_names(t, p) {
        Some(q) => if is_kw(t, q, Kw::References) && is_ident_at(t, q + 1) {
            sp_paren_names(t, q + 2)
        } else {
            None
        },
        None => None,
    }
}

pub open spec fn sp_field(t: Seq<STok>, p: int) -> Option<int> {
    if is_kw(t, p, Kw::Primary) {
        if is_kw(t, p + 1, Kw::Key) {
            sp_paren_names(t, p + 2)
        } else {
            None
        }
    } else if is_kw(t, p, Kw::Foreign) {
        if is_kw(t, p + 1, Kw::Key) {
            sp_foreign_tail(t, p + 2)
        } else {
            None
        }
    } else {
        sp_column_field(t, p)
    }
}

pub open spec fn sp_fields(t: Seq<STok>, p: int) -> Option<int> {
    sp_list(t, p, |t: Seq<STok>, p: int| sp_field(t, p), STok::Comma)
}

pub open spec fn sp_values(t: Seq<STok>, p: int) -> Option<int> {
    sp_list(t, p, |t: Seq<STok>, p: int| sp_value(t, p), STok::Comma)
}

pub open spec fn sp_value_list(t: Seq<STok>, p: int) -> Option<int> {
    if is_tok(t, p, STok::LParen) {
        sp_paren(t, p, sp_values(t, p + 1))
    } else {
        None
    }
}

pub open spec fn sp_value_lists(t: Seq<STok>, p: int) -> Option<int> {
    sp_list(t, p, |t: Seq<STok>, p: int| sp_value_list(t, p), STok::Comma)
}

/// `name` or `name . name`
pub open spec fn sp_column(t: Seq<STok>, p: int) -> Option<int> {
    if !is_ident_at(t, p) {
        None
    } else if is_tok(t, p + 1, STok::Dot) {
        if is_ident_at(t, p + 2) {
            Some(p + 3)
        } else {
            None
        }
    } else {
        Some(p + 1)
    }
}

pub open spec fn sp_columns(t: Seq<STok>, p: int) -> Option<int> {
    sp_list(t, p, |t: Seq<STok>, p: int| sp_column(t, p), STok::Comma)
}

pub open spec fn is_op(x: STok) -> bool {
    x == STok::Eq || x == STok::Ne || x == STok::Le || x == STok::Ge || x == STok::Lt || x
        == STok::Gt
}

pub open spec fn sp_expr(t: Seq<STok>, p: int) -> Option<int> {
    if is_ident_at(t, p) {
        sp_column(t, p)
    } else {
        sp_value(t, p)
    }
}

pub open spec fn sp_where(t: Seq<STok>, p: int) -> Option<int> {
    match sp_column(t, p) {
        None => None,
        Some(q) => if is_kw(t, q, Kw::Is) {
            if is_kw(t, q + 1, Kw::Not) {
                if is_kw(t, q + 2, Kw::Null) {
                    Some(q + 3)
                } else {
                    None
                }
            } else if is_kw(t, q + 1, Kw::Null) {
                Some(q + 2)
            } else {
                None
            }
        } else if 0 <= q < t.len() && is_op(t[q]) {
            sp_expr(t, q + 1)
        } else {
            None
        },
    }
}

pub open spec fn sp_wheres(t: Seq<STok>, p: int) -> Option<int> {
    sp_list(t, p, |t: Seq<STok>, p: int| sp_where(t, p), kw(Kw::And))
}

pub open spec fn sp_opt_where(t: Seq<STok>, p: int) -> Option<int> {
    if is_kw(t, p, Kw::Where) {
        sp_wheres(t, p + 1)
    } else {
        Some(p)
    }
}

pub open spec fn sp_set(t: Seq<STok>, p: int) -> Option<int> {
    if is_ident_at(t, p) && is_tok(t, p + 1, STok::Eq) {
        sp_value(t, p + 2)
    } else {
        None
    }
}

pub open spec fn sp_sets(t: Seq<STok>, p: int) -> Option<int> {
    sp_list(t, p, |t: Seq<STok>, p: int| sp_set(t, p), STok::Comma)
}

pub open spec fn sp_selector(t: Seq<STok>, p: int) -> Option<int> {
    if is_tok(t, p, STok::Star) {
        Some(p + 1)
    } else {
        sp_columns(t, p)
    }
}

pub open spec fn then_where(t: Seq<STok>, r: Option<int>) -> Option<int> {
    match r {
        Some(q) => sp_opt_where(t, q),
        None => None,
    }
}

pub open spec fn sp_show(t: Seq<STok>, p: int) -> Option<int> {
    if is_kw(t, p + 1, Kw::Databases) || is_kw(t, p + 1, Kw::Tables) {
        Some(p + 2)
    } else {
        None
    }
}

pub open spec fn sp_create(t: Seq<STok>, p: int) -> Option<int> {
    if is_kw(t, p + 1, Kw::Database) {
        sp_name(t, p + 2)
    } else if is_kw(t, p + 1, Kw::Table) {
        if is_ident_at(t, p + 2) && is_tok(t, p + 3, STok::LParen) {
            sp_paren(t, p + 3, sp_fields(t, p + 4))
        } else {
            None
        }
    } else if is_kw(t, p + 1, Kw::Index) {
        if is_ident_at(t, p + 2) && is_kw(t, p + 3, Kw::On) && is_ident_at(t, p + 4) {
            sp_paren_names(t, p + 5)
        } else {
            None
        }
    } else {
        None
    }
}

pub open spec fn sp_drop(t: Seq<STok>, p: int) -> Option<int> {
    if is_kw(t, p + 1, Kw::Database) || is_kw(t, p + 1, Kw::Table) {
        sp_name(t, p + 2)
    } else if is_kw(t, p + 1, Kw::Index) {
        if is_ident_at(t, p + 2) && is_kw(t, p + 3, Kw::On) {
            sp_name(t, p + 4)
        } else {
            None
        }
    } else {
        None
    }
}

/// What follows `alter table name add`, from the token after `add`.
pub open spec fn sp_alter_add(t: Seq<STok>, p: int) -> Option<int> {
    if is_kw(t, p, Kw::Index) {
        if is_ident_at(t, p + 1) {
            sp_paren_names(t, p + 2)
        } else {
            None
        }
    } else if is_kw(t, p, Kw::Primary) {
        if is_kw(t, p + 1, Kw::Key) {
            sp_paren_names(t, p + 2)
        } else {
            None
        }
    } else if is_kw(t, p, Kw::Constraint) {
        if !is_ident_at(t, p + 1) {
            None
        } else if is_kw(t, p + 2, Kw::Primary) && is_kw(t, p + 3, Kw::Key) {
            sp_paren_names(t, p + 4)
        } else if is_kw(t, p + 2, Kw::Foreign) && is_kw(t, p + 3, Kw::Key) {
            sp_foreign_tail(t, p + 4)
        } else {
            None
        }
    } else {
        sp_column_field(t, p)
    }
}

/// What follows `alter table name drop`, from the token after `drop`.
pub open spec fn sp_alter_drop(t: Seq<STok>, p: int) -> Option<int> {
    if is_kw(t, p, Kw::Index) {
        sp_name(t, p + 1)
    } else if is_kw(t, p, Kw::Primary) {
        if is_kw(t, p + 1, Kw::Key) {
            if is_ident_at(t, p + 2) {
                Some(p + 3)
            } else {
                Some(p + 2)
            }
        } else {
            None
        }
    } else if is_kw(t, p, Kw::Foreign) {
        if is_kw(t, p + 1, Kw::Key) {
            sp_name(t, p + 2)
        } else {
            None
        }
    } else {
        sp_name(t, p)
    }
}

pub open spec fn sp_alter(t: Seq<STok>, p: int) -> Option<int> {
    if !(is_kw(t, p + 1, Kw::Table) && is_ident_at(t, p + 2)) {
        None
    } else if is_kw(t, p + 3, Kw::Add) {
        sp_alter_add(t, p + 4)
    } else if is_kw(t, p + 3, Kw::Drop) {
        sp_alter_drop(t, p + 4)
    } else if is_kw(t, p + 3, Kw::Change) {
        if is_ident_at(t, p + 4) {
            sp_column_field(t, p + 5)
        } else {
            None
        }
    } else if is_kw(t, p + 3, Kw::Rename) {
        if is_kw(t, p + 4, Kw::To) {
            sp_name(t, p + 5)
        } else {
            None
        }
    } else {
        None
    }
}

pub open spec fn sp_stmt(t: Seq<STok>, p: int) -> Option<int> {
    if is_kw(t, p, Kw::Show) {
        sp_show(t, p)
    } else if is_kw(t, p, Kw::Create) {
        sp_create(t, p)
    } else if is_kw(t, p, Kw::Drop) {
        sp_drop(t, p)
    } else if is_kw(t, p, Kw::Use) || is_kw(t, p, Kw::Desc) {
        sp_name(t, p + 1)
    } else if is_kw(t, p, Kw::Insert) {
        if is_kw(t, p + 1, Kw::Into) && is_ident_at(t, p + 2) && is_kw(t, p + 3, Kw::Values) {
            sp_value_lists(t, p + 4)
        } else {
            None
        }
    } else if is_kw(t, p, Kw::Delete) {
        if is_kw(t, p + 1, Kw::From) && is_ident_at(t, p + 2) {
            sp_opt_where(t, p + 3)
        } else {
            None
        }
    } else if is_kw(t, p, Kw::Update) {
        if is_ident_at(t, p + 1) && is_kw(t, p + 2, Kw::SetKw) {
            then_where(t, sp_sets(t, p + 3))
        } else {
            None
        }
    } else if is_kw(t, p, Kw::Select) {
        match sp_selector(t, p + 1) {
            Some(q) => if is_kw(t, q, Kw::From) {
                then_where(t, sp_names(t, q + 1))
            } else {
                None
            },
            None => None,
        }
    } else if is_kw(t, p, Kw::Alter) {
        sp_alter(t, p)
    } else if is_kw(t, p, Kw::Copy) {
        if is_ident_at(t, p + 1) && is_kw(t, p + 2, Kw::From) && 0 <= p + 3 < t.len() && t[p
            + 3] is Str {
            Some(p + 4)
        } else {
            None
        }
    } else {
        None
    }
}

/// Statements, each followed by `;`, from `p` to the end.
pub open spec fn sp_sql_from(t: Seq<STok>, p: int) -> bool
    decreases t.len() - p,
{
    if p < 0 || p >= t.len() {
        true
    } else {
        match sp_stmt(t, p) {
            Some(q) => p <= q && is_tok(t, q, STok::Semi) && sp_sql_from(t, q + 1),
            None => false,
        }
    }
}

pub open spec fn sp_sql(t: Seq<STok>) -> bool {
    sp_sql_from(t, 0)
}

} // verus!
