//! The reader takes back what the renderer writes: the tokens of every well-formed
//! statement list are accepted by `sp_sql`, each piece ending where its rendering ends.
use vstd::prelude::*;
use crate::parser::ast::{
    AlterStmt, Column, DatabaseStmt, Expr, Field, IndexStmt, Selector, SetClause, Sql, Stmt,
    SystemStmt, TableStmt, Type, Value, WhereClause,
};
use crate::parser::grammar::{
    alter_head, canon_int, is_ident_at, is_kw, is_op, is_tok, is_value_at, kw, op_tok, paren,
    render_column, render_columns, render_default, render_expr, render_field, render_fields,
    render_names, render_not_null, render_opt_where, render_selector, render_set, render_sets,
    render_sql, render_stmt, render_stmts, render_type, render_value, render_value_list,
    render_value_lists, render_values, render_where, render_wheres, sep_render, size_tok, sp_alter,
    sp_alter_add, sp_alter_drop, sp_column, sp_column_field, sp_columns, sp_create, sp_drop,
    sp_expr, sp_field, sp_fields, sp_foreign_tail, sp_list, sp_name, sp_names, sp_opt_where,
    sp_paren, sp_paren_names, sp_selector, sp_set, sp_sets, sp_show, sp_sql, sp_sql_from, sp_stmt,
    sp_type, sp_value, sp_value_list, sp_value_lists, sp_values, sp_where, sp_wheres, then_where,
    tok_name, wf_field, wf_opt_where, wf_sql, wf_stmt,
};
use crate::parser::lexer::{Kw, STok};
use crate::utils::text::int_chars;

verus! {

/// `r` stands in `t` from `p` on.
pub open spec fn prefix_at(t: Seq<STok>, p: int, r: Seq<STok>) -> bool {
    0 <= p && p + r.len() <= t.len() && t.subrange(p, p + r.len()) == r
}

pub proof fn lemma_prefix_split(t: Seq<STok>, p: int, a: Seq<STok>, b: Seq<STok>)
    requires
        prefix_at(t, p, a + b),
    ensures
        prefix_at(t, p, a),
        prefix_at(t, p + a.len(), b),
{
    let whole = t.subrange(p, p + (a + b).len());
    assert forall|i: int| 0 <= i < a.len() implies t.subrange(p, p + a.len())[i] == a[i] by {
        assert(whole[i] == t[p + i]);
        assert(whole[i] == (a + b)[i]);
    }
    assert(t.subrange(p, p + a.len()) =~= a);
    assert forall|i: int| 0 <= i < b.len() implies t.subrange(
        p + a.len(),
        p + a.len() + b.len(),
    )[i] == b[i] by {
        assert(whole[a.len() + i] == t[p + a.len() + i]);
        assert(whole[a.len() + i] == (a + b)[a.len() + i]);
    }
    assert(t.subrange(p + a.len(), p + a.len() + b.len()) =~= b);
}

pub proof fn lemma_prefix_index(t: Seq<STok>, p: int, r: Seq<STok>, i: int)
    requires
        prefix_at(t, p, r),
        0 <= i < r.len(),
    ensures
        t[p + i] == r[i],
{
    assert(t.subrange(p, p + r.len())[i] == t[p + i]);
}

/// The first tokens of a prefix.
pub proof fn lemma_prefix_head(t: Seq<STok>, p: int, r: Seq<STok>, n: int)
    requires
        prefix_at(t, p, r),
        0 <= n <= r.len(),
    ensures
        forall|i: int| 0 <= i < n ==> t[p + i] == #[trigger] r[i],
{
    assert forall|i: int| 0 <= i < n implies t[p + i] == #[trigger] r[i] by {
        lemma_prefix_index(t, p, r, i);
    }
}

pub proof fn lemma_paren_open(t: Seq<STok>, a: int, x: Seq<STok>)
    requires
        prefix_at(t, a, paren(x)),
    ensures
        is_tok(t, a, STok::LParen),
        prefix_at(t, a + 1, x),
        is_tok(t, a + 1 + x.len(), STok::RParen),
{
    lemma_prefix_split(t, a, seq![STok::LParen] + x, seq![STok::RParen]);
    lemma_prefix_split(t, a, seq![STok::LParen], x);
    lemma_prefix_index(t, a, seq![STok::LParen], 0);
    lemma_prefix_index(t, a + 1 + x.len(), seq![STok::RParen], 0);
}

pub proof fn lemma_sep_render_front<A>(s: Seq<A>, f: spec_fn(A) -> Seq<STok>, sep: STok)
    requires
        s.len() >= 2,
    ensures
        sep_render(s, f, sep) == f(s[0]) + seq![sep] + sep_render(s.drop_first(), f, sep),
    decreases s.len(),
{
    let dl = s.drop_last();
    let df = s.drop_first();
    assert(sep_render(s, f, sep) == sep_render(dl, f, sep) + seq![sep] + f(s.last()));
    if s.len() == 2 {
        assert(dl[0] == s[0]);
        assert(df[0] == s[1]);
        assert(sep_render(dl, f, sep) == f(dl[0]));
        assert(sep_render(df, f, sep) == f(df[0]));
    } else {
        lemma_sep_render_front(dl, f, sep);
        assert(dl.drop_first() =~= df.drop_last());
        assert(df.last() == s.last());
        assert(dl[0] == s[0]);
        assert(sep_render(df, f, sep) == sep_render(df.drop_last(), f, sep) + seq![sep] + f(
            df.last(),
        ));
        assert(sep_render(s, f, sep) =~= f(s[0]) + seq![sep] + sep_render(df, f, sep));
    }
}

/// A list is read whole when each item is read whole before a separator or the list's end.
pub proof fn lemma_list_reads<A>(
    t: Seq<STok>,
    p: int,
    s: Seq<A>,
    f: spec_fn(A) -> Seq<STok>,
    elem: spec_fn(Seq<STok>, int) -> Option<int>,
    sep: STok,
    k: int,
)
    requires
        s.len() >= 1,
        prefix_at(t, p, sep_render(s, f, sep)),
        k == p + sep_render(s, f, sep).len(),
        !is_tok(t, k, sep),
        forall|i: int, a: int|
            #![trigger s[i], elem(t, a)]
            0 <= i < s.len() && prefix_at(t, a, f(s[i])) && (is_tok(t, a + f(s[i]).len(), sep) || a
                + f(s[i]).len() == k) ==> elem(t, a) == Some(a + f(s[i]).len()),
    ensures
        sp_list(t, p, elem, sep) == Some(k),
    decreases s.len(),
{
    let x = s[0];
    if s.len() == 1 {
        assert(elem(t, p) == Some(p + f(x).len()));
    } else {
        lemma_sep_render_front(s, f, sep);
        let rest = sep_render(s.drop_first(), f, sep);
        lemma_prefix_split(t, p, f(x) + seq![sep], rest);
        lemma_prefix_split(t, p, f(x), seq![sep]);
        lemma_prefix_index(t, p + f(x).len(), seq![sep], 0);
        assert(elem(t, p) == Some(p + f(x).len()));
        let s2 = s.drop_first();
        assert forall|i: int, a: int|
            #![trigger s2[i], elem(t, a)]
            0 <= i < s2.len() && prefix_at(t, a, f(s2[i])) && (is_tok(t, a + f(s2[i]).len(), sep)
                || a + f(s2[i]).len() == k) implies elem(t, a) == Some(a + f(s2[i]).len()) by {
            assert(s2[i] == s[i + 1]);
        }
        lemma_list_reads(t, p + f(x).len() + 1, s2, f, elem, sep, k);
    }
}

// ---------------------------------------------------------------- names, types, values

pub proof fn lemma_names_reads(t: Seq<STok>, p: int, v: Seq<String>)
    requires
        v.len() >= 1,
        prefix_at(t, p, render_names(v)),
        !is_tok(t, p + render_names(v).len(), STok::Comma),
    ensures
        sp_names(t, p) == Some(p + render_names(v).len()),
{
    let f = |n: String| tok_name(n);
    let e = |t: Seq<STok>, p: int| sp_name(t, p);
    let k = p + render_names(v).len();
    assert forall|i: int, a: int|
        #![trigger v[i], e(t, a)]
        0 <= i < v.len() && prefix_at(t, a, f(v[i])) && (is_tok(t, a + f(v[i]).len(), STok::Comma)
            || a + f(v[i]).len() == k) implies e(t, a) == Some(a + f(v[i]).len()) by {
        lemma_prefix_index(t, a, tok_name(v[i]), 0);
    }
    lemma_list_reads(t, p, v, f, e, STok::Comma, k);
}

pub proof fn lemma_paren_names_reads(t: Seq<STok>, p: int, v: Seq<String>)
    requires
        v.len() >= 1,
        prefix_at(t, p, paren(render_names(v))),
    ensures
        sp_paren_names(t, p) == Some(p + paren(render_names(v)).len()),
{
    lemma_paren_open(t, p, render_names(v));
    lemma_names_reads(t, p + 1, v);
}

pub proof fn lemma_type_reads(t: Seq<STok>, p: int, ty: Type)
    requires
        prefix_at(t, p, render_type(ty)),
    ensures
        sp_type(t, p) == Some(p + render_type(ty).len()),
{
    let r = render_type(ty);
    lemma_prefix_index(t, p, r, 0);
    if r.len() > 1 {
        lemma_prefix_index(t, p, r, 1);
        lemma_prefix_index(t, p, r, 2);
        lemma_prefix_index(t, p, r, 3);
    }
    if r.len() > 4 {
        lemma_prefix_index(t, p, r, 4);
        lemma_prefix_index(t, p, r, 5);
    }
    match ty {
        Type::Int(n) => {
            assert(int_chars(n as int) == int_chars(n as int));
        },
        Type::Varchar(n) => {
            assert(int_chars(n as int) == int_chars(n as int));
        },
        Type::Numeric(a, b) => {
            assert(int_chars(a as int) == int_chars(a as int));
            assert(int_chars(b as int) == int_chars(b as int));
        },
        _ => {},
    }
}

pub proof fn lemma_value_reads(t: Seq<STok>, p: int, v: Value)
    requires
        prefix_at(t, p, render_value(v)),
    ensures
        sp_value(t, p) == Some(p + 1),
        render_value(v).len() == 1,
{
    lemma_prefix_index(t, p, render_value(v), 0);
}

// ---------------------------------------------------------------- fields

/// What may follow a column definition: neither `not` nor `default`.
pub open spec fn ends_field(t: Seq<STok>, k: int) -> bool {
    !is_kw(t, k, Kw::Not) && !is_kw(t, k, Kw::Default)
}

pub proof fn lemma_column_field_reads(t: Seq<STok>, p: int, f: Field)
    requires
        f is ColumnField,
        prefix_at(t, p, render_field(f)),
        ends_field(t, p + render_field(f).len()),
    ensures
        sp_column_field(t, p) == Some(p + render_field(f).len()),
{
    match f {
        Field::ColumnField { col_name, ty, not_null, default_value } => {
            let a = tok_name(col_name);
            let b = render_type(ty);
            let c = render_not_null(not_null);
            let d = render_default(default_value);
            lemma_prefix_split(t, p, a + b + c, d);
            lemma_prefix_split(t, p, a + b, c);
            lemma_prefix_split(t, p, a, b);
            lemma_prefix_index(t, p, a, 0);
            lemma_type_reads(t, p + 1, ty);
            let q = p + 1 + b.len();
            if not_null {
                lemma_prefix_head(t, q, c, 2);
            }
            let e = q + c.len();
            match default_value {
                Some(v) => {
                    lemma_prefix_split(t, e, seq![kw(Kw::Default)], render_value(v));
                    lemma_prefix_index(t, e, seq![kw(Kw::Default)], 0);
                    lemma_value_reads(t, e + 1, v);
                },
                None => {},
            }
        },
        _ => {},
    }
}

pub proof fn lemma_foreign_tail_reads(
    t: Seq<STok>,
    p: int,
    a: Seq<String>,
    b: String,
    c: Seq<String>,
)
    requires
        a.len() >= 1,
        c.len() >= 1,
        prefix_at(
            t,
            p,
            paren(render_names(a)) + seq![kw(Kw::References)] + tok_name(b) + paren(
                render_names(c),
            ),
        ),
    ensures
        sp_foreign_tail(t, p) == Some(
            p + (paren(render_names(a)) + seq![kw(Kw::References)] + tok_name(b) + paren(
                render_names(c),
            )).len(),
        ),
{
    let x = paren(render_names(a));
    let y = seq![kw(Kw::References)];
    let z = tok_name(b);
    let w = paren(render_names(c));
    lemma_prefix_split(t, p, x + y + z, w);
    lemma_prefix_split(t, p, x + y, z);
    lemma_prefix_split(t, p, x, y);
    lemma_paren_names_reads(t, p, a);
    lemma_prefix_index(t, p + x.len(), y, 0);
    lemma_prefix_index(t, p + x.len() + 1, z, 0);
    lemma_paren_names_reads(t, p + x.len() + 2, c);
}

pub proof fn lemma_field_reads(t: Seq<STok>, p: int, f: Field)
    requires
        wf_field(f),
        prefix_at(t, p, render_field(f)),
        ends_field(t, p + render_field(f).len()),
    ensures
        sp_field(t, p) == Some(p + render_field(f).len()),
{
    match f {
        Field::ColumnField { col_name, .. } => {
            lemma_prefix_index(t, p, render_field(f), 0);
            lemma_column_field_reads(t, p, f);
        },
        Field::PrimaryKeyField { column_list } => {
            let h = seq![kw(Kw::Primary), kw(Kw::Key)];
            lemma_prefix_split(t, p, h, paren(render_names(column_list@)));
            lemma_prefix_head(t, p, h, 2);
            lemma_paren_names_reads(t, p + 2, column_list@);
        },
        Field::ForeignKeyField { column_list, foreign_tb_name, foreign_column_list } => {
            let h = seq![kw(Kw::Foreign), kw(Kw::Key)];
            let rest = paren(render_names(column_list@)) + seq![kw(Kw::References)] + tok_name(
                foreign_tb_name,
            ) + paren(render_names(foreign_column_list@));
            assert(render_field(f) =~= h + rest);
            lemma_prefix_split(t, p, h, rest);
            lemma_prefix_head(t, p, h, 2);
            lemma_foreign_tail_reads(
                t,
                p + 2,
                column_list@,
                foreign_tb_name,
                foreign_column_list@,
            );
        },
    }
}

pub proof fn lemma_fields_reads(t: Seq<STok>, p: int, v: Seq<Field>)
    requires
        v.len() >= 1,
        forall|i: int| 0 <= i < v.len() ==> wf_field(#[trigger] v[i]),
        prefix_at(t, p, render_fields(v)),
        is_tok(t, p + render_fields(v).len(), STok::RParen),
    ensures
        sp_fields(t, p) == Some(p + render_fields(v).len()),
{
    let f = |x: Field| render_field(x);
    let e = |t: Seq<STok>, p: int| sp_field(t, p);
    let k = p + render_fields(v).len();
    assert forall|i: int, a: int|
        #![trigger v[i], e(t, a)]
        0 <= i < v.len() && prefix_at(t, a, f(v[i])) && (is_tok(t, a + f(v[i]).len(), STok::Comma)
            || a + f(v[i]).len() == k) implies e(t, a) == Some(a + f(v[i]).len()) by {
        lemma_field_reads(t, a, v[i]);
    }
    lemma_list_reads(t, p, v, f, e, STok::Comma, k);
}

// ---------------------------------------------------------------- rows

pub proof fn lemma_values_reads(t: Seq<STok>, p: int, v: Seq<Value>)
    requires
        v.len() >= 1,
        prefix_at(t, p, render_values(v)),
        !is_tok(t, p + render_values(v).len(), STok::Comma),
    ensures
        sp_values(t, p) == Some(p + render_values(v).len()),
{
    let f = |x: Value| render_value(x);
    let e = |t: Seq<STok>, p: int| sp_value(t, p);
    let k = p + render_values(v).len();
    assert forall|i: int, a: int|
        #![trigger v[i], e(t, a)]
        0 <= i < v.len() && prefix_at(t, a, f(v[i])) && (is_tok(t, a + f(v[i]).len(), STok::Comma)
            || a + f(v[i]).len() == k) implies e(t, a) == Some(a + f(v[i]).len()) by {
        lemma_value_reads(t, a, v[i]);
    }
    lemma_list_reads(t, p, v, f, e, STok::Comma, k);
}

pub proof fn lemma_value_list_reads(t: Seq<STok>, p: int, v: Vec<Value>)
    requires
        v@.len() >= 1,
        prefix_at(t, p, render_value_list(v)),
    ensures
        sp_value_list(t, p) == Some(p + render_value_list(v).len()),
{
    lemma_paren_open(t, p, render_values(v@));
    lemma_values_reads(t, p + 1, v@);
}

pub proof fn lemma_value_lists_reads(t: Seq<STok>, p: int, v: Seq<Vec<Value>>)
    requires
        v.len() >= 1,
        forall|i: int| 0 <= i < v.len() ==> (#[trigger] v[i])@.len() >= 1,
        prefix_at(t, p, render_value_lists(v)),
        !is_tok(t, p + render_value_lists(v).len(), STok::Comma),
    ensures
        sp_value_lists(t, p) == Some(p + render_value_lists(v).len()),
{
    let f = |x: Vec<Value>| render_value_list(x);
    let e = |t: Seq<STok>, p: int| sp_value_list(t, p);
    let k = p + render_value_lists(v).len();
    assert forall|i: int, a: int|
        #![trigger v[i], e(t, a)]
        0 <= i < v.len() && prefix_at(t, a, f(v[i])) && (is_tok(t, a + f(v[i]).len(), STok::Comma)
            || a + f(v[i]).len() == k) implies e(t, a) == Some(a + f(v[i]).len()) by {
        lemma_value_list_reads(t, a, v[i]);
    }
    lemma_list_reads(t, p, v, f, e, STok::Comma, k);
}

// ---------------------------------------------------------------- conditions

pub proof fn lemma_column_reads(t: Seq<STok>, p: int, c: Column)
    requires
        prefix_at(t, p, render_column(c)),
        !is_tok(t, p + render_column(c).len(), STok::Dot),
    ensures
        sp_column(t, p) == Some(p + render_column(c).len()),
{
    lemma_prefix_index(t, p, render_column(c), 0);
    if c.tb_name is Some {
        lemma_prefix_index(t, p, render_column(c), 1);
        lemma_prefix_index(t, p, render_column(c), 2);
    }
}

pub proof fn lemma_columns_reads(t: Seq<STok>, p: int, v: Seq<Column>)
    requires
        v.len() >= 1,
        prefix_at(t, p, render_columns(v)),
        is_kw(t, p + render_columns(v).len(), Kw::From),
    ensures
        sp_columns(t, p) == Some(p + render_columns(v).len()),
{
    let f = |x: Column| render_column(x);
    let e = |t: Seq<STok>, p: int| sp_column(t, p);
    let k = p + render_columns(v).len();
    assert forall|i: int, a: int|
        #![trigger v[i], e(t, a)]
        0 <= i < v.len() && prefix_at(t, a, f(v[i])) && (is_tok(t, a + f(v[i]).len(), STok::Comma)
            || a + f(v[i]).len() == k) implies e(t, a) == Some(a + f(v[i]).len()) by {
        lemma_column_reads(t, a, v[i]);
    }
    lemma_list_reads(t, p, v, f, e, STok::Comma, k);
}

pub proof fn lemma_expr_reads(t: Seq<STok>, p: int, x: Expr)
    requires
        prefix_at(t, p, render_expr(x)),
        !is_tok(t, p + render_expr(x).len(), STok::Dot),
    ensures
        sp_expr(t, p) == Some(p + render_expr(x).len()),
{
    lemma_prefix_index(t, p, render_expr(x), 0);
    match x {
        Expr::Value(v) => lemma_value_reads(t, p, v),
        Expr::Column(c) => lemma_column_reads(t, p, c),
    }
}

pub proof fn lemma_where_reads(t: Seq<STok>, p: int, w: WhereClause)
    requires
        prefix_at(t, p, render_where(w)),
        !is_tok(t, p + render_where(w).len(), STok::Dot),
    ensures
        sp_where(t, p) == Some(p + render_where(w).len()),
{
    match w {
        WhereClause::IsAssert { col, null } => {
            let c = render_column(col);
            let tail = if null {
                seq![kw(Kw::Is), kw(Kw::Null)]
            } else {
                seq![kw(Kw::Is), kw(Kw::Not), kw(Kw::Null)]
            };
            lemma_prefix_split(t, p, c, tail);
            lemma_prefix_head(t, p + c.len(), tail, tail.len() as int);
            lemma_column_reads(t, p, col);
        },
        WhereClause::Comparison { col, op, expr } => {
            let c = render_column(col);
            lemma_prefix_split(t, p, c + seq![op_tok(op)], render_expr(expr));
            lemma_prefix_split(t, p, c, seq![op_tok(op)]);
            lemma_prefix_index(t, p + c.len(), seq![op_tok(op)], 0);
            lemma_column_reads(t, p, col);
            lemma_expr_reads(t, p + c.len() + 1, expr);
        },
    }
}

pub proof fn lemma_wheres_reads(t: Seq<STok>, p: int, v: Seq<WhereClause>)
    requires
        v.len() >= 1,
        prefix_at(t, p, render_wheres(v)),
        is_tok(t, p + render_wheres(v).len(), STok::Semi),
    ensures
        sp_wheres(t, p) == Some(p + render_wheres(v).len()),
{
    let f = |x: WhereClause| render_where(x);
    let e = |t: Seq<STok>, p: int| sp_where(t, p);
    let k = p + render_wheres(v).len();
    assert forall|i: int, a: int|
        #![trigger v[i], e(t, a)]
        0 <= i < v.len() && prefix_at(t, a, f(v[i])) && (is_tok(t, a + f(v[i]).len(), kw(Kw::And))
            || a + f(v[i]).len() == k) implies e(t, a) == Some(a + f(v[i]).len()) by {
        lemma_where_reads(t, a, v[i]);
    }
    lemma_list_reads(t, p, v, f, e, kw(Kw::And), k);
}

pub proof fn lemma_opt_where_reads(t: Seq<STok>, p: int, o: Option<Vec<WhereClause>>)
    requires
        wf_opt_where(o),
        prefix_at(t, p, render_opt_where(o)),
        is_tok(t, p + render_opt_where(o).len(), STok::Semi),
    ensures
        sp_opt_where(t, p) == Some(p + render_opt_where(o).len()),
{
    match o {
        Some(v) => {
            lemma_prefix_split(t, p, seq![kw(Kw::Where)], render_wheres(v@));
            lemma_prefix_index(t, p, seq![kw(Kw::Where)], 0);
            lemma_wheres_reads(t, p + 1, v@);
        },
        None => {},
    }
}

pub proof fn lemma_sets_reads(t: Seq<STok>, p: int, v: Seq<SetClause>)
    requires
        v.len() >= 1,
        prefix_at(t, p, render_sets(v)),
        !is_tok(t, p + render_sets(v).len(), STok::Comma),
    ensures
        sp_sets(t, p) == Some(p + render_sets(v).len()),
{
    let f = |x: SetClause| render_set(x);
    let e = |t: Seq<STok>, p: int| sp_set(t, p);
    let k = p + render_sets(v).len();
    assert forall|i: int, a: int|
        #![trigger v[i], e(t, a)]
        0 <= i < v.len() && prefix_at(t, a, f(v[i])) && (is_tok(t, a + f(v[i]).len(), STok::Comma)
            || a + f(v[i]).len() == k) implies e(t, a) == Some(a + f(v[i]).len()) by {
        let c = v[i];
        let h = seq![STok::Ident(c.col_name@), STok::Eq];
        lemma_prefix_split(t, a, h, render_value(c.value));
        lemma_prefix_head(t, a, h, 2);
        lemma_value_reads(t, a + 2, c.value);
    }
    lemma_list_reads(t, p, v, f, e, STok::Comma, k);
}


// ---------------------------------------------------------------- statements

proof fn lemma_columns_first(v: Seq<Column>)
    requires
        v.len() >= 1,
    ensures
        render_columns(v).len() >= 1,
        render_columns(v)[0] is Ident,
{
    if v.len() == 1 {
        assert(render_columns(v) == render_column(v[0]));
    } else {
        lemma_sep_render_front(v, |x: Column| render_column(x), STok::Comma);
    }
}

/// What stands right after a list in a statement: `where` when there is a condition, else `;`.
proof fn lemma_after_list(t: Seq<STok>, q: int, o: Option<Vec<WhereClause>>)
    requires
        prefix_at(t, q, render_opt_where(o)),
        is_tok(t, q + render_opt_where(o).len(), STok::Semi),
    ensures
        !is_tok(t, q, STok::Comma),
        !is_kw(t, q, Kw::And),
{
    match o {
        Some(v) => {
            lemma_prefix_index(t, q, render_opt_where(o), 0);
        },
        None => {},
    }
}

proof fn lemma_table_stmt_reads(t: Seq<STok>, p: int, s: TableStmt)
    requires
        wf_stmt(Stmt::Table(s)),
        prefix_at(t, p, render_stmt(Stmt::Table(s))),
        is_tok(t, p + render_stmt(Stmt::Table(s)).len(), STok::Semi),
    ensures
        sp_stmt(t, p) == Some(p + render_stmt(Stmt::Table(s)).len()),
{
    let r = render_stmt(Stmt::Table(s));
    match s {
        TableStmt::CreateTable { tb_name, field_list } => {
            let h = seq![kw(Kw::Create), kw(Kw::Table)] + tok_name(tb_name);
            lemma_prefix_split(t, p, h, paren(render_fields(field_list@)));
            lemma_prefix_index(t, p, r, 0);
            lemma_prefix_index(t, p, r, 1);
            lemma_prefix_index(t, p, r, 2);
            lemma_paren_open(t, p + 3, render_fields(field_list@));
            lemma_fields_reads(t, p + 4, field_list@);
        },
        TableStmt::DropTable { .. } => {
            lemma_prefix_index(t, p, r, 0);
            lemma_prefix_index(t, p, r, 1);
            lemma_prefix_index(t, p, r, 2);
        },
        TableStmt::Desc { .. } => {
            lemma_prefix_index(t, p, r, 0);
            lemma_prefix_index(t, p, r, 1);
        },
        TableStmt::Insert { tb_name, value_lists } => {
            let h = seq![kw(Kw::Insert), kw(Kw::Into)] + tok_name(tb_name) + seq![kw(Kw::Values)];
            lemma_prefix_split(t, p, h, render_value_lists(value_lists@));
            lemma_prefix_index(t, p, r, 0);
            lemma_prefix_index(t, p, r, 1);
            lemma_prefix_index(t, p, r, 2);
            lemma_prefix_index(t, p, r, 3);
            lemma_value_lists_reads(t, p + 4, value_lists@);
        },
        TableStmt::Delete { tb_name, where_clause } => {
            let h = seq![kw(Kw::Delete), kw(Kw::From)] + tok_name(tb_name);
            lemma_prefix_split(t, p, h, render_opt_where(where_clause));
            lemma_prefix_index(t, p, r, 0);
            lemma_prefix_index(t, p, r, 1);
            lemma_prefix_index(t, p, r, 2);
            lemma_opt_where_reads(t, p + 3, where_clause);
        },
        TableStmt::Update { tb_name, set_clause, where_clause } => {
            let h = seq![kw(Kw::Update)] + tok_name(tb_name) + seq![kw(Kw::SetKw)];
            let sets = render_sets(set_clause@);
            lemma_prefix_split(t, p, h + sets, render_opt_where(where_clause));
            lemma_prefix_split(t, p, h, sets);
            lemma_prefix_index(t, p, r, 0);
            lemma_prefix_index(t, p, r, 1);
            lemma_prefix_index(t, p, r, 2);
            let q = p + 3 + sets.len();
            lemma_after_list(t, q, where_clause);
            lemma_sets_reads(t, p + 3, set_clause@);
            lemma_opt_where_reads(t, q, where_clause);
        },
        TableStmt::Select { table_list, selector, where_clause } => {
            let sel = render_selector(selector);
            let names = render_names(table_list@);
            let h = seq![kw(Kw::Select)] + sel + seq![kw(Kw::From)];
            lemma_prefix_split(t, p, h + names, render_opt_where(where_clause));
            lemma_prefix_split(t, p, h, names);
            lemma_prefix_split(t, p, seq![kw(Kw::Select)] + sel, seq![kw(Kw::From)]);
            lemma_prefix_split(t, p, seq![kw(Kw::Select)], sel);
            lemma_prefix_index(t, p, seq![kw(Kw::Select)], 0);
            let q = p + 1 + sel.len();
            lemma_prefix_index(t, q, seq![kw(Kw::From)], 0);
            match selector {
                Selector::All => {
                    lemma_prefix_index(t, p + 1, sel, 0);
                },
                Selector::Columns(v) => {
                    lemma_columns_first(v@);
                    lemma_prefix_index(t, p + 1, sel, 0);
                    lemma_columns_reads(t, p + 1, v@);
                },
            }
            let e = q + 1 + names.len();
            lemma_after_list(t, e, where_clause);
            lemma_names_reads(t, q + 1, table_list@);
            lemma_opt_where_reads(t, e, where_clause);
        },
    }
}

proof fn lemma_index_stmt_reads(t: Seq<STok>, p: int, s: IndexStmt)
    requires
        wf_stmt(Stmt::Index(s)),
        prefix_at(t, p, render_stmt(Stmt::Index(s))),
        is_tok(t, p + render_stmt(Stmt::Index(s)).len(), STok::Semi),
    ensures
        sp_stmt(t, p) == Some(p + render_stmt(Stmt::Index(s)).len()),
{
    let r = render_stmt(Stmt::Index(s));
    match s {
        IndexStmt::CreateIndex { idx_name, tb_name, column_list } => {
            let h = seq![kw(Kw::Create), kw(Kw::Index)] + tok_name(idx_name) + seq![kw(Kw::On)]
                + tok_name(tb_name);
            lemma_prefix_split(t, p, h, paren(render_names(column_list@)));
            lemma_prefix_index(t, p, r, 0);
            lemma_prefix_index(t, p, r, 1);
            lemma_prefix_index(t, p, r, 2);
            lemma_prefix_index(t, p, r, 3);
            lemma_prefix_index(t, p, r, 4);
            lemma_paren_names_reads(t, p + 5, column_list@);
        },
        IndexStmt::DropIndex { .. } => {
            lemma_prefix_index(t, p, r, 0);
            lemma_prefix_index(t, p, r, 1);
            lemma_prefix_index(t, p, r, 2);
            lemma_prefix_index(t, p, r, 3);
            lemma_prefix_index(t, p, r, 4);
        },
        IndexStmt::AlterAddIndex { idx_name, tb_name, column_list } => {
            let h = alter_head(tb_name) + seq![kw(Kw::Add), kw(Kw::Index)] + tok_name(idx_name);
            lemma_prefix_split(t, p, h, paren(render_names(column_list@)));
            lemma_prefix_index(t, p, r, 0);
            lemma_prefix_index(t, p, r, 1);
            lemma_prefix_index(t, p, r, 2);
            lemma_prefix_index(t, p, r, 3);
            lemma_prefix_index(t, p, r, 4);
            lemma_prefix_index(t, p, r, 5);
            lemma_paren_names_reads(t, p + 6, column_list@);
        },
        IndexStmt::AlterDropIndex { .. } => {
            lemma_prefix_index(t, p, r, 0);
            lemma_prefix_index(t, p, r, 1);
            lemma_prefix_index(t, p, r, 2);
            lemma_prefix_index(t, p, r, 3);
            lemma_prefix_index(t, p, r, 4);
            lemma_prefix_index(t, p, r, 5);
        },
    }
}

spec fn is_add(s: AlterStmt) -> bool {
    s is AddColumn || s is AddPrimaryKey || s is AddConstraintPrimaryKey
        || s is AddConstraintForeignKey
}

proof fn lemma_alter_add_reads(t: Seq<STok>, p: int, s: AlterStmt)
    requires
        is_add(s),
        wf_stmt(Stmt::Alter(s)),
        prefix_at(t, p, render_stmt(Stmt::Alter(s))),
        is_tok(t, p + render_stmt(Stmt::Alter(s)).len(), STok::Semi),
    ensures
        sp_stmt(t, p) == Some(p + render_stmt(Stmt::Alter(s)).len()),
{
    let r = render_stmt(Stmt::Alter(s));
    match s {
        AlterStmt::AddColumn { tb_name, field } => {
            let h = alter_head(tb_name) + seq![kw(Kw::Add)];
            lemma_prefix_split(t, p, h, render_field(field));
            lemma_prefix_index(t, p + 4, render_field(field), 0);
            lemma_prefix_index(t, p, r, 0);
            lemma_prefix_index(t, p, r, 1);
            lemma_prefix_index(t, p, r, 2);
            lemma_prefix_index(t, p, r, 3);
            lemma_prefix_index(t, p, r, 4);
            lemma_column_field_reads(t, p + 4, field);
        },
        AlterStmt::AddPrimaryKey { tb_name, column_list } => {
            let h = alter_head(tb_name) + seq![kw(Kw::Add), kw(Kw::Primary), kw(Kw::Key)];
            lemma_prefix_split(t, p, h, paren(render_names(column_list@)));
            lemma_prefix_index(t, p, r, 0);
            lemma_prefix_index(t, p, r, 1);
            lemma_prefix_index(t, p, r, 2);
            lemma_prefix_index(t, p, r, 3);
            lemma_prefix_index(t, p, r, 4);
            lemma_prefix_index(t, p, r, 5);
            lemma_paren_names_reads(t, p + 6, column_list@);
        },
        AlterStmt::AddConstraintPrimaryKey { tb_name, pk_name, column_list } => {
            let h = alter_head(tb_name) + seq![kw(Kw::Add), kw(Kw::Constraint)] + tok_name(pk_name)
                + seq![kw(Kw::Primary), kw(Kw::Key)];
            lemma_prefix_split(t, p, h, paren(render_names(column_list@)));
            lemma_prefix_index(t, p, r, 0);
            lemma_prefix_index(t, p, r, 1);
            lemma_prefix_index(t, p, r, 2);
            lemma_prefix_index(t, p, r, 3);
            lemma_prefix_index(t, p, r, 4);
            lemma_prefix_index(t, p, r, 5);
            lemma_prefix_index(t, p, r, 6);
            lemma_prefix_index(t, p, r, 7);
            lemma_paren_names_reads(t, p + 8, column_list@);
        },
        AlterStmt::AddConstraintForeignKey {
            tb_name,
            fk_name,
            column_list,
            foreign_tb_name,
            foreign_column_list,
        } => {
            let h = alter_head(tb_name) + seq![kw(Kw::Add), kw(Kw::Constraint)] + tok_name(fk_name)
                + seq![kw(Kw::Foreign), kw(Kw::Key)];
            let tail = paren(render_names(column_list@)) + seq![kw(Kw::References)] + tok_name(
                foreign_tb_name,
            ) + paren(render_names(foreign_column_list@));
            assert(r =~= h + tail);
            lemma_prefix_split(t, p, h, tail);
            lemma_prefix_index(t, p, r, 0);
            lemma_prefix_index(t, p, r, 1);
            lemma_prefix_index(t, p, r, 2);
            lemma_prefix_index(t, p, r, 3);
            lemma_prefix_index(t, p, r, 4);
            lemma_prefix_index(t, p, r, 5);
            lemma_prefix_index(t, p, r, 6);
            lemma_prefix_index(t, p, r, 7);
            lemma_foreign_tail_reads(
                t,
                p + 8,
                column_list@,
                foreign_tb_name,
                foreign_column_list@,
            );
        },
        _ => {},
    }
}

proof fn lemma_alter_other_reads(t: Seq<STok>, p: int, s: AlterStmt)
    requires
        !is_add(s),
        wf_stmt(Stmt::Alter(s)),
        prefix_at(t, p, render_stmt(Stmt::Alter(s))),
        is_tok(t, p + render_stmt(Stmt::Alter(s)).len(), STok::Semi),
    ensures
        sp_stmt(t, p) == Some(p + render_stmt(Stmt::Alter(s)).len()),
{
    let r = render_stmt(Stmt::Alter(s));
    match s {
        AlterStmt::DropColumn { .. } => {
            lemma_prefix_index(t, p, r, 0);
            lemma_prefix_index(t, p, r, 1);
            lemma_prefix_index(t, p, r, 2);
            lemma_prefix_index(t, p, r, 3);
            lemma_prefix_index(t, p, r, 4);
        },
        AlterStmt::ChangeColumn { tb_name, col_name, field } => {
            let h = alter_head(tb_name) + seq![kw(Kw::Change)] + tok_name(col_name);
            lemma_prefix_split(t, p, h, render_field(field));
            lemma_prefix_index(t, p, r, 0);
            lemma_prefix_index(t, p, r, 1);
            lemma_prefix_index(t, p, r, 2);
            lemma_prefix_index(t, p, r, 3);
            lemma_prefix_index(t, p, r, 4);
            lemma_column_field_reads(t, p + 5, field);
        },
        AlterStmt::RenameTable { .. } => {
            lemma_prefix_index(t, p, r, 0);
            lemma_prefix_index(t, p, r, 1);
            lemma_prefix_index(t, p, r, 2);
            lemma_prefix_index(t, p, r, 3);
            lemma_prefix_index(t, p, r, 4);
            lemma_prefix_index(t, p, r, 5);
        },
        AlterStmt::DropPrimaryKey { .. } => {
            lemma_prefix_index(t, p, r, 0);
            lemma_prefix_index(t, p, r, 1);
            lemma_prefix_index(t, p, r, 2);
            lemma_prefix_index(t, p, r, 3);
            lemma_prefix_index(t, p, r, 4);
            lemma_prefix_index(t, p, r, 5);
        },
        AlterStmt::DropConstraintPrimaryKey { .. } => {
            lemma_prefix_index(t, p, r, 0);
            lemma_prefix_index(t, p, r, 1);
            lemma_prefix_index(t, p, r, 2);
            lemma_prefix_index(t, p, r, 3);
            lemma_prefix_index(t, p, r, 4);
            lemma_prefix_index(t, p, r, 5);
            lemma_prefix_index(t, p, r, 6);
        },
        AlterStmt::DropConstraintForeignKey { .. } => {
            lemma_prefix_index(t, p, r, 0);
            lemma_prefix_index(t, p, r, 1);
            lemma_prefix_index(t, p, r, 2);
            lemma_prefix_index(t, p, r, 3);
            lemma_prefix_index(t, p, r, 4);
            lemma_prefix_index(t, p, r, 5);
            lemma_prefix_index(t, p, r, 6);
        },
        _ => {},
    }
}

proof fn lemma_alter_stmt_reads(t: Seq<STok>, p: int, s: AlterStmt)
    requires
        wf_stmt(Stmt::Alter(s)),
        prefix_at(t, p, render_stmt(Stmt::Alter(s))),
        is_tok(t, p + render_stmt(Stmt::Alter(s)).len(), STok::Semi),
    ensures
        sp_stmt(t, p) == Some(p + render_stmt(Stmt::Alter(s)).len()),
{
    if is_add(s) {
        lemma_alter_add_reads(t, p, s);
    } else {
        lemma_alter_other_reads(t, p, s);
    }
}

pub proof fn lemma_stmt_reads(t: Seq<STok>, p: int, s: Stmt)
    requires
        wf_stmt(s),
        prefix_at(t, p, render_stmt(s)),
        is_tok(t, p + render_stmt(s).len(), STok::Semi),
    ensures
        sp_stmt(t, p) == Some(p + render_stmt(s).len()),
{
    let r = render_stmt(s);
    match s {
        Stmt::System(_) => {
            lemma_prefix_index(t, p, r, 0);
            lemma_prefix_index(t, p, r, 1);
        },
        Stmt::Database(d) => {
            lemma_prefix_index(t, p, r, 0);
            lemma_prefix_index(t, p, r, 1);
            match d {
                DatabaseStmt::ShowTables => {},
                DatabaseStmt::UseDatabase { .. } => {},
                _ => {
                    lemma_prefix_index(t, p, r, 2);
                },
            }
        },
        Stmt::Table(x) => lemma_table_stmt_reads(t, p, x),
        Stmt::Index(x) => lemma_index_stmt_reads(t, p, x),
        Stmt::Alter(x) => lemma_alter_stmt_reads(t, p, x),
        Stmt::Copy(_) => {
            lemma_prefix_index(t, p, r, 0);
            lemma_prefix_index(t, p, r, 1);
            lemma_prefix_index(t, p, r, 2);
            lemma_prefix_index(t, p, r, 3);
        },
    }
}

proof fn lemma_render_stmts_front(s: Seq<Stmt>)
    requires
        s.len() >= 1,
    ensures
        render_stmts(s) == render_stmt(s[0]) + seq![STok::Semi] + render_stmts(s.drop_first()),
    decreases s.len(),
{
    if s.len() == 1 {
        assert(s.drop_last() =~= Seq::<Stmt>::empty());
        assert(s.drop_first() =~= Seq::<Stmt>::empty());
        assert(render_stmts(s.drop_first()) == Seq::<STok>::empty());
        assert(render_stmts(s.drop_last()) == Seq::<STok>::empty());
        assert(render_stmts(s) =~= render_stmt(s[0]) + seq![STok::Semi] + render_stmts(
            s.drop_first(),
        ));
    } else {
        lemma_render_stmts_front(s.drop_last());
        assert(s.drop_last().drop_first() =~= s.drop_first().drop_last());
        assert(s.drop_first().last() == s.last());
        assert(s.drop_last()[0] == s[0]);
        assert(render_stmts(s.drop_first()) == render_stmts(s.drop_first().drop_last())
            + render_stmt(s.drop_first().last()) + seq![STok::Semi]);
        assert(render_stmts(s) =~= render_stmt(s[0]) + seq![STok::Semi] + render_stmts(
            s.drop_first(),
        ));
    }
}

proof fn lemma_stmts_read(t: Seq<STok>, p: int, s: Seq<Stmt>)
    requires
        forall|i: int| 0 <= i < s.len() ==> wf_stmt(#[trigger] s[i]),
        0 <= p <= t.len(),
        t.subrange(p, t.len() as int) == render_stmts(s),
    ensures
        sp_sql_from(t, p),
    decreases s.len(),
{
    if s.len() == 0 {
        assert(t.subrange(p, t.len() as int).len() == 0);
    } else {
        lemma_render_stmts_front(s);
        let a = render_stmt(s[0]);
        let rest = render_stmts(s.drop_first());
        assert(prefix_at(t, p, a + seq![STok::Semi] + rest));
        lemma_prefix_split(t, p, a + seq![STok::Semi], rest);
        lemma_prefix_split(t, p, a, seq![STok::Semi]);
        lemma_prefix_index(t, p + a.len(), seq![STok::Semi], 0);
        lemma_stmt_reads(t, p, s[0]);
        let q = p + a.len() + 1;
        assert(t.subrange(q, t.len() as int) =~= rest);
        assert forall|i: int| 0 <= i < s.drop_first().len() implies wf_stmt(
            #[trigger] s.drop_first()[i],
        ) by {
            assert(s.drop_first()[i] == s[i + 1]);
        }
        lemma_stmts_read(t, q, s.drop_first());
    }
}

/// Tokens that the reader refuses are the rendering of no well-formed statement list.
pub proof fn lemma_refused_renders_nothing(t: Seq<STok>)
    requires
        !sp_sql(t),
    ensures
        forall|q: Sql| wf_sql(q) ==> render_sql(q) != t,
{
    assert forall|q: Sql| wf_sql(q) implies render_sql(q) != t by {
        lemma_render_sql_reads(q);
    }
}

/// Every well-formed statement list, written out as tokens, is read back whole.
pub proof fn lemma_render_sql_reads(q: Sql)
    requires
        wf_sql(q),
    ensures
        sp_sql(render_sql(q)),
{
    let t = render_sql(q);
    assert(t.subrange(0, t.len() as int) =~= t);
    lemma_stmts_read(t, 0, q.stmt_list@);
}

} // verus!
