//! What stored values, literals and where clauses mean, stated over plain numbers and texts:
//! the order of stored values, which literals fit which columns, and when a row meets a clause.
use vstd::prelude::*;
use crate::parser::ast;
use crate::parser::ast::{Column, Expr, Op, Value, WhereClause};
use crate::rm::record::ColumnData;
use crate::rm::record::ColumnType;
use crate::rm::record::Data;
use crate::rm::record::Type;
use crate::rm::record::chars_order;
use crate::rm::record::data_order;
use crate::rm::record::first_match;
use crate::rm::record::same_kind_stored;
use crate::rm::record::type_code;
use crate::rm::record::value_fits;
use crate::sm::check::clause_ok;
use crate::sm::check::col_named;
use crate::sm::check::names_column;
use crate::sm::check::sel_clause_ok;
use crate::sm::check::sel_col;
use crate::sm::check::sel_valid;
use crate::sm::check::TableMeta;
use crate::sm::check::values_fit;
use crate::sm::conds::all_values;
use crate::sm::convert::value_data;
use crate::sm::convert::value_kind;
use crate::sm::query_tree::in_range;
use crate::sm::query_tree::RangeView;
use crate::sm::select::SelectNode;
use crate::sm::select::row_valid;
use crate::sm::select::selected;
use crate::sm::query_tree::lemma_narrowed_contains;
use crate::sm::query_tree::narrowed;
use crate::sm::query_tree::op_holds;
use crate::sm::select::PairCondition;
use crate::sm::select::clause_holds;
use crate::sm::select::pair_holds;
use crate::sm::select::row_value;

verus! {

/// Numbers of one kind compare as the numbers they hold: integers, decimals (by their order
/// keys), dates and numerics, the smaller first.
pub proof fn lemma_numbers_order(x: i64, y: i64, u: u64, v: u64)
    ensures
        (data_order(Data::Int(x), Data::Int(y)) == -1) == (x < y),
        (data_order(Data::Int(x), Data::Int(y)) == 0) == (x == y),
        (data_order(Data::Int(x), Data::Int(y)) == 1) == (x > y),
        (data_order(Data::Float(x), Data::Float(y)) == -1) == (x < y),
        (data_order(Data::Float(x), Data::Float(y)) == 0) == (x == y),
        (data_order(Data::Float(x), Data::Float(y)) == 1) == (x > y),
        (data_order(Data::Date(u), Data::Date(v)) == -1) == (u < v),
        (data_order(Data::Date(u), Data::Date(v)) == 0) == (u == v),
        (data_order(Data::Date(u), Data::Date(v)) == 1) == (u > v),
        (data_order(Data::Numeric(x), Data::Numeric(y)) == -1) == (x < y),
        (data_order(Data::Numeric(x), Data::Numeric(y)) == 0) == (x == y),
        (data_order(Data::Numeric(x), Data::Numeric(y)) == 1) == (x > y),
{
}

/// Values of different kinds compare by kind, in the order the kinds are declared: texts,
/// then integers, decimals, dates, numerics.
pub proof fn lemma_kinds_order(s: String, x: i64, f: i64, d: u64, n: i64)
    ensures
        data_order(Data::Str(s), Data::Int(x)) == -1,
        data_order(Data::Int(x), Data::Float(f)) == -1,
        data_order(Data::Float(f), Data::Date(d)) == -1,
        data_order(Data::Date(d), Data::Numeric(n)) == -1,
        data_order(Data::Str(s), Data::Numeric(n)) == -1,
        data_order(Data::Numeric(n), Data::Str(s)) == 1,
{
}

proof fn lemma_chars_equal(a: Seq<char>, b: Seq<char>)
    ensures
        (chars_order(a, b) == 0) == (a == b),
    decreases a.len(),
{
    if a.len() > 0 && b.len() > 0 && a[0] == b[0] {
        lemma_chars_equal(a.drop_first(), b.drop_first());
        if a.drop_first() == b.drop_first() {
            assert(a =~= seq![a[0]] + a.drop_first());
            assert(b =~= seq![b[0]] + b.drop_first());
        }
    }
    if a.len() > 0 && b.len() > 0 && a == b {
        assert(a.drop_first() == b.drop_first());
    }
    if a.len() == 0 && b.len() == 0 {
        assert(a =~= b);
    }
    if a.len() > 0 && b.len() > 0 && a[0] != b[0] {
        assert(a != b);
        assert((a[0] as int) != (b[0] as int));
    }
}

proof fn lemma_chars_prefix(a: Seq<char>, b: Seq<char>)
    requires
        a.len() < b.len(),
        a == b.take(a.len() as int),
    ensures
        chars_order(a, b) == -1,
    decreases a.len(),
{
    if a.len() > 0 {
        assert(a[0] == b[0]);
        assert(a.drop_first() == b.drop_first().take(a.len() - 1));
        lemma_chars_prefix(a.drop_first(), b.drop_first());
    }
}

proof fn lemma_chars_first_difference(a: Seq<char>, b: Seq<char>, i: int)
    requires
        0 <= i < a.len(),
        i < b.len(),
        a.take(i) == b.take(i),
    ensures
        (a[i] as int) < (b[i] as int) ==> chars_order(a, b) == -1,
        (a[i] as int) > (b[i] as int) ==> chars_order(a, b) == 1,
    decreases i,
{
    if i == 0 {
        assert((a[0] as int) != (b[0] as int) ==> a[0] != b[0]);
    }
    if i > 0 {
        assert(a[0] == a.take(i)[0]);
        assert(b[0] == b.take(i)[0]);
        assert(a.drop_first().take(i - 1) =~= a.take(i).drop_first());
        assert(b.drop_first().take(i - 1) =~= b.take(i).drop_first());
        lemma_chars_first_difference(a.drop_first(), b.drop_first(), i - 1);
    }
}

/// Texts compare character by character: equal texts and only they compare equal; a text
/// that is a proper prefix of another comes first; else the first character where they
/// differ decides, by its code.
pub proof fn lemma_texts_order(a: String, b: String, i: int)
    ensures
        (data_order(Data::Str(a), Data::Str(b)) == 0) == (a@ == b@),
        a@.len() < b@.len() && a@ == b@.take(a@.len() as int) ==> data_order(Data::Str(a), Data::Str(b)) == -1,
        0 <= i < a@.len() && i < b@.len() && a@.take(i) == b@.take(i) && (a@[i] as int) < (b@[i] as int)
            ==> data_order(Data::Str(a), Data::Str(b)) == -1,
{
    lemma_chars_equal(a@, b@);
    if a@.len() < b@.len() && a@ == b@.take(a@.len() as int) {
        lemma_chars_prefix(a@, b@);
    }
    if 0 <= i < a@.len() && i < b@.len() && a@.take(i) == b@.take(i) {
        lemma_chars_first_difference(a@, b@, i);
    }
}

/// A literal fits a column exactly when it is NULL or of the column's kind: the kind numbers
/// of literals and stored types agree (a numeric column takes NULL only). Each kind of column
/// takes literals of that kind and NULL, and nothing else.
pub proof fn lemma_literal_fits(t: Type, v: Value)
    ensures
        value_fits(t, v) == (v is Null || value_kind(v) == type_code(t)),
        t is Int ==> (value_fits(t, v) == (v is Int || v is Null)),
        t is Str ==> (value_fits(t, v) == (v is Str || v is Null)),
        t is Float ==> (value_fits(t, v) == (v is Float || v is Null)),
        t is Date ==> (value_fits(t, v) == (v is Date || v is Null)),
        t is Numeric ==> (value_fits(t, v) == (v is Null)),
{
}

/// Two stored types compare exactly when their kind numbers agree.
pub proof fn lemma_comparable_kinds(a: Type, b: Type)
    ensures
        same_kind_stored(a, b) == (type_code(a) == type_code(b)),
{
}

/// A null test on a column of the row holds exactly when the row's value there is NULL as
/// asked: `IS NULL` where it holds no value, `IS NOT NULL` where it holds one. A null test on
/// a column the row does not have holds.
pub proof fn lemma_null_test(col: Column, null: bool, cols: Seq<ColumnData>, ty: Seq<ColumnType>)
    ensures
        (exists|i: int| first_match(ty, col, i)) ==> clause_holds(WhereClause::IsAssert { col, null }, cols, ty) == (
        (row_value(cols, ty, col) is None) == null),
        (exists|i: int| first_match(ty, col, i)) ==> (clause_holds(WhereClause::IsAssert { col, null: false }, cols, ty)
            == (row_value(cols, ty, col) is Some)),
        (exists|i: int| first_match(ty, col, i)) ==> (clause_holds(WhereClause::IsAssert { col, null: true }, cols, ty)
            == (row_value(cols, ty, col) is None)),
        !(exists|i: int| first_match(ty, col, i)) ==> clause_holds(WhereClause::IsAssert { col, null }, cols, ty),
{
}

/// A comparison of a column with a non-NULL literal holds exactly when the row has a value in
/// that column and the value lies in the range that the comparison narrows all values to (as
/// a query's range condition holds it); it never holds where the row's value is NULL.
pub proof fn lemma_value_comparison(col: Column, op: Op, v: Value, cols: Seq<ColumnData>, ty: Seq<ColumnType>)
    requires
        !(v is Null),
        !(v is Float),
    ensures
        clause_holds(WhereClause::Comparison { col, op, expr: Expr::Value(v) }, cols, ty) == (match row_value(cols, ty, col) {
            Some(d) => in_range(narrowed(all_values(), op, value_data(v).unwrap()), d),
            None => false,
        }),
{
    match row_value(cols, ty, col) {
        Some(d) => {
            lemma_narrowed_contains(all_values(), op, value_data(v).unwrap(), d);
            assert(!crate::sm::query_tree::excluded(all_values().not_equal, d));
        },
        None => {},
    }
}

/// A comparison of two columns holds exactly when the pair condition on them does.
pub proof fn lemma_column_comparison(col: Column, op: Op, c: Column, cols: Seq<ColumnData>, ty: Seq<ColumnType>)
    ensures
        clause_holds(WhereClause::Comparison { col, op, expr: Expr::Column(c) }, cols, ty) == pair_holds(
            PairCondition { l_col: col, r_col: c, op },
            cols,
            ty,
        ),
{
}

/// The relations of a comparison between integers are those of the numbers.
pub proof fn lemma_relations(x: i64, y: i64)
    ensures
        op_holds(Op::Equal, Data::Int(x), Data::Int(y)) == (x == y),
        op_holds(Op::NotEqual, Data::Int(x), Data::Int(y)) == (x != y),
        op_holds(Op::Less, Data::Int(x), Data::Int(y)) == (x < y),
        op_holds(Op::LessEqual, Data::Int(x), Data::Int(y)) == (x <= y),
        op_holds(Op::Greater, Data::Int(x), Data::Int(y)) == (x > y),
        op_holds(Op::GreaterEqual, Data::Int(x), Data::Int(y)) == (x >= y),
{
}


/// Rows fit a table's columns exactly when each row has one value per column, a NULL only
/// where the column may be NULL, and every other value of its column's kind.
pub proof fn lemma_rows_fit(cols: Seq<ColumnType>, rows: Seq<Vec<Value>>)
    ensures
        values_fit(cols, rows) == forall|n: int| 0 <= n < rows.len() ==> {
            &&& (#[trigger] rows[n])@.len() == cols.len()
            &&& forall|i: int| 0 <= i < cols.len() ==> {
                &&& (rows[n]@[i] is Null ==> cols[i].can_be_null)
                &&& (!(rows[n]@[i] is Null) ==> value_kind(#[trigger] rows[n]@[i]) == type_code(cols[i].data_type))
            }
        },
{
    assert forall|t: Type, v: Value| #[trigger] value_fits(t, v) == (v is Null || value_kind(v) == type_code(t)) by {
        lemma_literal_fits(t, v);
    }
}

/// A comparison in a where clause fits the table exactly when it names a column of the table
/// and compares it with a literal that is NULL or of the column's kind, or with a column of the
/// same kind.
pub proof fn lemma_where_fits(tb_name: Seq<char>, cols: Seq<ColumnType>, col: Column, op: Op, v: Value, c: Column)
    ensures
        clause_ok(tb_name, cols, WhereClause::Comparison { col, op, expr: Expr::Value(v) }) == (names_column(
            tb_name,
            cols,
            col,
        ) && (v is Null || value_kind(v) == type_code(col_named(cols, col.col_name@).unwrap().data_type))),
        clause_ok(tb_name, cols, WhereClause::Comparison { col, op, expr: Expr::Column(c) }) == (names_column(
            tb_name,
            cols,
            col,
        ) && type_code(col_named(cols, col.col_name@).unwrap().data_type) == type_code(
            col_named(cols, c.col_name@).unwrap().data_type,
        )),
{
    lemma_literal_fits(col_named(cols, col.col_name@).unwrap().data_type, v);
    lemma_comparable_kinds(col_named(cols, col.col_name@).unwrap().data_type, col_named(cols, c.col_name@).unwrap().data_type);
}

/// A comparison in a select's where clause fits exactly when it names one column of the
/// selected tables and compares it with a literal that is NULL or of that column's kind, or
/// with a column of the same kind.
pub proof fn lemma_select_fits(tables: Seq<TableMeta>, col: Column, op: Op, v: Value, c: Column)
    ensures
        sel_clause_ok(tables, WhereClause::Comparison { col, op, expr: Expr::Value(v) }) == (sel_valid(tables, col) && (
        v is Null || value_kind(v) == type_code(sel_col(tables, col).data_type))),
        sel_clause_ok(tables, WhereClause::Comparison { col, op, expr: Expr::Column(c) }) == (sel_valid(tables, col)
            && type_code(sel_col(tables, col).data_type) == type_code(sel_col(tables, c).data_type)),
{
    lemma_literal_fits(sel_col(tables, col).data_type, v);
    lemma_comparable_kinds(sel_col(tables, col).data_type, sel_col(tables, c).data_type);
}

/// A range of integers holds the integers between its bounds, each bound inclusive or not,
/// but for the integers it leaves out.
pub proof fn lemma_integer_range(a: i64, b: i64, lo_eq: bool, hi_eq: bool, out: i64, x: i64)
    ensures
        in_range(
            RangeView { min: Some(Data::Int(a)), min_equal: lo_eq, max: Some(Data::Int(b)), max_equal: hi_eq, not_equal: seq![Data::Int(out)] },
            Data::Int(x),
        ) == ((if lo_eq { a <= x } else { a < x }) && (if hi_eq { x <= b } else { x < b }) && x != out),
        in_range(
            RangeView { min: None, min_equal: false, max: None, max_equal: false, not_equal: Seq::empty() },
            Data::Int(x),
        ),
{
    let ne = seq![Data::Int(out)];
    if x == out {
        assert(data_order(Data::Int(x), ne[0]) == 0);
    }
    if crate::sm::query_tree::excluded(ne, Data::Int(x)) {
        let i = choose|i: int| 0 <= i < ne.len() && data_order(Data::Int(x), #[trigger] ne[i]) == 0;
        assert(ne[i] == Data::Int(out));
    }
}

/// The rows a select step keeps are rows it was given that meet every condition, and it keeps
/// every such row; it keeps no more rows than it was given.
pub proof fn lemma_selected_rows(n: SelectNode, rows: Seq<Seq<ColumnData>>, ty: Seq<ColumnType>)
    ensures
        selected(n, rows, ty).len() <= rows.len(),
        forall|i: int| 0 <= i < selected(n, rows, ty).len() ==> row_valid(n, #[trigger] selected(n, rows, ty)[i], ty)
            && rows.contains(selected(n, rows, ty)[i]),
        forall|j: int| 0 <= j < rows.len() && row_valid(n, #[trigger] rows[j], ty) ==> selected(n, rows, ty).contains(rows[j]),
        n.null_conds@.len() > 0 ==> selected(n, rows, ty).len() == 0,
    decreases rows.len(),
{
    if rows.len() > 0 {
        let r0 = rows.drop_last();
        lemma_selected_rows(n, r0, ty);
        let before = selected(n, r0, ty);
        let now = selected(n, rows, ty);
        assert forall|i: int| 0 <= i < now.len() implies row_valid(n, #[trigger] now[i], ty) && rows.contains(now[i]) by {
            if i < before.len() {
                assert(now[i] == before[i]);
                let j = choose|j: int| 0 <= j < r0.len() && r0[j] == before[i];
                assert(rows[j] == r0[j]);
            } else {
                assert(now[i] == rows.last());
                assert(rows[rows.len() - 1] == rows.last());
            }
        }
        assert forall|j: int| 0 <= j < rows.len() && row_valid(n, #[trigger] rows[j], ty) implies now.contains(rows[j]) by {
            if j < rows.len() - 1 {
                assert(r0[j] == rows[j]);
                assert(row_valid(n, r0[j], ty));
                let i = choose|i: int| 0 <= i < before.len() && before[i] == r0[j];
                assert(now[i] == before[i]);
            } else {
                assert(now[now.len() - 1] == rows.last());
            }
        }
    }
}

/// A name is found among the columns exactly when some column has it, and what is found has
/// that name.
pub proof fn lemma_column_found(cols: Seq<ColumnType>, name: Seq<char>)
    ensures
        (col_named(cols, name) is Some) == (exists|i: int| 0 <= i < cols.len() && (#[trigger] cols[i]).name@ == name),
        col_named(cols, name) is Some ==> col_named(cols, name).unwrap().name@ == name,
    decreases cols.len(),
{
    if cols.len() > 0 {
        let c0 = cols.drop_last();
        lemma_column_found(c0, name);
        if exists|i: int| 0 <= i < c0.len() && (#[trigger] c0[i]).name@ == name {
            let i = choose|i: int| 0 <= i < c0.len() && (#[trigger] c0[i]).name@ == name;
            assert(cols[i] == c0[i]);
        }
        if exists|i: int| 0 <= i < cols.len() && (#[trigger] cols[i]).name@ == name {
            let i = choose|i: int| 0 <= i < cols.len() && (#[trigger] cols[i]).name@ == name;
            if i < c0.len() {
                assert(c0[i] == cols[i]);
            }
        }
    }
}

/// A null test in a where clause fits the table exactly when it names a column of the table:
/// the table it names, if any, is that table, and some column has the name.
pub proof fn lemma_null_test_fits(tb_name: Seq<char>, cols: Seq<ColumnType>, col: Column, null: bool)
    ensures
        clause_ok(tb_name, cols, WhereClause::IsAssert { col, null }) == ((col.tb_name is None || col.tb_name.unwrap()@
            == tb_name) && exists|i: int| 0 <= i < cols.len() && (#[trigger] cols[i]).name@ == col.col_name@),
{
    lemma_column_found(cols, col.col_name@);
}
} // verus!
