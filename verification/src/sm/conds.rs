//! Turning the where clause of a query into conditions: ranges on single columns, null tests,
//! and comparisons of two columns.
use vstd::prelude::*;
use crate::parser::ast;
use crate::parser::ast::{Column, Expr, Value, WhereClause};
use crate::rm::record::Data;
use crate::sm::check::TableMeta;
use crate::sm::check::col_named;
use crate::sm::check::distinct_tables;
use crate::sm::check::table_at;
use crate::sm::check::find_col;
use crate::sm::check::find_table;
use crate::sm::convert::value2data;
use crate::sm::convert::value_data;
use crate::sm::convert::value_readable;
use crate::sm::query_tree::Range;
use crate::sm::query_tree::RangeCondition;
use crate::sm::query_tree::RangeView;
use crate::sm::query_tree::narrowed;
use crate::sm::select::NullCondition;
use crate::sm::select::PairCondition;

verus! {

/// A column as names: its table's, where given, and its own.
pub open spec fn cview(c: Column) -> (Option<Seq<char>>, Seq<char>) {
    (
        match c.tb_name {
            Some(t) => Some(t@),
            None => None,
        },
        c.col_name@,
    )
}

/// `i` is the first table that has a column named `name`.
pub open spec fn holder_at(tables: Seq<TableMeta>, name: Seq<char>, i: int) -> bool {
    &&& 0 <= i < tables.len()
    &&& col_named(tables[i].cols@, name) is Some
    &&& forall|j: int| 0 <= j < i ==> col_named((#[trigger] tables[j]).cols@, name) is None
}

/// The column `c` names, with its table: the table it names, else the first table that has
/// a column of that name.
pub open spec fn qualified(tables: Seq<TableMeta>, c: Column) -> (Option<Seq<char>>, Seq<char>) {
    match c.tb_name {
        Some(t) => (Some(t@), c.col_name@),
        None => (Some(tables[choose|i: int| holder_at(tables, c.col_name@, i)].name@), c.col_name@),
    }
}

/// Some table has the column `c` names: the table it names, or any where it names none.
pub open spec fn col_known(tables: Seq<TableMeta>, c: Column) -> bool {
    match c.tb_name {
        Some(t) => exists|i: int| table_at(tables, t@, i) && col_named(tables[i].cols@, c.col_name@) is Some,
        None => exists|i: int| 0 <= i < tables.len() && col_named(#[trigger] tables[i].cols@, c.col_name@) is Some,
    }
}

/// The columns that a clause names can be found, and the value it compares with can be read.
pub open spec fn clause_ok(tables: Seq<TableMeta>, cl: WhereClause) -> bool {
    match cl {
        WhereClause::IsAssert { col, .. } => col.tb_name is None ==> col_known(tables, col),
        WhereClause::Comparison { col, expr, .. } => match expr {
            Expr::Value(v) => value_readable(v) && !(v is Null) && col_known(tables, col),
            Expr::Column(r) => (col.tb_name is None ==> col_known(tables, col)) && (r.tb_name is None
                ==> col_known(tables, r)),
        },
    }
}

/// Every clause can be turned into a condition.
pub open spec fn where_ok(tables: Seq<TableMeta>, w: Option<Vec<WhereClause>>) -> bool {
    match w {
        Some(cls) => forall|k: int| 0 <= k < cls@.len() ==> clause_ok(tables, #[trigger] cls@[k]),
        None => true,
    }
}

/// The conditions as values.
#[verifier::ext_equal]
pub struct CondsView {
    pub ranges: Seq<((Option<Seq<char>>, Seq<char>), RangeView)>,
    pub nulls: Seq<((Option<Seq<char>>, Seq<char>), bool)>,
    pub pairs: Seq<((Option<Seq<char>>, Seq<char>), (Option<Seq<char>>, Seq<char>), ast::Op)>,
}

pub open spec fn no_conds() -> CondsView {
    CondsView { ranges: Seq::empty(), nulls: Seq::empty(), pairs: Seq::empty() }
}

/// The range of all values.
pub open spec fn all_values() -> RangeView {
    RangeView { min: None, min_equal: false, max: None, max_equal: false, not_equal: Seq::empty() }
}

/// A range condition on `cv` is one on the column `col`: the same name, and the same table
/// where `col` names one.
pub open spec fn hits(cv: (Option<Seq<char>>, Seq<char>), col: Column) -> bool {
    &&& cv.1 == col.col_name@
    &&& match col.tb_name {
        Some(t) => cv.0 == Some(t@),
        None => true,
    }
}

/// `i` is the first range condition on the column `col`.
pub open spec fn hit_at(rs: Seq<((Option<Seq<char>>, Seq<char>), RangeView)>, col: Column, i: int) -> bool {
    &&& 0 <= i < rs.len()
    &&& hits(rs[i].0, col)
    &&& forall|j: int| 0 <= j < i ==> !hits(#[trigger] rs[j].0, col)
}

/// The conditions after one more clause: a null test or a comparison of two columns is
/// added; a comparison with a value narrows the first range condition on that column, or adds
/// one on it where there is none.
pub open spec fn cond_step(tables: Seq<TableMeta>, s: CondsView, cl: WhereClause) -> CondsView {
    match cl {
        WhereClause::IsAssert { col, null } => CondsView { nulls: s.nulls.push((qualified(tables, col), null)), ..s },
        WhereClause::Comparison { col, op, expr } => match expr {
            Expr::Value(v) => {
                let d = value_data(v).unwrap();
                if exists|i: int| hit_at(s.ranges, col, i) {
                    let i = choose|i: int| hit_at(s.ranges, col, i);
                    CondsView { ranges: s.ranges.update(i, (s.ranges[i].0, narrowed(s.ranges[i].1, op, d))), ..s }
                } else {
                    CondsView { ranges: s.ranges.push((qualified(tables, col), narrowed(all_values(), op, d))), ..s }
                }
            },
            Expr::Column(r) => CondsView {
                pairs: s.pairs.push((qualified(tables, col), qualified(tables, r), op)),
                ..s
            },
        },
    }
}

/// The conditions of the clauses, taken in order.
pub open spec fn conds_of(tables: Seq<TableMeta>, cls: Seq<WhereClause>) -> CondsView
    decreases cls.len(),
{
    if cls.len() == 0 {
        no_conds()
    } else {
        cond_step(tables, conds_of(tables, cls.drop_last()), cls.last())
    }
}

/// The conditions of a where clause; none where there is none.
pub open spec fn where_conds(tables: Seq<TableMeta>, w: Option<Vec<WhereClause>>) -> CondsView {
    match w {
        Some(cls) => conds_of(tables, cls@),
        None => no_conds(),
    }
}

pub open spec fn range_views(rc: Seq<RangeCondition>) -> Seq<((Option<Seq<char>>, Seq<char>), RangeView)> {
    rc.map_values(|c: RangeCondition| (cview(c.col), c.range@))
}

/// The conditions held in the three lists, as values.
pub open spec fn conds_view(rc: Seq<RangeCondition>, nc: Seq<NullCondition>, pc: Seq<PairCondition>) -> CondsView {
    CondsView {
        ranges: range_views(rc),
        nulls: nc.map_values(|c: NullCondition| (cview(c.col), c.is_null)),
        pairs: pc.map_values(|c: PairCondition| (cview(c.l_col), cview(c.r_col), c.op)),
    }
}

fn copy_op(op: &ast::Op) -> (r: ast::Op)
    ensures
        r == *op,
{
    match op {
        ast::Op::Equal => ast::Op::Equal,
        ast::Op::NotEqual => ast::Op::NotEqual,
        ast::Op::LessEqual => ast::Op::LessEqual,
        ast::Op::GreaterEqual => ast::Op::GreaterEqual,
        ast::Op::Less => ast::Op::Less,
        ast::Op::Greater => ast::Op::Greater,
    }
}

/// The column `col` names, with the name of its table filled in.
fn qualify(tables: &Vec<TableMeta>, col: &Column) -> (r: Column)
    requires
        col.tb_name is None ==> col_known(tables@, *col),
    ensures
        cview(r) == qualified(tables@, *col),
{
    match &col.tb_name {
        Some(t) => Column { tb_name: Some(t.clone()), col_name: col.col_name.clone() },
        None => {
            let mut i: usize = 0;
            while i < tables.len()
                invariant
                    i <= tables@.len(),
                    col.tb_name is None,
                    col_known(tables@, *col),
                    forall|j: int| 0 <= j < i ==> col_named((#[trigger] tables@[j]).cols@, col.col_name@) is None,
                decreases tables@.len() - i,
            {
                if find_col(&tables[i].cols, &col.col_name).is_some() {
                    proof {
                        assert(holder_at(tables@, col.col_name@, i as int));
                        let c = choose|c: int| holder_at(tables@, col.col_name@, c);
                        if c < i {
                            assert(col_named(tables@[c].cols@, col.col_name@) is None);
                        } else if i < c {
                            assert(col_named(tables@[i as int].cols@, col.col_name@) is None);
                        }
                    }
                    return Column { tb_name: Some(tables[i].name.clone()), col_name: col.col_name.clone() };
                }
                i = i + 1;
            }
            proof {
                let k = choose|k: int| 0 <= k < tables@.len() && col_named(#[trigger] tables@[k].cols@, col.col_name@) is Some;
                assert(col_named(tables@[k].cols@, col.col_name@) is None);
            }
            Column { tb_name: None, col_name: col.col_name.clone() }
        },
    }
}

/// The first range condition on the column `col`.
fn find_hit(rc: &Vec<RangeCondition>, col: &Column) -> (r: Option<usize>)
    requires
        forall|j: int| 0 <= j < rc@.len() ==> (#[trigger] rc@[j]).col.tb_name is Some,
    ensures
        match r {
            Some(i) => hit_at(range_views(rc@), *col, i as int),
            None => forall|j: int| 0 <= j < rc@.len() ==> !hits(#[trigger] range_views(rc@)[j].0, *col),
        },
{
    let ghost rs = range_views(rc@);
    let mut i: usize = 0;
    while i < rc.len()
        invariant
            i <= rc@.len(),
            rs == range_views(rc@),
            forall|j: int| 0 <= j < rc@.len() ==> (#[trigger] rc@[j]).col.tb_name is Some,
            forall|j: int| 0 <= j < i ==> !hits(#[trigger] rs[j].0, *col),
        decreases rc@.len() - i,
    {
        let c = &rc[i].col;
        assert(rs[i as int].0 == cview(*c));
        let hit = c.col_name == col.col_name && match &col.tb_name {
            Some(t) => match &c.tb_name {
                Some(x) => *x == *t,
                None => false,
            },
            None => true,
        };
        if hit {
            return Some(i);
        }
        i = i + 1;
    }
    None
}

/// Turns the where clause into conditions: for each clause in order, a null test or a
/// comparison of two columns is added (its columns with their tables named); a comparison
/// with a value narrows the first range condition on that column, or adds a new one.
pub fn create_conds(
    tables: &Vec<TableMeta>,
    where_clause: &Option<Vec<WhereClause>>,
    range_conds: &mut Vec<RangeCondition>,
    null_conds: &mut Vec<NullCondition>,
    pair_conds: &mut Vec<PairCondition>,
)
    requires
        distinct_tables(tables@),
        where_ok(tables@, *where_clause),
        old(range_conds)@.len() == 0,
        old(null_conds)@.len() == 0,
        old(pair_conds)@.len() == 0,
    ensures
        conds_view(final(range_conds)@, final(null_conds)@, final(pair_conds)@) == where_conds(tables@, *where_clause),
{
    match where_clause {
        None => {
            assert(conds_view(range_conds@, null_conds@, pair_conds@) =~= no_conds());
        },
        Some(cls) => {
            let mut k: usize = 0;
            assert(conds_view(range_conds@, null_conds@, pair_conds@) =~= no_conds());
            assert(cls@.take(0) =~= Seq::<WhereClause>::empty());
            while k < cls.len()
                invariant
                    k <= cls@.len(),
                    distinct_tables(tables@),
                    forall|j: int| 0 <= j < cls@.len() ==> clause_ok(tables@, #[trigger] cls@[j]),
                    forall|j: int| 0 <= j < range_conds@.len() ==> (#[trigger] range_conds@[j]).col.tb_name is Some,
                    conds_view(range_conds@, null_conds@, pair_conds@) == conds_of(tables@, cls@.take(k as int)),
                decreases cls@.len() - k,
            {
                let cl = &cls[k];
                assert(clause_ok(tables@, *cl));
                let ghost before = conds_view(range_conds@, null_conds@, pair_conds@);
                assert(cls@.take(k + 1).drop_last() =~= cls@.take(k as int));
                assert(cls@.take(k + 1).last() == *cl);
                match cl {
                    WhereClause::IsAssert { col, null } => {
                        let c = qualify(tables, col);
                        null_conds.push(NullCondition { col: c, is_null: *null });
                        assert(conds_view(range_conds@, null_conds@, pair_conds@) =~= cond_step(tables@, before, *cl));
                    },
                    WhereClause::Comparison { col, op, expr } => {
                        match expr {
                            Expr::Value(v) => {
                                let d = value2data(v);
                                let ghost dv = value_data(*v).unwrap();
                                assert(d == Some(dv));
                                match find_hit(range_conds, col) {
                                    Some(i) => {
                                        let ghost old_rc = range_conds@;
                                        let mut c = range_conds.remove(i);
                                        c.update(op, d);
                                        range_conds.insert(i, c);
                                        proof {
                                            assert(range_conds@ =~= old_rc.update(i as int, range_conds@[i as int]));
                                            assert(range_views(range_conds@) =~= range_views(old_rc).update(
                                                i as int,
                                                (range_views(old_rc)[i as int].0, narrowed(range_views(old_rc)[i as int].1, *op, dv)),
                                            ));
                                            let c2 = choose|c2: int| hit_at(before.ranges, *col, c2);
                                            if c2 < i {
                                                assert(!hits(before.ranges[c2].0, *col));
                                            } else if i < c2 {
                                                assert(!hits(before.ranges[i as int].0, *col));
                                            }
                                        }
                                        assert(conds_view(range_conds@, null_conds@, pair_conds@) =~= cond_step(tables@, before, *cl));
                                    },
                                    None => {
                                        let qc = qualify(tables, col);
                                        let mut c = RangeCondition { col: qc, range: Range::new() };
                                        assert(c.range@ == all_values());
                                        c.update(op, d);
                                        let ghost old_rc = range_conds@;
                                        range_conds.push(c);
                                        proof {
                                            assert(range_views(range_conds@) =~= range_views(old_rc).push(
                                                (qualified(tables@, *col), narrowed(all_values(), *op, dv)),
                                            ));
                                            if exists|i: int| hit_at(before.ranges, *col, i) {
                                                let i = choose|i: int| hit_at(before.ranges, *col, i);
                                                assert(!hits(range_views(old_rc)[i].0, *col));
                                            }
                                        }
                                        assert(conds_view(range_conds@, null_conds@, pair_conds@) =~= cond_step(tables@, before, *cl));
                                    },
                                }
                            },
                            Expr::Column(r) => {
                                let l = qualify(tables, col);
                                let rr = qualify(tables, r);
                                pair_conds.push(PairCondition { l_col: l, r_col: rr, op: copy_op(op) });
                                assert(conds_view(range_conds@, null_conds@, pair_conds@) =~= cond_step(tables@, before, *cl));
                            },
                        }
                    },
                }
                k = k + 1;
            }
            assert(cls@.take(cls@.len() as int) =~= cls@);
        },
    }
}

} // verus!
