//! Selecting rows: which rows meet the conditions of a query, and which index serves it best.
use vstd::prelude::*;
use crate::parser::ast;
use crate::rm::record::ColumnData;
use crate::rm::record::ColumnType;
use crate::rm::record::Data;
use crate::rm::record::Record;
use crate::rm::record::RecordList;
use crate::rm::record::first_match;
use crate::rm::record::column_matches;
use crate::sm::query_tree::RangeCondition;
use crate::sm::query_tree::in_range;
use crate::sm::query_tree::op_holds;
use crate::sm::convert::value2data;
use crate::sm::convert::value_data;
use crate::sm::convert::value_readable;

verus! {

/// The value a row holds in the first column of `ty` that `col` names; `None` where no column
/// is named or the row holds NULL there.
pub open spec fn row_value(cols: Seq<ColumnData>, ty: Seq<ColumnType>, col: ast::Column) -> Option<Data> {
    if exists|i: int| first_match(ty, col, i) {
        cols[choose|i: int| first_match(ty, col, i)].data
    } else {
        None
    }
}

/// At most one column of `ty` is the first that `col` names.
pub proof fn lemma_first_match_unique(ty: Seq<ColumnType>, col: ast::Column, i: int, j: int)
    requires
        first_match(ty, col, i),
        first_match(ty, col, j),
    ensures
        i == j,
{
    if i < j {
        assert(column_matches(ty[i], col));
    } else if j < i {
        assert(column_matches(ty[j], col));
    }
}

/// The value of the named column in a row.
pub fn value_of(row: &Record, col: &ast::Column, ty: &Vec<ColumnType>) -> (r: Option<Data>)
    requires
        ty@.len() <= row.cols@.len(),
    ensures
        r == row_value(row.cols@, ty@, *col),
{
    let r = row.get_match_data(col, ty);
    proof {
        if exists|i: int| first_match(ty@, *col, i) {
            let i = choose|i: int| first_match(ty@, *col, i);
            let j = choose|j: int| first_match(ty@, *col, j) && r == row.cols@[j].data;
            if first_match(ty@, *col, j) && r == row.cols@[j].data {
                lemma_first_match_unique(ty@, *col, i, j);
            } else {
                assert(!column_matches(ty@[i], *col));
            }
        }
    }
    r
}

/// A row meets a clause of a where clause: a null test on a column holds when the row's
/// value there is NULL exactly when NULL is asked for (and holds where no column is named); a
/// comparison holds when both sides have values that stand in the relation.
pub open spec fn clause_holds(cl: ast::WhereClause, cols: Seq<ColumnData>, ty: Seq<ColumnType>) -> bool {
    match cl {
        ast::WhereClause::IsAssert { col, null } => {
            if exists|i: int| first_match(ty, col, i) {
                let i = choose|i: int| first_match(ty, col, i);
                (cols[i].data is None && null) || (cols[i].data is Some && !null)
            } else {
                true
            }
        },
        ast::WhereClause::Comparison { col, op, expr } => {
            let right = match expr {
                ast::Expr::Value(v) => value_data(v),
                ast::Expr::Column(c) => row_value(cols, ty, c),
            };
            match (row_value(cols, ty, col), right) {
                (Some(a), Some(b)) => op_holds(op, a, b),
                _ => false,
            }
        },
    }
}

/// The value of a clause's right side can be read.
pub open spec fn clause_readable(cl: ast::WhereClause) -> bool {
    match cl {
        ast::WhereClause::Comparison { expr: ast::Expr::Value(v), .. } => value_readable(v),
        _ => true,
    }
}

fn compare_op(op: &ast::Op, a: &Data, b: &Data) -> (r: bool)
    ensures
        r == op_holds(*op, *a, *b),
{
    let c = a.compare(b);
    match op {
        ast::Op::Equal => c == 0,
        ast::Op::NotEqual => c != 0,
        ast::Op::LessEqual => c <= 0,
        ast::Op::GreaterEqual => c >= 0,
        ast::Op::Less => c < 0,
        ast::Op::Greater => c > 0,
    }
}

impl Record {
    /// Whether the row, of the columns `ty`, meets the clause.
    pub fn match_(&self, condition: &ast::WhereClause, ty: &Vec<ColumnType>) -> (r: bool)
        requires
            ty@.len() <= self.cols@.len(),
            clause_readable(*condition),
        ensures
            r == clause_holds(*condition, self.cols@, ty@),
    {
        match condition {
            ast::WhereClause::IsAssert { col, null } => {
                let mut i: usize = 0;
                while i < ty.len()
                    invariant
                        i <= ty@.len() <= self.cols@.len(),
                        *condition == (ast::WhereClause::IsAssert { col: *col, null: *null }),
                        forall|j: int| 0 <= j < i ==> !column_matches(#[trigger] ty@[j], *col),
                    decreases ty@.len() - i,
                {
                    if ty[i].match_(col) {
                        assert(first_match(ty@, *col, i as int));
                        proof {
                            let c = choose|c: int| first_match(ty@, *col, c);
                            lemma_first_match_unique(ty@, *col, c, i as int);
                        }
                        let is_none = self.cols[i].data.is_none();
                        let r = (is_none && *null) || (!is_none && !*null);
                        return r;
                    }
                    i = i + 1;
                }
                proof {
                    if exists|c: int| first_match(ty@, *col, c) {
                        let c = choose|c: int| first_match(ty@, *col, c);
                        assert(!column_matches(ty@[c], *col));
                    }
                }
                true
            },
            ast::WhereClause::Comparison { col, op, expr } => {
                let l = value_of(self, col, ty);
                let r = match expr {
                    ast::Expr::Value(v) => value2data(v),
                    ast::Expr::Column(c) => value_of(self, c, ty),
                };
                match (l, r) {
                    (Some(a), Some(b)) => compare_op(op, &a, &b),
                    _ => false,
                }
            },
        }
    }
}

/// A comparison of two columns of a row.
pub struct PairCondition {
    pub l_col: ast::Column,
    pub r_col: ast::Column,
    pub op: ast::Op,
}

/// A test of whether a column holds NULL.
pub struct NullCondition {
    pub col: ast::Column,
    pub is_null: bool,
}

/// A row meets a range condition: the column holds a value, and the value is in the range.
pub open spec fn range_holds(c: RangeCondition, cols: Seq<ColumnData>, ty: Seq<ColumnType>) -> bool {
    match row_value(cols, ty, c.col) {
        Some(d) => in_range(c.range@, d),
        None => false,
    }
}

/// A row meets a pair condition: both columns hold values, and they stand in the relation.
pub open spec fn pair_holds(c: PairCondition, cols: Seq<ColumnData>, ty: Seq<ColumnType>) -> bool {
    match (row_value(cols, ty, c.l_col), row_value(cols, ty, c.r_col)) {
        (Some(a), Some(b)) => op_holds(c.op, a, b),
        _ => false,
    }
}

impl RangeCondition {
    /// Whether the row meets the condition.
    pub fn match_(&self, record: &Record, ty: &Vec<ColumnType>) -> (r: bool)
        requires
            ty@.len() <= record.cols@.len(),
        ensures
            r == range_holds(*self, record.cols@, ty@),
    {
        match value_of(record, &self.col, ty) {
            Some(d) => self.contains(&d),
            None => false,
        }
    }
}

impl PairCondition {
    /// Whether the row meets the condition.
    pub fn match_(&self, record: &Record, ty: &Vec<ColumnType>) -> (r: bool)
        requires
            ty@.len() <= record.cols@.len(),
        ensures
            r == pair_holds(*self, record.cols@, ty@),
    {
        let l = value_of(record, &self.l_col, ty);
        let r = value_of(record, &self.r_col, ty);
        match (l, r) {
            (Some(a), Some(b)) => {
                let c = a.compare(&b);
                match self.op {
                    ast::Op::Equal => c == 0,
                    ast::Op::NotEqual => c != 0,
                    ast::Op::LessEqual => c <= 0,
                    ast::Op::GreaterEqual => c >= 0,
                    ast::Op::Less => c < 0,
                    ast::Op::Greater => c > 0,
                }
            },
            _ => false,
        }
    }
}

impl NullCondition {
    /// Whether the row meets the condition: a null test is met by no row when rows are
    /// selected.
    pub fn match_(&self, record: &Record, ty: &Vec<ColumnType>) -> (r: bool)
        ensures
            r == false,
    {
        false
    }
}

/// The conditions that the rows of one step of a query must meet.
pub struct SelectNode {
    pub range_conds: Vec<RangeCondition>,
    pub pair_conds: Vec<PairCondition>,
    pub null_conds: Vec<NullCondition>,
}

/// A row meets every condition of the step.
pub open spec fn row_valid(n: SelectNode, cols: Seq<ColumnData>, ty: Seq<ColumnType>) -> bool {
    &&& forall|i: int| 0 <= i < n.range_conds@.len() ==> range_holds(#[trigger] n.range_conds@[i], cols, ty)
    &&& forall|i: int| 0 <= i < n.pair_conds@.len() ==> pair_holds(#[trigger] n.pair_conds@[i], cols, ty)
    &&& n.null_conds@.len() == 0
}

/// The rows as sequences of column values.
pub open spec fn rows_view(rows: Seq<Record>) -> Seq<Seq<ColumnData>> {
    rows.map_values(|r: Record| r.cols@)
}

/// The rows that meet every condition of the step, in their order.
pub open spec fn selected(n: SelectNode, rows: Seq<Seq<ColumnData>>, ty: Seq<ColumnType>) -> Seq<Seq<ColumnData>>
    decreases rows.len(),
{
    if rows.len() == 0 {
        Seq::empty()
    } else {
        let before = selected(n, rows.drop_last(), ty);
        if row_valid(n, rows.last(), ty) {
            before.push(rows.last())
        } else {
            before
        }
    }
}

/// Every row of the list has a value for each of its columns.
pub open spec fn rows_fit(list: RecordList) -> bool {
    forall|k: int| 0 <= k < list.record@.len() ==> list.ty@.len() <= (#[trigger] list.record@[k]).cols@.len()
}

/// The conditions that one of the names of an index's columns is the first to be met by: the
/// first range condition on a column of that name.
pub open spec fn first_cond(rc: Seq<RangeCondition>, name: Seq<char>, i: int) -> bool {
    &&& 0 <= i < rc.len()
    &&& rc[i].col.col_name@ == name
    &&& forall|j: int| 0 <= j < i ==> (#[trigger] rc[j]).col.col_name@ != name
}

/// The condition fixes a single value.
pub open spec fn single(c: RangeCondition) -> bool {
    &&& c.range.min is Some
    &&& c.range.max is Some
    &&& crate::rm::record::data_order(c.range.min.unwrap(), c.range.max.unwrap()) == 0
    &&& c.range.min_equal
    &&& c.range.max_equal
}

/// How many leading columns of an index, from the `k`-th on, the conditions serve: a column
/// counts where a condition names it, and the next one is looked at only where that condition
/// fixes a single value.
pub open spec fn used_from(rc: Seq<RangeCondition>, cols: Seq<u32>, ty: Seq<ColumnType>, k: int) -> nat
    decreases cols.len() - k,
{
    if k < 0 || k >= cols.len() {
        0
    } else if exists|i: int| first_cond(rc, ty[cols[k] as int].name@, i) {
        let i = choose|i: int| first_cond(rc, ty[cols[k] as int].name@, i);
        if single(rc[i]) {
            1 + used_from(rc, cols, ty, k + 1)
        } else {
            1
        }
    } else {
        0
    }
}

/// The first index, among those that serve some conditions, that serves the most of them.
pub open spec fn best_from(n: SelectNode, trees: Seq<Vec<u32>>, ty: Seq<ColumnType>, k: int) -> (Option<int>, nat)
    decreases k,
{
    if k <= 0 {
        (None, 0)
    } else {
        let prev = best_from(n, trees, ty, k - 1);
        let used = used_from(n.range_conds@, trees[k - 1]@, ty, 0);
        if used > prev.1 {
            (Some(k - 1), used)
        } else {
            prev
        }
    }
}

/// The first range condition on a column named `name`.
fn first_cond_index(rc: &Vec<RangeCondition>, name: &String) -> (r: Option<usize>)
    ensures
        match r {
            Some(i) => first_cond(rc@, name@, i as int),
            None => forall|j: int| 0 <= j < rc@.len() ==> (#[trigger] rc@[j]).col.col_name@ != name@,
        },
{
    let mut i: usize = 0;
    while i < rc.len()
        invariant
            i <= rc@.len(),
            forall|j: int| 0 <= j < i ==> (#[trigger] rc@[j]).col.col_name@ != name@,
        decreases rc@.len() - i,
    {
        if rc[i].col.col_name == *name {
            return Some(i);
        }
        i = i + 1;
    }
    None
}

impl SelectNode {
    /// Whether the row meets every condition.
    pub fn is_valid(&self, record: &Record, ty: &Vec<ColumnType>) -> (r: bool)
        requires
            ty@.len() <= record.cols@.len(),
        ensures
            r == row_valid(*self, record.cols@, ty@),
    {
        let mut valid = true;
        let mut i: usize = 0;
        while i < self.range_conds.len()
            invariant
                i <= self.range_conds@.len(),
                ty@.len() <= record.cols@.len(),
                valid == forall|j: int| 0 <= j < i ==> range_holds(#[trigger] self.range_conds@[j], record.cols@, ty@),
            decreases self.range_conds@.len() - i,
        {
            let m = self.range_conds[i].match_(record, ty);
            valid = valid && m;
            i = i + 1;
        }
        let mut i: usize = 0;
        while i < self.pair_conds.len()
            invariant
                i <= self.pair_conds@.len(),
                ty@.len() <= record.cols@.len(),
                valid == ((forall|j: int| 0 <= j < self.range_conds@.len() ==> range_holds(#[trigger] self.range_conds@[j], record.cols@, ty@))
                    && forall|j: int| 0 <= j < i ==> pair_holds(#[trigger] self.pair_conds@[j], record.cols@, ty@)),
            decreases self.pair_conds@.len() - i,
        {
            let m = self.pair_conds[i].match_(record, ty);
            valid = valid && m;
            i = i + 1;
        }
        let mut i: usize = 0;
        while i < self.null_conds.len()
            invariant
                i <= self.null_conds@.len(),
                i > 0 ==> !valid,
                i == 0 ==> valid == ((forall|j: int| 0 <= j < self.range_conds@.len() ==> range_holds(#[trigger] self.range_conds@[j], record.cols@, ty@))
                    && forall|j: int| 0 <= j < self.pair_conds@.len() ==> pair_holds(#[trigger] self.pair_conds@[j], record.cols@, ty@)),
            decreases self.null_conds@.len() - i,
        {
            let m = self.null_conds[i].match_(record, ty);
            valid = valid && m;
            i = i + 1;
        }
        valid
    }

    /// The rows of `rows` that meet every condition, in their order, with the same columns.
    pub fn query(&self, rows: RecordList) -> (r: RecordList)
        requires
            rows_fit(rows),
        ensures
            r.ty == rows.ty,
            rows_view(r.record@) == selected(*self, rows_view(rows.record@), rows.ty@),
    {
        let mut record: Vec<Record> = Vec::new();
        let mut i: usize = 0;
        while i < rows.record.len()
            invariant
                i <= rows.record@.len(),
                rows_fit(rows),
                rows_view(record@) == selected(*self, rows_view(rows.record@).take(i as int), rows.ty@),
            decreases rows.record@.len() - i,
        {
            let row = &rows.record[i];
            let ok = self.is_valid(row, &rows.ty);
            let ghost all = rows_view(rows.record@);
            assert(all.take(i + 1).drop_last() =~= all.take(i as int));
            assert(all.take(i + 1).last() == row.cols@);
            if ok {
                let copy = row.duplicate();
                let ghost before = record@;
                record.push(copy);
                assert(rows_view(record@) =~= rows_view(before).push(row.cols@));
            }
            i = i + 1;
        }
        assert(rows_view(rows.record@).take(rows.record@.len() as int) =~= rows_view(rows.record@));
        RecordList { ty: rows.ty, record }
    }

    /// How many leading columns of the index on `index_col` the conditions serve.
    pub fn used_index_count(&self, index_col: &Vec<u32>, ty: &Vec<ColumnType>) -> (r: usize)
        requires
            forall|k: int| 0 <= k < index_col@.len() ==> (#[trigger] index_col@[k]) < ty@.len(),
        ensures
            r == used_from(self.range_conds@, index_col@, ty@, 0),
    {
        let mut count: usize = 0;
        let mut k: usize = 0;
        while k < index_col.len()
            invariant
                k <= index_col@.len(),
                count == k,
                forall|j: int| 0 <= j < index_col@.len() ==> (#[trigger] index_col@[j]) < ty@.len(),
                used_from(self.range_conds@, index_col@, ty@, 0) == k + used_from(self.range_conds@, index_col@, ty@, k as int),
            decreases index_col@.len() - k,
        {
            let name = &ty[index_col[k] as usize].name;
            let found = first_cond_index(&self.range_conds, name);
            match found {
                None => {
                    proof {
                        if exists|i: int| first_cond(self.range_conds@, name@, i) {
                            let i = choose|i: int| first_cond(self.range_conds@, name@, i);
                            assert(self.range_conds@[i].col.col_name@ == name@);
                        }
                    }
                    return count;
                },
                Some(i) => {
                    assert(first_cond(self.range_conds@, name@, i as int));
                    proof {
                        let c = choose|c: int| first_cond(self.range_conds@, name@, c);
                        if c < i {
                            assert(self.range_conds@[c].col.col_name@ == name@);
                        } else if i < c {
                            assert(self.range_conds@[i as int].col.col_name@ == name@);
                        }
                    }
                    let go_on = self.range_conds[i].is_single();
                    if !go_on {
                        return count + 1;
                    }
                },
            }
            count = count + 1;
            k = k + 1;
        }
        count
    }

    /// Of the indexes on the column lists `trees`, the first of those that serve the most
    /// leading columns; `None` where none serves any.
    pub fn best_index(&self, trees: &Vec<Vec<u32>>, ty: &Vec<ColumnType>) -> (r: Option<usize>)
        requires
            forall|t: int, k: int|
                0 <= t < trees@.len() && 0 <= k < trees@[t]@.len() ==> (#[trigger] trees@[t]@[k]) < ty@.len(),
        ensures
            match r {
                Some(t) => best_from(*self, trees@, ty@, trees@.len() as int).0 == Some(t as int),
                None => best_from(*self, trees@, ty@, trees@.len() as int).0 is None,
            },
    {
        let mut best: Option<usize> = None;
        let mut max_used: usize = 0;
        let mut t: usize = 0;
        while t < trees.len()
            invariant
                t <= trees@.len(),
                forall|a: int, k: int|
                    0 <= a < trees@.len() && 0 <= k < trees@[a]@.len() ==> (#[trigger] trees@[a]@[k]) < ty@.len(),
                best_from(*self, trees@, ty@, t as int).1 == max_used,
                match best {
                    Some(b) => best_from(*self, trees@, ty@, t as int).0 == Some(b as int),
                    None => best_from(*self, trees@, ty@, t as int).0 is None,
                },
            decreases trees@.len() - t,
        {
            let cols = &trees[t];
            assert(forall|k: int| 0 <= k < cols@.len() ==> (#[trigger] cols@[k]) < ty@.len()) by {
                assert forall|k: int| 0 <= k < cols@.len() implies (#[trigger] cols@[k]) < ty@.len() by {
                    assert(trees@[t as int]@[k] < ty@.len());
                }
            }
            let used = self.used_index_count(cols, ty);
            if used > max_used {
                best = Some(t);
                max_used = used;
            }
            t = t + 1;
        }
        best
    }
}


/// Each row of `rs` joined with each row of `sub`, the rows of `rs` outermost.
pub open spec fn rows_times(rs: Seq<Seq<ColumnData>>, sub: Seq<Seq<ColumnData>>) -> Seq<Seq<ColumnData>>
    decreases rs.len(),
{
    if rs.len() == 0 {
        Seq::empty()
    } else {
        rows_times(rs.drop_last(), sub) + sub.map_values(|p: Seq<ColumnData>| rs.last() + p)
    }
}

/// The product of the row lists from the `pos`-th on: every choice of one row from each,
/// joined in order, the earlier lists outermost; one empty row where no list is left.
pub open spec fn product_from(ls: Seq<Seq<Seq<ColumnData>>>, pos: int) -> Seq<Seq<ColumnData>>
    decreases ls.len() - pos,
{
    if pos < 0 || pos >= ls.len() {
        seq![Seq::<ColumnData>::empty()]
    } else {
        rows_times(ls[pos], product_from(ls, pos + 1))
    }
}

/// The rows of each list.
pub open spec fn lists_view(lists: Seq<RecordList>) -> Seq<Seq<Seq<ColumnData>>> {
    lists.map_values(|l: RecordList| rows_view(l.record@))
}

/// The columns of the lists, one after another.
pub open spec fn types_joined(lists: Seq<RecordList>) -> Seq<ColumnType>
    decreases lists.len(),
{
    if lists.len() == 0 {
        Seq::empty()
    } else {
        types_joined(lists.drop_last()) + lists.last().ty@
    }
}

fn join_row(a: &Record, b: &Record) -> (r: Record)
    ensures
        r.cols@ == a.cols@ + b.cols@,
{
    let mut cols: Vec<ColumnData> = Vec::new();
    let mut i: usize = 0;
    while i < a.cols.len()
        invariant
            i <= a.cols@.len(),
            cols@ == a.cols@.take(i as int),
        decreases a.cols@.len() - i,
    {
        cols.push(a.cols[i].duplicate());
        i = i + 1;
        assert(cols@ =~= a.cols@.take(i as int));
    }
    let mut j: usize = 0;
    while j < b.cols.len()
        invariant
            j <= b.cols@.len(),
            cols@ == a.cols@ + b.cols@.take(j as int),
        decreases b.cols@.len() - j,
    {
        cols.push(b.cols[j].duplicate());
        j = j + 1;
        assert(cols@ =~= a.cols@ + b.cols@.take(j as int));
    }
    assert(a.cols@.take(a.cols@.len() as int) =~= a.cols@);
    assert(b.cols@.take(b.cols@.len() as int) =~= b.cols@);
    Record { cols }
}

/// The product of the lists from the `pos`-th on.
fn concat(lists: &Vec<RecordList>, pos: usize) -> (r: Vec<Record>)
    requires
        pos <= lists@.len(),
    ensures
        rows_view(r@) == product_from(lists_view(lists@), pos as int),
    decreases lists@.len() - pos,
{
    let ghost ls = lists_view(lists@);
    if pos == lists.len() {
        let r = vec![Record { cols: Vec::new() }];
        assert(rows_view(r@) =~= seq![Seq::<ColumnData>::empty()]);
        return r;
    }
    let sub = concat(lists, pos + 1);
    let rs = &lists[pos].record;
    assert(ls[pos as int] == rows_view(rs@));
    let mut out: Vec<Record> = Vec::new();
    let mut i: usize = 0;
    assert(rows_view(rs@).take(0) =~= Seq::<Seq<ColumnData>>::empty());
    while i < rs.len()
        invariant
            i <= rs@.len(),
            rows_view(out@) == rows_times(rows_view(rs@).take(i as int), rows_view(sub@)),
        decreases rs@.len() - i,
    {
        let ghost start = rows_view(out@);
        let mut j: usize = 0;
        while j < sub.len()
            invariant
                i < rs@.len(),
                j <= sub@.len(),
                rows_view(out@) == start + rows_view(sub@).take(j as int).map_values(
                    |p: Seq<ColumnData>| rs@[i as int].cols@ + p,
                ),
            decreases sub@.len() - j,
        {
            let joined = join_row(&rs[i], &sub[j]);
            let ghost before = out@;
            out.push(joined);
            assert(rows_view(out@) =~= rows_view(before).push(joined.cols@));
            assert(rows_view(sub@).take(j + 1).map_values(|p: Seq<ColumnData>| rs@[i as int].cols@ + p)
                =~= rows_view(sub@).take(j as int).map_values(|p: Seq<ColumnData>| rs@[i as int].cols@ + p).push(
                rs@[i as int].cols@ + sub@[j as int].cols@));
            j = j + 1;
        }
        assert(rows_view(sub@).take(sub@.len() as int) =~= rows_view(sub@));
        let ghost rv = rows_view(rs@);
        assert(rv.take(i + 1).drop_last() =~= rv.take(i as int));
        assert(rv.take(i + 1).last() == rs@[i as int].cols@);
        i = i + 1;
    }
    assert(rows_view(rs@).take(rs@.len() as int) =~= rows_view(rs@));
    out
}

/// Rows of several lists joined: a single list as it is; else the columns of all lists, one
/// after another, and every choice of one row from each list, joined in order.
pub struct ProductNode {
    pub son: Vec<RecordList>,
}

impl ProductNode {
    /// The product of the lists.
    pub fn query(self) -> (r: RecordList)
        ensures
            self.son@.len() == 1 ==> r == self.son@[0],
            self.son@.len() != 1 ==> r.ty@ == types_joined(self.son@) && rows_view(r.record@) == product_from(
                lists_view(self.son@),
                0,
            ),
    {
        let mut lists = self.son;
        if lists.len() == 1 {
            let r = lists.pop().unwrap();
            return r;
        }
        let mut ty: Vec<ColumnType> = Vec::new();
        let mut k: usize = 0;
        assert(lists@.take(0) =~= Seq::<RecordList>::empty());
        while k < lists.len()
            invariant
                k <= lists@.len(),
                ty@ == types_joined(lists@.take(k as int)),
            decreases lists@.len() - k,
        {
            let l = &lists[k];
            let ghost before = ty@;
            let mut t: usize = 0;
            while t < l.ty.len()
                invariant
                    t <= l.ty@.len(),
                    ty@ == before + l.ty@.take(t as int),
                decreases l.ty@.len() - t,
            {
                ty.push(l.ty[t].duplicate());
                t = t + 1;
                assert(ty@ =~= before + l.ty@.take(t as int));
            }
            assert(l.ty@.take(l.ty@.len() as int) =~= l.ty@);
            assert(lists@.take(k + 1).drop_last() =~= lists@.take(k as int));
            k = k + 1;
        }
        assert(lists@.take(lists@.len() as int) =~= lists@);
        let record = concat(&lists, 0);
        RecordList { ty, record }
    }
}

/// How many of the named columns `cols` the column `ct` is.
pub open spec fn times_named(ct: ColumnType, cols: Seq<ast::Column>) -> nat
    decreases cols.len(),
{
    if cols.len() == 0 {
        0
    } else {
        times_named(ct, cols.drop_last()) + if column_matches(ct, cols.last()) { 1nat } else { 0nat }
    }
}

/// The places of the first `n` columns of `ty`, each as many times as the selector names it.
pub open spec fn picked(ty: Seq<ColumnType>, cols: Seq<ast::Column>, n: int) -> Seq<usize>
    decreases n,
{
    if n <= 0 {
        Seq::empty()
    } else {
        picked(ty, cols, n - 1) + Seq::new(times_named(ty[n - 1], cols), |k: int| (n - 1) as usize)
    }
}

proof fn lemma_picked_below(ty: Seq<ColumnType>, cols: Seq<ast::Column>, n: int)
    requires
        0 <= n <= ty.len(),
    ensures
        forall|k: int| 0 <= k < picked(ty, cols, n).len() ==> (#[trigger] picked(ty, cols, n)[k]) < n,
    decreases n,
{
    if n > 0 {
        lemma_picked_below(ty, cols, n - 1);
        let a = picked(ty, cols, n - 1);
        let b = Seq::new(times_named(ty[n - 1], cols), |k: int| (n - 1) as usize);
        assert forall|k: int| 0 <= k < picked(ty, cols, n).len() implies (#[trigger] picked(ty, cols, n)[k]) < n by {
            if k < a.len() {
                assert(picked(ty, cols, n)[k] == a[k]);
            } else {
                assert(picked(ty, cols, n)[k] == b[k - a.len()]);
            }
        }
    }
}

/// Keeps the columns a selector names.
pub struct ProjectNode {
    pub cols: Vec<ast::Column>,
}

impl ProjectNode {
    /// The places of the selected columns: each column of `ty`, in order, as many times as
    /// the selector names it.
    pub fn selected_columns(&self, ty: &Vec<ColumnType>) -> (r: Vec<usize>)
        ensures
            r@ == picked(ty@, self.cols@, ty@.len() as int),
    {
        let mut sub: Vec<usize> = Vec::new();
        let mut i: usize = 0;
        while i < ty.len()
            invariant
                i <= ty@.len(),
                sub@ == picked(ty@, self.cols@, i as int),
            decreases ty@.len() - i,
        {
            let ghost start = sub@;
            let mut j: usize = 0;
            assert(self.cols@.take(0) =~= Seq::<ast::Column>::empty());
            while j < self.cols.len()
                invariant
                    i < ty@.len(),
                    j <= self.cols@.len(),
                    sub@ == start + Seq::new(times_named(ty@[i as int], self.cols@.take(j as int)), |k: int| i),
                decreases self.cols@.len() - j,
            {
                let ghost before = sub@;
                assert(self.cols@.take(j + 1).drop_last() =~= self.cols@.take(j as int));
                assert(self.cols@.take(j + 1).last() == self.cols@[j as int]);
                if ty[i].match_(&self.cols[j]) {
                    sub.push(i);
                }
                j = j + 1;
                assert(sub@ =~= start + Seq::new(times_named(ty@[i as int], self.cols@.take(j as int)), |k: int| i));
            }
            assert(self.cols@.take(self.cols@.len() as int) =~= self.cols@);
            i = i + 1;
            assert(sub@ =~= picked(ty@, self.cols@, i as int));
        }
        sub
    }

    /// The rows with the selected columns only, in the order of `selected_columns`; all of
    /// them where the selector names none.
    pub fn query(&self, rows: RecordList) -> (r: RecordList)
        requires
            rows_fit(rows),
        ensures
            self.cols@.len() == 0 ==> r == rows,
            self.cols@.len() != 0 ==> ({
                let sub = picked(rows.ty@, self.cols@, rows.ty@.len() as int);
                &&& r.ty@.len() == sub.len()
                &&& forall|k: int| 0 <= k < sub.len() ==> crate::rm::record::same_column(#[trigger] r.ty@[k], rows.ty@[sub[k] as int])
                &&& r.record@.len() == rows.record@.len()
                &&& forall|n: int| 0 <= n < rows.record@.len() ==> (#[trigger] r.record@[n]).cols@.len() == sub.len()
                &&& forall|n: int, k: int|
                    0 <= n < rows.record@.len() && 0 <= k < sub.len() ==> #[trigger] r.record@[n].cols@[k]
                        == rows.record@[n].cols@[sub[k] as int]
            }),
    {
        if self.cols.len() == 0 {
            return rows;
        }
        let sub = self.selected_columns(&rows.ty);
        proof {
            lemma_picked_below(rows.ty@, self.cols@, rows.ty@.len() as int);
            assert forall|n: int, k: int|
                0 <= n < rows.record@.len() && 0 <= k < sub@.len() implies (#[trigger] sub@[k]) < (#[trigger] rows.record@[n]).cols@.len() by {
                assert(rows.ty@.len() <= rows.record@[n].cols@.len());
            }
        }
        rows.sub_record_list(&sub)
    }
}
} // verus!
