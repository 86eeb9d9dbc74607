//! Checks of statements against the tables they name.
use vstd::prelude::*;
use crate::index::btree::BTree;
use crate::index::btree::words;
use crate::index::btree::RawIndex;
use crate::index::btree::raw_equal;
use crate::index::tree::IndexTree;
use crate::sm::keys::distinct_keys;
use crate::sm::keys::keys_distinct;
use crate::sm::keys::keys_found;
use crate::sm::keys::in_tree;
use crate::parser::ast::Value;
use crate::parser::ast::SetClause;
use crate::rm::record::Record;
use crate::rm::record::data_order;
use crate::parser::ast::Field;
use crate::parser::ast::{Column, Expr, Selector, WhereClause};
use crate::parser::ast::value_of_type;
use crate::rm::record::ColumnType;
use crate::rm::record::Type;
use crate::rm::record::kind_matches;
use crate::rm::record::same_column;
use crate::rm::record::same_kind_stored;
use crate::rm::record::value_fits;

verus! {

/// No name occurs twice.
pub open spec fn no_repeat(names: Seq<String>) -> bool {
    forall|i: int, j: int| 0 <= i < j < names.len() ==> names[i]@ != names[j]@
}

pub fn check_no_repeat(names: &Vec<String>) -> (r: bool)
    ensures
        r == no_repeat(names@),
{
    let mut i: usize = 0;
    while i < names.len()
        invariant
            i <= names@.len(),
            forall|a: int, b: int| 0 <= a < b < i ==> names@[a]@ != names@[b]@,
        decreases names@.len() - i,
    {
        let mut j: usize = 0;
        while j < i
            invariant
                i < names@.len(),
                j <= i,
                forall|a: int| 0 <= a < j ==> names@[a]@ != names@[i as int]@,
            decreases i - j,
        {
            if names[j] == names[i] {
                return false;
            }
            j = j + 1;
        }
        i = i + 1;
    }
    true
}

/// Some tree is an index named `idx_name` that can be dropped.
pub open spec fn index_droppable(idx_name: Seq<char>, btrees: Seq<BTree>) -> bool {
    exists|i: int|
        0 <= i < btrees.len() && (#[trigger] btrees[i]).index_name@ == idx_name && btrees[i].ty
            == 2
}

/// Whether the index `idx_name` can be dropped: a tree of that name is an index tree.
pub fn check_drop_index(idx_name: &String, btrees: &Vec<BTree>) -> (r: bool)
    ensures
        r == index_droppable(idx_name@, btrees@),
{
    let mut found = false;
    let mut i: usize = 0;
    while i < btrees.len()
        invariant
            i <= btrees@.len(),
            found == exists|k: int|
                0 <= k < i && (#[trigger] btrees@[k]).index_name@ == idx_name@ && btrees@[k].ty
                    == 2,
        decreases btrees@.len() - i,
    {
        let t = &btrees[i];
        found = found || (t.index_name == *idx_name && t.is_index());
        i = i + 1;
    }
    found
}


/// `name` is among `names`.
pub open spec fn has_name(names: Seq<String>, name: Seq<char>) -> bool {
    exists|i: int| 0 <= i < names.len() && (#[trigger] names[i])@ == name
}

fn contains_name(names: &Vec<String>, name: &String) -> (r: bool)
    ensures
        r == has_name(names@, name@),
{
    let mut i: usize = 0;
    while i < names.len()
        invariant
            i <= names@.len(),
            forall|j: int| 0 <= j < i ==> (#[trigger] names@[j])@ != name@,
        decreases names@.len() - i,
    {
        if names[i] == *name {
            return true;
        }
        i = i + 1;
    }
    false
}

/// Whether an index `idx_name` over `column_list` can be made on a table whose columns are
/// `columns`: the list is not empty and names no column twice, no tree of the table is
/// named `idx_name`, and every listed column exists.
pub fn check_create_index(
    idx_name: &String,
    columns: &Vec<String>,
    column_list: &Vec<String>,
    btrees: &Vec<BTree>,
) -> (r: bool)
    ensures
        r == (column_list@.len() > 0 && no_repeat(column_list@) && !(exists|i: int|
            0 <= i < btrees@.len() && (#[trigger] btrees@[i]).index_name@ == idx_name@) && forall|
            i: int,
        |
            0 <= i < column_list@.len() ==> has_name(columns@, (#[trigger] column_list@[i])@)),
{
    if column_list.len() == 0 {
        return false;
    }
    if !check_no_repeat(column_list) {
        return false;
    }
    let mut i: usize = 0;
    while i < btrees.len()
        invariant
            i <= btrees@.len(),
            forall|j: int| 0 <= j < i ==> (#[trigger] btrees@[j]).index_name@ != idx_name@,
        decreases btrees@.len() - i,
    {
        if btrees[i].index_name == *idx_name {
            return false;
        }
        i = i + 1;
    }
    let mut k: usize = 0;
    while k < column_list.len()
        invariant
            k <= column_list@.len(),
            forall|j: int| 0 <= j < k ==> has_name(columns@, (#[trigger] column_list@[j])@),
        decreases column_list@.len() - k,
    {
        if !contains_name(columns, &column_list[k]) {
            return false;
        }
        k = k + 1;
    }
    true
}

/// Whether `field` can be added to a table whose columns are `columns`: it is a column
/// whose name is not taken.
pub fn check_add_column(columns: &Vec<String>, field: &Field) -> (r: bool)
    ensures
        r == (field matches Field::ColumnField { col_name, .. } && !has_name(columns@, col_name@)),
{
    match field {
        Field::ColumnField { col_name, .. } => !contains_name(columns, col_name),
        _ => false,
    }
}


/// What the checks read of a stored table: its name, its columns in order, and its trees.
pub struct TableMeta {
    pub name: String,
    pub cols: Vec<ColumnType>,
    pub btrees: Vec<BTree>,
}

impl TableMeta {
    /// Every tree of the table indexes columns of the table.
    pub open spec fn wf(self) -> bool {
        forall|t: int, k: int|
            0 <= t < self.btrees@.len() && 0 <= k < self.btrees@[t].index_col@.len()
                ==> (#[trigger] self.btrees@[t].index_col@[k]) < self.cols@.len()
    }
}

/// The column named `name`; where several are, the last of them.
pub open spec fn col_named(cols: Seq<ColumnType>, name: Seq<char>) -> Option<ColumnType>
    decreases cols.len(),
{
    if cols.len() == 0 {
        None
    } else if cols.last().name@ == name {
        Some(cols.last())
    } else {
        col_named(cols.drop_last(), name)
    }
}

/// The place of the column named `name` (the last of them), if there is one.
pub(crate) fn find_col(cols: &Vec<ColumnType>, name: &String) -> (r: Option<usize>)
    ensures
        match r {
            Some(i) => i < cols@.len() && col_named(cols@, name@) == Some(cols@[i as int]),
            None => col_named(cols@, name@) is None,
        },
{
    let mut i: usize = cols.len();
    assert(cols@.take(i as int) =~= cols@);
    while i > 0
        invariant
            i <= cols@.len(),
            col_named(cols@, name@) == col_named(cols@.take(i as int), name@),
        decreases i,
    {
        assert(cols@.take(i as int).drop_last() =~= cols@.take(i - 1));
        if cols[i - 1].name == *name {
            return Some(i - 1);
        }
        i = i - 1;
    }
    None
}

/// `i` is the first table named `name`.
pub open spec fn table_at(tables: Seq<TableMeta>, name: Seq<char>, i: int) -> bool {
    &&& 0 <= i < tables.len()
    &&& tables[i].name@ == name
    &&& forall|j: int| 0 <= j < i ==> (#[trigger] tables[j]).name@ != name
}

/// The first table named `name`, if there is one.
pub(crate) fn find_table(tables: &Vec<TableMeta>, name: &String) -> (r: Option<usize>)
    ensures
        match r {
            Some(i) => table_at(tables@, name@, i as int),
            None => forall|j: int| 0 <= j < tables@.len() ==> (#[trigger] tables@[j]).name@ != name@,
        },
{
    let mut i: usize = 0;
    while i < tables.len()
        invariant
            i <= tables@.len(),
            forall|j: int| 0 <= j < i ==> (#[trigger] tables@[j]).name@ != name@,
        decreases tables@.len() - i,
    {
        if tables[i].name == *name {
            return Some(i);
        }
        i = i + 1;
    }
    None
}

/// `i` is the first primary-key tree.
pub open spec fn primary_at(btrees: Seq<BTree>, i: int) -> bool {
    &&& 0 <= i < btrees.len()
    &&& btrees[i].ty == 1
    &&& forall|j: int| 0 <= j < i ==> (#[trigger] btrees[j]).ty != 1
}

/// The first primary-key tree, if there is one.
pub(crate) fn find_primary(btrees: &Vec<BTree>) -> (r: Option<usize>)
    ensures
        match r {
            Some(i) => primary_at(btrees@, i as int),
            None => forall|j: int| 0 <= j < btrees@.len() ==> (#[trigger] btrees@[j]).ty != 1,
        },
{
    let mut i: usize = 0;
    while i < btrees.len()
        invariant
            i <= btrees@.len(),
            forall|j: int| 0 <= j < i ==> (#[trigger] btrees@[j]).ty != 1,
        decreases btrees@.len() - i,
    {
        if btrees[i].is_primary() {
            return Some(i);
        }
        i = i + 1;
    }
    None
}


/// The name a field declares, for a column.
pub open spec fn declared_name(f: Field) -> Option<Seq<char>> {
    match f {
        Field::ColumnField { col_name, .. } => Some(col_name@),
        _ => None,
    }
}

/// A column's default value, where it has one, is of the column's type.
pub open spec fn default_fits(f: Field) -> bool {
    match f {
        Field::ColumnField { ty, default_value: Some(v), .. } => value_of_type(v, ty),
        _ => true,
    }
}

/// `f` declares a column named `name` whose type is of kind `kind`.
pub open spec fn declared_with_kind(f: Field, name: Seq<char>, kind: Type) -> bool {
    match f {
        Field::ColumnField { col_name, ty, .. } => col_name@ == name && kind_matches(kind, ty),
        _ => false,
    }
}

/// Some field declares a column named `name`.
pub open spec fn declares(fields: Seq<Field>, name: Seq<char>) -> bool {
    exists|i: int| 0 <= i < fields.len() && declared_name(#[trigger] fields[i]) == Some(name)
}

/// The columns of a new table: no two share a name, every default value is of its column's
/// type, and at most one primary key is given.
pub open spec fn columns_ok(fields: Seq<Field>) -> bool {
    &&& forall|i: int, j: int|
        0 <= i < j < fields.len() && (#[trigger] declared_name(fields[i])) is Some
            ==> declared_name(fields[i]) != #[trigger] declared_name(fields[j])
    &&& forall|i: int| 0 <= i < fields.len() ==> default_fits(#[trigger] fields[i])
    &&& forall|i: int, j: int|
        0 <= i < j < fields.len() ==> !((#[trigger] fields[i]) is PrimaryKeyField && (
        #[trigger] fields[j]) is PrimaryKeyField)
}

/// A primary key names declared columns, none twice.
pub open spec fn primary_key_ok(fields: Seq<Field>, f: Field) -> bool {
    match f {
        Field::PrimaryKeyField { column_list } => no_repeat(column_list@) && forall|k: int|
            0 <= k < column_list@.len() ==> declares(fields, (#[trigger] column_list@[k])@),
        _ => true,
    }
}

/// Some field declares a column named `c` of the kind of the column `fc` of table `t`.
pub open spec fn column_fits(fields: Seq<Field>, t: TableMeta, c: Seq<char>, fc: Seq<char>) -> bool {
    exists|i: int|
        0 <= i < fields.len() && declared_with_kind(
            #[trigger] fields[i],
            c,
            col_named(t.cols@, fc).unwrap().data_type,
        )
}

/// The referred table's side of a foreign key from `cols` to `fcols` of table `t`: every
/// referred column exists and is of the kind of the column that refers to it, and the table
/// has a primary key whose columns begin the referred columns, in order.
pub open spec fn foreign_table_ok(
    fields: Seq<Field>,
    t: TableMeta,
    cols: Seq<String>,
    fcols: Seq<String>,
) -> bool {
    &&& forall|k: int| 0 <= k < fcols.len() ==> col_named(t.cols@, (#[trigger] fcols[k])@) is Some
    &&& forall|k: int| 0 <= k < cols.len() ==> #[trigger] column_fits(fields, t, cols[k]@, fcols[k]@)
    &&& exists|p: int|
        primary_at(t.btrees@, p) && fcols.len() >= t.btrees@[p].index_col@.len() && forall|k: int|
            0 <= k < t.btrees@[p].index_col@.len() ==> same_column(
                col_named(t.cols@, fcols[k]@).unwrap(),
                t.cols@[(#[trigger] t.btrees@[p].index_col@[k]) as int],
            )
}

/// A foreign key: as many columns as referred columns, none twice on either side, every
/// column declared, and the referred table found (the first of its name) and fitting.
pub open spec fn foreign_key_ok(fields: Seq<Field>, tables: Seq<TableMeta>, f: Field) -> bool {
    match f {
        Field::ForeignKeyField { column_list, foreign_tb_name, foreign_column_list } => {
            &&& column_list@.len() == foreign_column_list@.len()
            &&& no_repeat(column_list@)
            &&& no_repeat(foreign_column_list@)
            &&& forall|k: int|
                0 <= k < column_list@.len() ==> declares(fields, (#[trigger] column_list@[k])@)
            &&& exists|t: int|
                table_at(tables, foreign_tb_name@, t) && foreign_table_ok(
                    fields,
                    tables[t],
                    column_list@,
                    foreign_column_list@,
                )
        },
        _ => true,
    }
}

/// Whether a table with fields `fields` can be created, where `tables` are the stored tables.
pub open spec fn create_table_ok(fields: Seq<Field>, tables: Seq<TableMeta>) -> bool {
    &&& columns_ok(fields)
    &&& forall|i: int| 0 <= i < fields.len() ==> primary_key_ok(fields, #[trigger] fields[i])
    &&& forall|i: int| 0 <= i < fields.len() ==> foreign_key_ok(fields, tables, #[trigger] fields[i])
}

/// The first field that declares a column named `name`, if any.
fn find_declared(fields: &Vec<Field>, name: &String) -> (r: Option<usize>)
    ensures
        match r {
            Some(i) => i < fields@.len() && declared_name(fields@[i as int]) == Some(name@),
            None => !declares(fields@, name@),
        },
{
    let mut i: usize = 0;
    while i < fields.len()
        invariant
            i <= fields@.len(),
            forall|j: int| 0 <= j < i ==> declared_name(#[trigger] fields@[j]) != Some(name@),
        decreases fields@.len() - i,
    {
        match &fields[i] {
            Field::ColumnField { col_name, .. } => {
                if *col_name == *name {
                    return Some(i);
                }
            },
            _ => {},
        }
        i = i + 1;
    }
    None
}

fn check_columns(fields: &Vec<Field>) -> (r: bool)
    ensures
        r == columns_ok(fields@),
{
    let mut i: usize = 0;
    let mut pk_seen: bool = false;
    while i < fields.len()
        invariant
            i <= fields@.len(),
            forall|a: int, b: int|
                0 <= a < b < i && (#[trigger] declared_name(fields@[a])) is Some
                    ==> declared_name(fields@[a]) != #[trigger] declared_name(fields@[b]),
            forall|a: int| 0 <= a < i ==> default_fits(#[trigger] fields@[a]),
            forall|a: int, b: int|
                0 <= a < b < i ==> !((#[trigger] fields@[a]) is PrimaryKeyField && (
                #[trigger] fields@[b]) is PrimaryKeyField),
            pk_seen <==> exists|a: int| 0 <= a < i && (#[trigger] fields@[a]) is PrimaryKeyField,
        decreases fields@.len() - i,
    {
        match &fields[i] {
            Field::ColumnField { col_name, ty, default_value, .. } => {
                let mut j: usize = 0;
                while j < i
                    invariant
                        j <= i,
                        i < fields@.len(),
                        declared_name(fields@[i as int]) == Some(col_name@),
                        forall|a: int| 0 <= a < j ==> declared_name(#[trigger] fields@[a]) != Some(col_name@),
                    decreases i - j,
                {
                    match &fields[j] {
                        Field::ColumnField { col_name: other, .. } => {
                            if *other == *col_name {
                                assert(declared_name(fields@[j as int]) == declared_name(fields@[i as int]));
                                return false;
                            }
                        },
                        _ => {},
                    }
                    j = j + 1;
                }
                match default_value {
                    Some(v) => {
                        if !v.of_type(ty) {
                            assert(!default_fits(fields@[i as int]));
                            return false;
                        }
                    },
                    None => {},
                }
            },
            Field::PrimaryKeyField { .. } => {
                if pk_seen {
                    let ghost a = choose|a: int| 0 <= a < i && (#[trigger] fields@[a]) is PrimaryKeyField;
                    assert(fields@[a] is PrimaryKeyField && fields@[i as int] is PrimaryKeyField);
                    return false;
                }
                pk_seen = true;
            },
            _ => {},
        }
        i = i + 1;
    }
    true
}


fn all_declared(fields: &Vec<Field>, names: &Vec<String>) -> (r: bool)
    ensures
        r == forall|k: int| 0 <= k < names@.len() ==> declares(fields@, (#[trigger] names@[k])@),
{
    let mut k: usize = 0;
    while k < names.len()
        invariant
            k <= names@.len(),
            forall|j: int| 0 <= j < k ==> declares(fields@, (#[trigger] names@[j])@),
        decreases names@.len() - k,
    {
        if find_declared(fields, &names[k]).is_none() {
            return false;
        }
        k = k + 1;
    }
    true
}

fn primary_key_fits(fields: &Vec<Field>, f: &Field) -> (r: bool)
    ensures
        r == primary_key_ok(fields@, *f),
{
    match f {
        Field::PrimaryKeyField { column_list } => check_no_repeat(column_list) && all_declared(
            fields,
            column_list,
        ),
        _ => true,
    }
}

/// Whether the referred table `t` fits a foreign key from `cols` to `fcols`.
fn foreign_table_fits(fields: &Vec<Field>, t: &TableMeta, cols: &Vec<String>, fcols: &Vec<String>) -> (r: bool)
    requires
        columns_ok(fields@),
        t.wf(),
        cols@.len() == fcols@.len(),
    ensures
        r == foreign_table_ok(fields@, *t, cols@, fcols@),
{
    let mut k: usize = 0;
    while k < fcols.len()
        invariant
            k <= fcols@.len(),
            forall|j: int| 0 <= j < k ==> col_named(t.cols@, (#[trigger] fcols@[j])@) is Some,
        decreases fcols@.len() - k,
    {
        if find_col(&t.cols, &fcols[k]).is_none() {
            return false;
        }
        k = k + 1;
    }
    k = 0;
    while k < cols.len()
        invariant
            k <= cols@.len(),
            cols@.len() == fcols@.len(),
            columns_ok(fields@),
            forall|j: int| 0 <= j < fcols@.len() ==> col_named(t.cols@, (#[trigger] fcols@[j])@) is Some,
            forall|j: int| 0 <= j < k ==> #[trigger] column_fits(fields@, *t, cols@[j]@, fcols@[j]@),
        decreases cols@.len() - k,
    {
        let fc = find_col(&t.cols, &fcols[k]);
        assert(col_named(t.cols@, fcols@[k as int]@) is Some);
        let fc = match fc {
            Some(x) => x,
            None => {
                return false;
            },
        };
        let kind = &t.cols[fc].data_type;
        assert(*kind == col_named(t.cols@, fcols@[k as int]@).unwrap().data_type);
        let d = find_declared(fields, &cols[k]);
        let d = match d {
            Some(x) => x,
            None => {
                proof {
                    assert forall|i: int| 0 <= i < fields@.len() implies !declared_with_kind(
                        #[trigger] fields@[i],
                        cols@[k as int]@,
                        *kind,
                    ) by {
                        if declared_with_kind(fields@[i], cols@[k as int]@, *kind) {
                            assert(declared_name(fields@[i]) == Some(cols@[k as int]@));
                        }
                    }
                    assert(!column_fits(fields@, *t, cols@[k as int]@, fcols@[k as int]@));
                }
                return false;
            },
        };
        let fits = match &fields[d] {
            Field::ColumnField { ty, .. } => kind.of_same_type(ty),
            _ => false,
        };
        if !fits {
            proof {
                assert forall|i: int| 0 <= i < fields@.len() implies !declared_with_kind(
                    #[trigger] fields@[i],
                    cols@[k as int]@,
                    *kind,
                ) by {
                    if declared_with_kind(fields@[i], cols@[k as int]@, *kind) {
                        assert(declared_name(fields@[i]) == Some(cols@[k as int]@));
                        if i < d {
                            assert(declared_name(fields@[i]) != declared_name(fields@[d as int]));
                        } else if d < i {
                            assert(declared_name(fields@[d as int]) != declared_name(fields@[i]));
                        }
                    }
                }
                assert(!column_fits(fields@, *t, cols@[k as int]@, fcols@[k as int]@));
            }
            return false;
        }
        assert(declared_with_kind(fields@[d as int], cols@[k as int]@, *kind));
        assert(column_fits(fields@, *t, cols@[k as int]@, fcols@[k as int]@));
        k = k + 1;
    }
    let p = match find_primary(&t.btrees) {
        Some(p) => p,
        None => {
            proof {
                assert forall|q: int| !primary_at(t.btrees@, q) by {
                    if primary_at(t.btrees@, q) {
                        assert(t.btrees@[q].ty == 1);
                    }
                }
            }
            return false;
        },
    };
    let pc = &t.btrees[p].index_col;
    assert(primary_at(t.btrees@, p as int));
    proof {
        assert forall|q: int| #[trigger] primary_at(t.btrees@, q) implies q == p by {
            if q < p {
                assert(t.btrees@[q].ty != 1);
            } else if p < q {
                assert(t.btrees@[p as int].ty != 1);
            }
        }
    }
    if fcols.len() < pc.len() {
        return false;
    }
    k = 0;
    while k < pc.len()
        invariant
            k <= pc@.len(),
            pc@.len() <= fcols@.len(),
            t.wf(),
            p < t.btrees@.len(),
            pc@ == t.btrees@[p as int].index_col@,
            primary_at(t.btrees@, p as int),
            forall|q: int| #[trigger] primary_at(t.btrees@, q) ==> q == p,
            forall|j: int| 0 <= j < fcols@.len() ==> col_named(t.cols@, (#[trigger] fcols@[j])@) is Some,
            forall|j: int| 0 <= j < cols@.len() ==> #[trigger] column_fits(fields@, *t, cols@[j]@, fcols@[j]@),
            forall|j: int|
                0 <= j < k ==> same_column(
                    col_named(t.cols@, fcols@[j]@).unwrap(),
                    t.cols@[(#[trigger] t.btrees@[p as int].index_col@[j]) as int],
                ),
        decreases pc@.len() - k,
    {
        let fc = find_col(&t.cols, &fcols[k]);
        assert(col_named(t.cols@, fcols@[k as int]@) is Some);
        let fc = match fc {
            Some(x) => x,
            None => {
                return false;
            },
        };
        let pk = pc[k];
        assert(t.btrees@[p as int].index_col@[k as int] < t.cols@.len());
        if !t.cols[fc].same(&t.cols[pk as usize]) {
            assert(!same_column(
                col_named(t.cols@, fcols@[k as int]@).unwrap(),
                t.cols@[t.btrees@[p as int].index_col@[k as int] as int],
            ));
            return false;
        }
        k = k + 1;
    }
    assert(primary_at(t.btrees@, p as int));
    true
}

fn foreign_key_fits(fields: &Vec<Field>, tables: &Vec<TableMeta>, f: &Field) -> (r: bool)
    requires
        columns_ok(fields@),
        forall|t: int| 0 <= t < tables@.len() ==> (#[trigger] tables@[t]).wf(),
    ensures
        r == foreign_key_ok(fields@, tables@, *f),
{
    match f {
        Field::ForeignKeyField { column_list, foreign_tb_name, foreign_column_list } => {
            if column_list.len() != foreign_column_list.len() {
                return false;
            }
            if !check_no_repeat(column_list) || !check_no_repeat(foreign_column_list) {
                return false;
            }
            if !all_declared(fields, column_list) {
                return false;
            }
            let t = match find_table(tables, foreign_tb_name) {
                Some(t) => t,
                None => {
                    proof {
                        assert forall|q: int| !table_at(tables@, foreign_tb_name@, q) by {
                            if table_at(tables@, foreign_tb_name@, q) {
                                assert(tables@[q].name@ == foreign_tb_name@);
                            }
                        }
                    }
                    return false;
                },
            };
            proof {
                assert forall|q: int| #[trigger] table_at(tables@, foreign_tb_name@, q) implies q == t by {
                    if q < t {
                        assert(tables@[q].name@ != foreign_tb_name@);
                    } else if t < q {
                        assert(tables@[t as int].name@ != foreign_tb_name@);
                    }
                }
            }
            let r = foreign_table_fits(fields, &tables[t], column_list, foreign_column_list);
            assert(table_at(tables@, foreign_tb_name@, t as int));
            r
        },
        _ => true,
    }
}

/// Whether a table with the fields `field_list` can be created, where `tables` are the stored
/// tables: its columns have distinct names and fitting defaults, it has at most one primary
/// key, which names distinct declared columns, and each foreign key refers to a stored table
/// whose primary key begins the referred columns, column for column of matching kinds.
pub fn check_create_table(field_list: &Vec<Field>, tables: &Vec<TableMeta>) -> (r: bool)
    requires
        forall|t: int| 0 <= t < tables@.len() ==> (#[trigger] tables@[t]).wf(),
    ensures
        r == create_table_ok(field_list@, tables@),
{
    if !check_columns(field_list) {
        return false;
    }
    let mut i: usize = 0;
    while i < field_list.len()
        invariant
            i <= field_list@.len(),
            forall|j: int| 0 <= j < i ==> primary_key_ok(field_list@, #[trigger] field_list@[j]),
        decreases field_list@.len() - i,
    {
        if !primary_key_fits(field_list, &field_list[i]) {
            return false;
        }
        i = i + 1;
    }
    i = 0;
    while i < field_list.len()
        invariant
            i <= field_list@.len(),
            columns_ok(field_list@),
            forall|t: int| 0 <= t < tables@.len() ==> (#[trigger] tables@[t]).wf(),
            forall|j: int| 0 <= j < i ==> foreign_key_ok(field_list@, tables@, #[trigger] field_list@[j]),
        decreases field_list@.len() - i,
    {
        if !foreign_key_fits(field_list, tables, &field_list[i]) {
            return false;
        }
        i = i + 1;
    }
    true
}


/// Table `t` has a foreign-key column that refers to the table named `name`.
pub open spec fn refers_to(t: TableMeta, name: Seq<char>) -> bool {
    exists|c: int|
        0 <= c < t.cols@.len() && (#[trigger] t.cols@[c]).is_foreign && t.cols@[c].foreign_table_name@
            == name
}

/// The names of the tables, other than the table named `name`, that refer to it, in order.
pub open spec fn referring(tables: Seq<TableMeta>, name: Seq<char>) -> Seq<Seq<char>>
    decreases tables.len(),
{
    if tables.len() == 0 {
        Seq::empty()
    } else {
        let rest = referring(tables.drop_last(), name);
        if tables.last().name@ != name && refers_to(tables.last(), name) {
            rest.push(tables.last().name@)
        } else {
            rest
        }
    }
}

fn refers(t: &TableMeta, name: &String) -> (r: bool)
    ensures
        r == refers_to(*t, name@),
{
    let mut c: usize = 0;
    while c < t.cols.len()
        invariant
            c <= t.cols@.len(),
            forall|j: int|
                0 <= j < c ==> !((#[trigger] t.cols@[j]).is_foreign && t.cols@[j].foreign_table_name@
                    == name@),
        decreases t.cols@.len() - c,
    {
        if t.cols[c].is_foreign && t.cols[c].foreign_table_name == *name {
            return true;
        }
        c = c + 1;
    }
    false
}

/// The names of the tables that refer to the table `tb_name` by a foreign key.
pub fn table_foreign_this_table(tb_name: &String, tables: &Vec<TableMeta>) -> (r: Vec<String>)
    ensures
        r@.map_values(|x: String| x@) == referring(tables@, tb_name@),
{
    let mut r: Vec<String> = Vec::new();
    let mut i: usize = 0;
    while i < tables.len()
        invariant
            i <= tables@.len(),
            r@.map_values(|x: String| x@) == referring(tables@.take(i as int), tb_name@),
        decreases tables@.len() - i,
    {
        assert(tables@.take(i as int + 1).drop_last() =~= tables@.take(i as int));
        assert(tables@.take(i as int + 1).last() == tables@[i as int]);
        let ghost before = r@.map_values(|x: String| x@);
        if tables[i].name != *tb_name && refers(&tables[i], tb_name) {
            let name = tables[i].name.clone();
            r.push(name);
            assert(r@.map_values(|x: String| x@) =~= before.push(tables@[i as int].name@));
        }
        i = i + 1;
    }
    assert(tables@.take(tables@.len() as int) =~= tables@);
    r
}

/// No table refers to the table named `name`, but that table itself.
pub open spec fn unreferenced(tables: Seq<TableMeta>, name: Seq<char>) -> bool {
    forall|t: int|
        0 <= t < tables.len() && (#[trigger] tables[t]).name@ != name ==> !refers_to(tables[t], name)
}

/// Whether the table `tb_name` can be dropped: no other table refers to it.
pub fn check_drop_table(tb_name: &String, tables: &Vec<TableMeta>) -> (r: bool)
    ensures
        r == unreferenced(tables@, tb_name@),
{
    let mut i: usize = 0;
    while i < tables.len()
        invariant
            i <= tables@.len(),
            forall|t: int|
                0 <= t < i && (#[trigger] tables@[t]).name@ != tb_name@ ==> !refers_to(
                    tables@[t],
                    tb_name@,
                ),
        decreases tables@.len() - i,
    {
        if tables[i].name != *tb_name && refers(&tables[i], tb_name) {
            return false;
        }
        i = i + 1;
    }
    true
}

/// A table may be dropped exactly when no table is listed as referring to it.
pub proof fn lemma_drop_table_iff_unreferenced(tables: Seq<TableMeta>, name: Seq<char>)
    ensures
        unreferenced(tables, name) <==> referring(tables, name).len() == 0,
    decreases tables.len(),
{
    if tables.len() > 0 {
        lemma_drop_table_iff_unreferenced(tables.drop_last(), name);
        assert(unreferenced(tables, name) <==> (unreferenced(tables.drop_last(), name) && !(
        tables.last().name@ != name && refers_to(tables.last(), name)))) by {
            if unreferenced(tables.drop_last(), name) && !(tables.last().name@ != name && refers_to(
                tables.last(),
                name,
            )) {
                assert forall|t: int|
                    0 <= t < tables.len() && (#[trigger] tables[t]).name@ != name implies !refers_to(
                    tables[t],
                    name,
                ) by {
                    if t < tables.len() - 1 {
                        assert(tables.drop_last()[t] == tables[t]);
                    }
                }
            }
            if unreferenced(tables, name) {
                assert forall|t: int|
                    0 <= t < tables.drop_last().len() && (#[trigger] tables.drop_last()[t]).name@
                        != name implies !refers_to(tables.drop_last()[t], name) by {
                    assert(tables.drop_last()[t] == tables[t]);
                }
            }
        }
    }
}


/// Dropping column `col_name` from table `t`: the column exists; if the primary key has
/// several columns it is not among them, and if the column is the whole primary key no table
/// refers to `t`; and no tree over several columns indexes it.
pub open spec fn drop_column_ok(tables: Seq<TableMeta>, t: TableMeta, col_name: Seq<char>) -> bool {
    match col_named(t.cols@, col_name) {
        None => false,
        Some(c) => {
            &&& forall|p: int| #[trigger]
                primary_at(t.btrees@, p) ==> {
                    let pc = t.btrees@[p].index_col@;
                    if pc.len() >= 2 {
                        !pc.contains(c.index)
                    } else if pc == seq![c.index] {
                        referring(tables, t.name@).len() == 0
                    } else {
                        true
                    }
                }
            &&& forall|b: int|
                0 <= b < t.btrees@.len() && (#[trigger] t.btrees@[b]).index_col@.len() > 1
                    ==> !t.btrees@[b].index_col@.contains(c.index)
        },
    }
}

/// There is a stored table named `name`.
pub open spec fn has_table(tables: Seq<TableMeta>, name: Seq<char>) -> bool {
    exists|t: int| 0 <= t < tables.len() && (#[trigger] tables[t]).name@ == name
}

/// The first table named `name`, which exists.
fn get_table(tables: &Vec<TableMeta>, name: &String) -> (r: usize)
    requires
        has_table(tables@, name@),
    ensures
        table_at(tables@, name@, r as int),
        forall|q: int| #[trigger] table_at(tables@, name@, q) ==> q == r,
{
    let r = find_table(tables, name);
    match r {
        Some(t) => {
            proof {
                assert forall|q: int| #[trigger] table_at(tables@, name@, q) implies q == t by {
                    if q < t {
                        assert(tables@[q].name@ != name@);
                    } else if t < q {
                        assert(tables@[t as int].name@ != name@);
                    }
                }
            }
            t
        },
        None => {
            proof {
                let t = choose|t: int| 0 <= t < tables@.len() && (#[trigger] tables@[t]).name@ == name@;
                assert(tables@[t].name@ == name@);
            }
            0
        },
    }
}

fn index_listed(v: &Vec<u32>, x: u32) -> (r: bool)
    ensures
        r == v@.contains(x),
{
    let mut i: usize = 0;
    while i < v.len()
        invariant
            i <= v@.len(),
            forall|j: int| 0 <= j < i ==> v@[j] != x,
        decreases v@.len() - i,
    {
        if v[i] == x {
            assert(v@[i as int] == x);
            return true;
        }
        i = i + 1;
    }
    false
}

/// Whether column `col_name` can be dropped from the stored table `tb_name`.
pub fn check_drop_column(tb_name: &String, col_name: &String, tables: &Vec<TableMeta>) -> (r: bool)
    requires
        has_table(tables@, tb_name@),
    ensures
        r == (exists|t: int|
            table_at(tables@, tb_name@, t) && drop_column_ok(tables@, tables@[t], col_name@)),
{
    let ti = get_table(tables, tb_name);
    let t = &tables[ti];
    let c = match find_col(&t.cols, col_name) {
        Some(c) => c,
        None => {
            return false;
        },
    };
    let del_index = t.cols[c].index;
    match find_primary(&t.btrees) {
        Some(p) => {
            proof {
                assert forall|q: int| #[trigger] primary_at(t.btrees@, q) implies q == p by {
                    if q < p {
                        assert(t.btrees@[q].ty != 1);
                    } else if p < q {
                        assert(t.btrees@[p as int].ty != 1);
                    }
                }
            }
            let pc = &t.btrees[p].index_col;
            if pc.len() >= 2 {
                if index_listed(pc, del_index) {
                    assert(primary_at(t.btrees@, p as int));
                    return false;
                }
            } else if pc.len() == 1 && pc[0] == del_index {
                assert(pc@ =~= seq![del_index]);
                let referrers = table_foreign_this_table(tb_name, tables);
                if referrers.len() > 0 {
                    assert(primary_at(t.btrees@, p as int));
                    return false;
                }
            } else {
                assert(pc@ != seq![del_index]) by {
                    if pc@ == seq![del_index] {
                        assert(pc@.len() == 1 && pc@[0] == del_index);
                    }
                }
            }
        },
        None => {},
    }
    let mut b: usize = 0;
    while b < t.btrees.len()
        invariant
            b <= t.btrees@.len(),
            ti < tables@.len(),
            *t == tables@[ti as int],
            forall|q: int| #[trigger] table_at(tables@, tb_name@, q) ==> q == ti,
            c < t.cols@.len(),
            col_named(t.cols@, col_name@) == Some(t.cols@[c as int]),
            del_index == t.cols@[c as int].index,
            forall|j: int|
                0 <= j < b && (#[trigger] t.btrees@[j]).index_col@.len() > 1
                    ==> !t.btrees@[j].index_col@.contains(del_index),
        decreases t.btrees@.len() - b,
    {
        if t.btrees[b].index_col.len() > 1 && index_listed(&t.btrees[b].index_col, del_index) {
            assert(t.btrees@[b as int].index_col@.len() > 1 && t.btrees@[b as int].index_col@.contains(
                del_index,
            ));
            return false;
        }
        b = b + 1;
    }
    true
}

/// Whether the primary key of the stored table `tb_name` can be dropped: it has one, and no
/// other table refers to the table.
pub fn check_drop_primary_key(tb_name: &String, tables: &Vec<TableMeta>) -> (r: bool)
    requires
        has_table(tables@, tb_name@),
    ensures
        r == (exists|t: int|
            table_at(tables@, tb_name@, t) && (exists|b: int|
                0 <= b < tables@[t].btrees@.len() && (#[trigger] tables@[t].btrees@[b]).ty == 1)
                && referring(tables@, tb_name@).len() == 0),
{
    let ti = get_table(tables, tb_name);
    let t = &tables[ti];
    match find_primary(&t.btrees) {
        None => {
            return false;
        },
        Some(p) => {
            assert(t.btrees@[p as int].ty == 1);
        },
    }
    let referrers = table_foreign_this_table(tb_name, tables);
    referrers.len() == 0
}

/// Whether the primary key named `pk_name` of the stored table `tb_name` can be dropped: the
/// table has a primary key, and no other table refers to the table. It is refused when the
/// key's name is `pk_name`, and accepted when it is not.
pub fn check_drop_constraint_primary_key(
    tb_name: &String,
    pk_name: &String,
    tables: &Vec<TableMeta>,
) -> (r: bool)
    requires
        has_table(tables@, tb_name@),
    ensures
        r == (exists|t: int|
            table_at(tables@, tb_name@, t) && (exists|p: int|
                #[trigger] primary_at(tables@[t].btrees@, p) && tables@[t].btrees@[p].index_name@
                    != pk_name@) && referring(tables@, tb_name@).len() == 0),
{
    let ti = get_table(tables, tb_name);
    let t = &tables[ti];
    match find_primary(&t.btrees) {
        None => {
            proof {
                assert forall|p: int| !primary_at(t.btrees@, p) by {
                    if primary_at(t.btrees@, p) {
                        assert(t.btrees@[p].ty == 1);
                    }
                }
            }
            return false;
        },
        Some(p) => {
            proof {
                assert forall|q: int| #[trigger] primary_at(t.btrees@, q) implies q == p by {
                    if q < p {
                        assert(t.btrees@[q].ty != 1);
                    } else if p < q {
                        assert(t.btrees@[p as int].ty != 1);
                    }
                }
            }
            if t.btrees[p].index_name == *pk_name {
                return false;
            }
            assert(primary_at(t.btrees@, p as int));
        },
    }
    let referrers = table_foreign_this_table(tb_name, tables);
    referrers.len() == 0
}


/// Tree `b` is the foreign-key tree of the constraint `fk_name`: the first word of its name.
pub open spec fn fk_tree(b: BTree, fk_name: Seq<char>) -> bool {
    b.ty == 3 && words(b.index_name@).len() >= 1 && words(b.index_name@)[0] == fk_name
}

/// Every foreign-key tree whose name has no word comes after a tree of the constraint
/// `fk_name` (`check_drop_constraint_foreign_key` reads the constraint of each foreign-key tree
/// up to the first match, and reading it from a name with no word fails).
pub open spec fn fk_names_readable(btrees: Seq<BTree>, fk_name: Seq<char>) -> bool {
    forall|b: int|
        0 <= b < btrees.len() && (#[trigger] btrees[b]).ty == 3 && words(btrees[b].index_name@).len()
            == 0 ==> exists|a: int| 0 <= a < b && fk_tree(#[trigger] btrees[a], fk_name)
}

/// Whether the foreign key `fk_name` of the stored table `tb_name` can be dropped: the table
/// has a tree of that constraint.
pub fn check_drop_constraint_foreign_key(
    tb_name: &String,
    fk_name: &String,
    tables: &Vec<TableMeta>,
) -> (r: bool)
    requires
        has_table(tables@, tb_name@),
        forall|t: int|
            #[trigger] table_at(tables@, tb_name@, t) ==> fk_names_readable(tables@[t].btrees@, fk_name@),
    ensures
        r == (exists|t: int|
            table_at(tables@, tb_name@, t) && exists|b: int|
                0 <= b < tables@[t].btrees@.len() && fk_tree(
                    #[trigger] tables@[t].btrees@[b],
                    fk_name@,
                )),
{
    let ti = get_table(tables, tb_name);
    let t = &tables[ti];
    assert(fk_names_readable(t.btrees@, fk_name@));
    let mut b: usize = 0;
    while b < t.btrees.len()
        invariant
            b <= t.btrees@.len(),
            ti < tables@.len(),
            *t == tables@[ti as int],
            table_at(tables@, tb_name@, ti as int),
            forall|q: int| #[trigger] table_at(tables@, tb_name@, q) ==> q == ti,
            fk_names_readable(t.btrees@, fk_name@),
            forall|j: int| 0 <= j < b ==> !fk_tree(#[trigger] t.btrees@[j], fk_name@),
        decreases t.btrees@.len() - b,
    {
        if t.btrees[b].is_foreign() {
            assert(words(t.btrees@[b as int].index_name@).len() >= 1) by {
                if words(t.btrees@[b as int].index_name@).len() == 0 {
                    let a = choose|a: int| 0 <= a < b && fk_tree(#[trigger] t.btrees@[a], fk_name@);
                    assert(!fk_tree(t.btrees@[a], fk_name@));
                }
            }
            let name = t.btrees[b].get_foreign_constraint_name();
            if name == *fk_name {
                assert(fk_tree(t.btrees@[b as int], fk_name@));
                return true;
            }
        }
        b = b + 1;
    }
    false
}


/// `c` names a column of the table `tb_name` with columns `cols`: the table, where named, is
/// that table, and a column has the name.
pub open spec fn names_column(tb_name: Seq<char>, cols: Seq<ColumnType>, c: Column) -> bool {
    &&& match c.tb_name {
        Some(t) => t@ == tb_name,
        None => true,
    }
    &&& col_named(cols, c.col_name@) is Some
}

/// A condition on the table `tb_name` fits its columns: the column it tests exists; a value it
/// compares with fits the column's type; a column it compares with is of the same kind.
pub open spec fn clause_ok(tb_name: Seq<char>, cols: Seq<ColumnType>, w: WhereClause) -> bool {
    match w {
        WhereClause::IsAssert { col, .. } => names_column(tb_name, cols, col),
        WhereClause::Comparison { col, expr, .. } => names_column(tb_name, cols, col) && match expr {
            Expr::Value(v) => value_fits(col_named(cols, col.col_name@).unwrap().data_type, v),
            Expr::Column(c) => same_kind_stored(
                col_named(cols, col.col_name@).unwrap().data_type,
                col_named(cols, c.col_name@).unwrap().data_type,
            ),
        },
    }
}

/// Every condition of the where clause fits the table's columns.
pub open spec fn where_ok(tb_name: Seq<char>, cols: Seq<ColumnType>, w: Option<Vec<WhereClause>>) -> bool {
    match w {
        None => true,
        Some(ws) => forall|i: int| 0 <= i < ws@.len() ==> clause_ok(tb_name, cols, #[trigger] ws@[i]),
    }
}

/// Reading the conditions in order, every column that a fitting column is compared with has a
/// name of the table (reading it fails otherwise).
pub open spec fn where_readable(tb_name: Seq<char>, cols: Seq<ColumnType>, w: Option<Vec<WhereClause>>) -> bool {
    match w {
        None => true,
        Some(ws) => forall|i: int|
            0 <= i < ws@.len() && (forall|j: int| 0 <= j < i ==> clause_ok(tb_name, cols, #[trigger] ws@[j]))
                ==> match #[trigger] ws@[i] {
                WhereClause::Comparison { col, expr: Expr::Column(c), .. } => names_column(tb_name, cols, col)
                    ==> col_named(cols, c.col_name@) is Some,
                _ => true,
            },
    }
}

fn names_column_exec(tb_name: &String, cols: &Vec<ColumnType>, c: &Column) -> (r: Option<usize>)
    ensures
        match r {
            Some(i) => names_column(tb_name@, cols@, *c) && i < cols@.len() && col_named(cols@, c.col_name@)
                == Some(cols@[i as int]),
            None => !names_column(tb_name@, cols@, *c),
        },
{
    match &c.tb_name {
        Some(t) => {
            if *t != *tb_name {
                return None;
            }
        },
        None => {},
    }
    find_col(cols, &c.col_name)
}

/// Whether the conditions of a statement on the table `tb_name` with columns `cols` fit them:
/// each tested column exists, each compared value fits its column's type, and each pair of
/// compared columns is of one kind.
pub fn check_where(tb_name: &String, cols: &Vec<ColumnType>, where_clause: &Option<Vec<WhereClause>>) -> (r: bool)
    requires
        where_readable(tb_name@, cols@, *where_clause),
    ensures
        r == where_ok(tb_name@, cols@, *where_clause),
{
    match where_clause {
        None => true,
        Some(ws) => {
            let mut i: usize = 0;
            while i < ws.len()
                invariant
                    i <= ws@.len(),
                    *where_clause == Some(*ws),
                    where_readable(tb_name@, cols@, *where_clause),
                    forall|j: int| 0 <= j < i ==> clause_ok(tb_name@, cols@, #[trigger] ws@[j]),
                decreases ws@.len() - i,
            {
                let ok = match &ws[i] {
                    WhereClause::IsAssert { col, .. } => names_column_exec(tb_name, cols, col).is_some(),
                    WhereClause::Comparison { col, expr, .. } => {
                        match names_column_exec(tb_name, cols, col) {
                            None => false,
                            Some(k) => match expr {
                                Expr::Value(v) => cols[k].data_type.valid_value(v),
                                Expr::Column(c) => {
                                    assert(ws@[i as int] == ws@[i as int]);
                                    match find_col(cols, &c.col_name) {
                                        Some(m) => cols[k].data_type.comparable(&cols[m].data_type),
                                        None => false,
                                    }
                                },
                            },
                        }
                    },
                };
                if !ok {
                    assert(!clause_ok(tb_name@, cols@, ws@[i as int]));
                    return false;
                }
                assert(clause_ok(tb_name@, cols@, ws@[i as int]));
                i = i + 1;
            }
            true
        },
    }
}


/// The key `k` is the key of `row` over the columns `pc`: as many values, each equal to the
/// row's value in that column, none NULL.
pub open spec fn key_of_row(row: Record, pc: Seq<u32>, k: RawIndex) -> bool {
    &&& k.index@.len() == pc.len()
    &&& forall|i: int| 0 <= i < pc.len() ==> value_is((#[trigger] row.cols@[pc[i] as int]).data, k.index@[i])
}

/// A value is present and equal to `d`.
pub open spec fn value_is(o: Option<crate::rm::record::Data>, d: crate::rm::record::Data) -> bool {
    match o {
        Some(x) => data_order(x, d) == 0,
        None => false,
    }
}

/// The rows have values in every column of `pc`.
pub open spec fn rows_keyed(rows: Seq<Record>, pc: Seq<u32>) -> bool {
    forall|n: int, i: int|
        0 <= n < rows.len() && 0 <= i < pc.len() ==> (#[trigger] pc[i]) < (#[trigger] rows[n]).cols@.len()
            && rows[n].cols@[pc[i] as int].data is Some
}

/// The primary-key columns of the stored table `t` (those of its first primary-key tree).
pub open spec fn primary_cols(t: TableMeta) -> Seq<u32> {
    t.btrees@[choose|p: int| primary_at(t.btrees@, p)].index_col@
}

/// A delete from table `t` may go ahead: its conditions fit the table, and when other tables
/// refer to it, no deleted row's primary key is among the keys that refer to the table.
pub open spec fn delete_ok(
    tables: Seq<TableMeta>,
    t: TableMeta,
    where_clause: Option<Vec<WhereClause>>,
    rows: Seq<Record>,
    referring_keys: Seq<RawIndex>,
) -> bool {
    &&& where_ok(t.name@, t.cols@, where_clause)
    &&& referring(tables, t.name@).len() > 0 ==> forall|n: int, j: int|
        0 <= n < rows.len() && 0 <= j < referring_keys.len() ==> !key_of_row(
            #[trigger] rows[n],
            primary_cols(t),
            #[trigger] referring_keys[j],
        )
}

/// Whether the rows `rows` that the conditions select may be deleted from the stored table
/// `tb_name`. `referring_keys` are the keys held by the foreign-key trees of other tables that
/// refer to it.
pub fn check_delete(
    tb_name: &String,
    where_clause: &Option<Vec<WhereClause>>,
    tables: &Vec<TableMeta>,
    rows: &Vec<Record>,
    referring_keys: &Vec<RawIndex>,
) -> (r: bool)
    requires
        has_table(tables@, tb_name@),
        forall|t: int|
            #[trigger] table_at(tables@, tb_name@, t) ==> where_readable(tb_name@, tables@[t].cols@, *where_clause) && (
            where_ok(tb_name@, tables@[t].cols@, *where_clause) && referring(tables@, tb_name@).len() > 0
                ==> (exists|p: int| primary_at(tables@[t].btrees@, p)) && rows_keyed(
                rows@,
                primary_cols(tables@[t]),
            )),
    ensures
        r == (exists|t: int|
            table_at(tables@, tb_name@, t) && delete_ok(tables@, tables@[t], *where_clause, rows@, referring_keys@)),
{
    let ti = get_table(tables, tb_name);
    let t = &tables[ti];
    if !check_where(tb_name, &t.cols, where_clause) {
        return false;
    }
    let referrers = table_foreign_this_table(tb_name, tables);
    if referrers.len() == 0 {
        return true;
    }
    assert(referrers@.map_values(|x: String| x@).len() == referrers@.len());
    let p = match find_primary(&t.btrees) {
        Some(p) => p,
        None => {
            return false;
        },
    };
    proof {
        assert forall|q: int| #[trigger] primary_at(t.btrees@, q) implies q == p by {
            if q < p {
                assert(t.btrees@[q].ty != 1);
            } else if p < q {
                assert(t.btrees@[p as int].ty != 1);
            }
        }
        assert(primary_cols(*t) == t.btrees@[p as int].index_col@);
    }
    let pc = &t.btrees[p].index_col;
    let mut n: usize = 0;
    while n < rows.len()
        invariant
            n <= rows@.len(),
            ti < tables@.len(),
            *t == tables@[ti as int],
            pc@ == primary_cols(*t),
            rows_keyed(rows@, pc@),
            table_at(tables@, tb_name@, ti as int),
            forall|q: int| #[trigger] table_at(tables@, tb_name@, q) ==> q == ti,
            where_ok(tb_name@, t.cols@, *where_clause),
            referring(tables@, tb_name@).len() > 0,
            forall|m: int, j: int|
                0 <= m < n && 0 <= j < referring_keys@.len() ==> !key_of_row(
                    #[trigger] rows@[m],
                    pc@,
                    #[trigger] referring_keys@[j],
                ),
        decreases rows@.len() - n,
    {
        let row = &rows[n];
        assert(forall|k: int|
            0 <= k < pc@.len() ==> (#[trigger] pc@[k]) < row.cols@.len() && row.cols@[pc@[k] as int].data is Some);
        let key = RawIndex::from_record(row, pc);
        let mut j: usize = 0;
        while j < referring_keys.len()
            invariant
                j <= referring_keys@.len(),
                n < rows@.len(),
                ti < tables@.len(),
                *t == tables@[ti as int],
                pc@ == primary_cols(*t),
    table_at(tables@, tb_name@, ti as int),
                forall|q: int| #[trigger] table_at(tables@, tb_name@, q) ==> q == ti,
                where_ok(tb_name@, t.cols@, *where_clause),
                referring(tables@, tb_name@).len() > 0,

                *row == rows@[n as int],
                key.index@.len() == pc@.len(),
                forall|k: int| 0 <= k < pc@.len() ==> Some(#[trigger] key.index@[k]) == row.cols@[pc@[k] as int].data,
                forall|m: int| 0 <= m < j ==> !key_of_row(*row, pc@, #[trigger] referring_keys@[m]),
            decreases referring_keys@.len() - j,
        {
            let same = key.same(&referring_keys[j]);
            proof {
                let k2 = referring_keys@[j as int];
                if key_of_row(*row, pc@, k2) {
                    assert forall|i: int| 0 <= i < key.index@.len() implies data_order(
                        #[trigger] key.index@[i],
                        k2.index@[i],
                    ) == 0 by {
                        assert(Some(key.index@[i]) == row.cols@[pc@[i] as int].data);
                    }
                }
                if same {
                    assert forall|i: int| 0 <= i < pc@.len() implies value_is(
                        (#[trigger] row.cols@[pc@[i] as int]).data,
                        k2.index@[i],
                    ) by {
                        assert(Some(key.index@[i]) == row.cols@[pc@[i] as int].data);
                        assert(data_order(key.index@[i], k2.index@[i]) == 0);
                    }
                    assert(key_of_row(*row, pc@, k2));
                }
            }
            if same {
                return false;
            }
            j = j + 1;
        }
        n = n + 1;
    }
    true
}


/// Table `i` of the selected tables is where the statement's column `c` is looked up: the
/// table it names, or, unnamed, a table with a column of that name; it has that column.
pub open spec fn sel_table(tables: Seq<TableMeta>, c: Column, i: int) -> bool {
    &&& 0 <= i < tables.len()
    &&& match c.tb_name {
        Some(tb) => tables[i].name@ == tb@,
        None => true,
    }
    &&& col_named(tables[i].cols@, c.col_name@) is Some
}

/// The statement's column `c` names one column of the selected tables: the table it names
/// has it, or, unnamed, exactly one table has a column of that name.
pub open spec fn sel_valid(tables: Seq<TableMeta>, c: Column) -> bool {
    exists|i: int|
        #[trigger] sel_table(tables, c, i) && (c.tb_name is None ==> forall|j: int|
            #[trigger] sel_table(tables, c, j) ==> j == i)
}

/// The column that `c` names.
pub open spec fn sel_col(tables: Seq<TableMeta>, c: Column) -> ColumnType {
    col_named(tables[choose|i: int| sel_table(tables, c, i)].cols@, c.col_name@).unwrap()
}

/// A condition of a select fits the selected tables.
pub open spec fn sel_clause_ok(tables: Seq<TableMeta>, w: WhereClause) -> bool {
    match w {
        WhereClause::IsAssert { col, .. } => sel_valid(tables, col),
        WhereClause::Comparison { col, expr, .. } => sel_valid(tables, col) && match expr {
            Expr::Value(v) => value_fits(sel_col(tables, col).data_type, v),
            Expr::Column(c) => same_kind_stored(sel_col(tables, col).data_type, sel_col(tables, c).data_type),
        },
    }
}

/// A select over `tables` may go ahead: every selected column names one column, and every
/// condition fits.
pub open spec fn select_ok(tables: Seq<TableMeta>, selector: Selector, w: Option<Vec<WhereClause>>) -> bool {
    &&& match selector {
        Selector::Columns(cs) => forall|k: int| 0 <= k < cs@.len() ==> sel_valid(tables, #[trigger] cs@[k]),
        Selector::All => true,
    }
    &&& match w {
        None => true,
        Some(ws) => forall|i: int| 0 <= i < ws@.len() ==> sel_clause_ok(tables, #[trigger] ws@[i]),
    }
}

/// Reading the conditions in order, every column that a fitting column is compared with names
/// one column (reading it fails otherwise).
pub open spec fn select_readable(tables: Seq<TableMeta>, w: Option<Vec<WhereClause>>) -> bool {
    match w {
        None => true,
        Some(ws) => forall|i: int|
            0 <= i < ws@.len() && (forall|j: int| 0 <= j < i ==> sel_clause_ok(tables, #[trigger] ws@[j]))
                ==> match #[trigger] ws@[i] {
                WhereClause::Comparison { col, expr: Expr::Column(c), .. } => sel_valid(tables, col)
                    ==> sel_valid(tables, c),
                _ => true,
            },
    }
}

/// No two selected tables share a name.
pub open spec fn distinct_tables(tables: Seq<TableMeta>) -> bool {
    forall|i: int, j: int| 0 <= i < j < tables.len() ==> (#[trigger] tables[i]).name@ != (#[trigger] tables[j]).name@
}

/// The table and column that `c` names, when it names one.
fn resolve(tables: &Vec<TableMeta>, c: &Column) -> (r: Option<(usize, usize)>)
    requires
        distinct_tables(tables@),
    ensures
        match r {
            Some((ti, ci)) => sel_valid(tables@, *c) && ti < tables@.len() && ci < tables@[ti as int].cols@.len()
                && sel_col(tables@, *c) == tables@[ti as int].cols@[ci as int],
            None => !sel_valid(tables@, *c),
        },
{
    let mut found: Option<(usize, usize)> = None;
    let mut count: usize = 0;
    let mut i: usize = 0;
    while i < tables.len()
        invariant
            i <= tables@.len(),
            distinct_tables(tables@),
            count <= i,
            count == 0 <==> found is None,
            count == 0 ==> forall|j: int| 0 <= j < i ==> !sel_table(tables@, *c, j),
            match found {
                Some((ti, ci)) => ti < i && sel_table(tables@, *c, ti as int) && ci < tables@[ti as int].cols@.len()
                    && col_named(tables@[ti as int].cols@, c.col_name@) == Some(tables@[ti as int].cols@[ci as int])
                    && (count == 1 ==> forall|j: int| 0 <= j < i && #[trigger] sel_table(tables@, *c, j) ==> j == ti)
                    && (count > 1 ==> exists|j: int| 0 <= j < i && j != ti && #[trigger] sel_table(tables@, *c, j)),
                None => true,
            },
        decreases tables@.len() - i,
    {
        let t = &tables[i];
        let name_fits = match &c.tb_name {
            Some(tb) => t.name == *tb,
            None => true,
        };
        if name_fits {
            match find_col(&t.cols, &c.col_name) {
                Some(ci) => {
                    assert(sel_table(tables@, *c, i as int));
                    if count == 0 {
                        found = Some((i, ci));
                    }
                    count = count + 1;
                },
                None => {
                    assert(!sel_table(tables@, *c, i as int));
                },
            }
        } else {
            assert(!sel_table(tables@, *c, i as int));
        }
        i = i + 1;
    }
    match found {
        None => {
            None
        },
        Some((ti, ci)) => {
            proof {
                let pick = choose|k: int| sel_table(tables@, *c, k);
                if c.tb_name is Some || count == 1 {
                    if c.tb_name is Some {
                        assert forall|j: int| #[trigger] sel_table(tables@, *c, j) implies j == ti by {
                            if j != ti {
                                if j < ti {
                                    assert(tables@[j].name@ != tables@[ti as int].name@);
                                } else {
                                    assert(tables@[ti as int].name@ != tables@[j].name@);
                                }
                            }
                        }
                    }
                    assert(pick == ti);
                }
            }
            if c.tb_name.is_none() && count > 1 {
                proof {
                    let j = choose|j: int| 0 <= j < tables@.len() && j != ti && #[trigger] sel_table(tables@, *c, j);
                    assert forall|k: int| #[trigger] sel_table(tables@, *c, k) && (c.tb_name is None ==> forall|j2: int|
                        #[trigger] sel_table(tables@, *c, j2) ==> j2 == k) implies false by {
                        assert(sel_table(tables@, *c, ti as int));
                        assert(sel_table(tables@, *c, j));
                    }
                }
                None
            } else {
                Some((ti, ci))
            }
        },
    }
}


/// Whether a select over the tables `tables` (their names and columns) fits them: each listed
/// column names one column of them (by its table, or, unnamed, of the only table that has a
/// column of that name); each tested column too; each compared value fits its column's type;
/// and each pair of compared columns is of one kind.
pub fn check_select(tables: &Vec<TableMeta>, selector: &Selector, where_clause: &Option<Vec<WhereClause>>) -> (r: bool)
    requires
        distinct_tables(tables@),
        select_readable(tables@, *where_clause),
    ensures
        r == select_ok(tables@, *selector, *where_clause),
{
    match selector {
        Selector::Columns(cs) => {
            let mut k: usize = 0;
            while k < cs.len()
                invariant
                    k <= cs@.len(),
                    *selector == Selector::Columns(*cs),
                    distinct_tables(tables@),
                    forall|j: int| 0 <= j < k ==> sel_valid(tables@, #[trigger] cs@[j]),
                decreases cs@.len() - k,
            {
                if resolve(tables, &cs[k]).is_none() {
                    proof {
                        let c0 = cs@[k as int];
                        assert(!sel_valid(tables@, c0));
                        match selector {
                            Selector::Columns(cs2) => {
                                assert(cs2@[k as int] == c0);
                            },
                            Selector::All => {},
                        }
                    }
                    return false;
                }
                k = k + 1;
            }
        },
        Selector::All => {},
    }
    assert(match *selector {
        Selector::Columns(cs) => forall|k: int| 0 <= k < cs@.len() ==> sel_valid(tables@, #[trigger] cs@[k]),
        Selector::All => true,
    });
    match where_clause {
        None => true,
        Some(ws) => {
            let mut i: usize = 0;
            while i < ws.len()
                invariant
                    i <= ws@.len(),
                    *where_clause == Some(*ws),
                    distinct_tables(tables@),
                    select_readable(tables@, *where_clause),
                    forall|j: int| 0 <= j < i ==> sel_clause_ok(tables@, #[trigger] ws@[j]),
                decreases ws@.len() - i,
            {
                let ok = match &ws[i] {
                    WhereClause::IsAssert { col, .. } => resolve(tables, col).is_some(),
                    WhereClause::Comparison { col, expr, .. } => {
                        match resolve(tables, col) {
                            None => false,
                            Some((ti, ci)) => match expr {
                                Expr::Value(v) => tables[ti].cols[ci].data_type.valid_value(v),
                                Expr::Column(c) => {
                                    assert(ws@[i as int] == ws@[i as int]);
                                    match resolve(tables, c) {
                                        Some((tj, cj)) => tables[ti].cols[ci].data_type.comparable(
                                            &tables[tj].cols[cj].data_type,
                                        ),
                                        None => false,
                                    }
                                },
                            },
                        }
                    },
                };
                if !ok {
                    assert(!sel_clause_ok(tables@, ws@[i as int]));
                    return false;
                }
                assert(sel_clause_ok(tables@, ws@[i as int]));
                i = i + 1;
            }
            true
        },
    }
}


/// Every row of values fits the columns: one value per column, of the column's type, and
/// NULL only where the column may be NULL.
pub open spec fn values_fit(cols: Seq<ColumnType>, rows: Seq<Vec<Value>>) -> bool {
    forall|n: int|
        0 <= n < rows.len() ==> (#[trigger] rows[n])@.len() == cols.len() && forall|i: int|
            0 <= i < cols.len() ==> value_fits(cols[i].data_type, #[trigger] rows[n]@[i]) && !(rows[n]@[i] is Null
                && !cols[i].can_be_null)
}


/// The key `k` equals one of `keys`.
pub open spec fn found_in(k: RawIndex, keys: Seq<RawIndex>) -> bool {
    exists|j: int| 0 <= j < keys.len() && raw_equal(k.index@, (#[trigger] keys[j]).index@)
}

/// Each key `refs[f][n]` is among the keys `referred[f]`.
pub open spec fn refs_found(refs: Seq<Vec<RawIndex>>, referred: Seq<Vec<RawIndex>>) -> bool {
    forall|f: int, n: int|
        0 <= f < refs.len() && 0 <= n < refs[f]@.len() ==> found_in(#[trigger] refs[f]@[n], referred[f]@)
}

/// The new keys are new: none is found in the stored primary-key tree, and none repeats.
pub open spec fn keys_new_in(new_keys: Seq<RawIndex>, stored: IndexTree) -> bool {
    &&& keys_distinct(new_keys)
    &&& forall|n: int| 0 <= n < new_keys.len() ==> !in_tree(#[trigger] new_keys[n], stored)
}

/// Each key `refs[f][n]` is found in the tree `referred[f]`.
pub open spec fn refs_in(refs: Seq<Vec<RawIndex>>, referred: Seq<IndexTree>) -> bool {
    forall|f: int, n: int| 0 <= f < refs.len() && 0 <= n < refs[f]@.len() ==> in_tree(#[trigger] refs[f]@[n], referred[f])
}

/// An insert of `value_lists` into the stored table `t` may go ahead: the values fit the
/// columns; where the table has a primary key, the new rows' keys `new_keys` are new (none in
/// its primary-key tree `stored`, none repeated); and every key a new row refers to
/// (`refs[f]`, for the referred tables in turn) is found in the primary-key tree of the
/// referred table (`referred[f]`).
pub open spec fn insert_ok(
    t: TableMeta,
    value_lists: Seq<Vec<Value>>,
    new_keys: Seq<RawIndex>,
    stored: IndexTree,
    refs: Seq<Vec<RawIndex>>,
    referred: Seq<IndexTree>,
) -> bool {
    &&& values_fit(t.cols@, value_lists)
    &&& (exists|p: int| primary_at(t.btrees@, p)) ==> keys_new_in(new_keys, stored)
    &&& refs_in(refs, referred)
}

fn key_among(k: &RawIndex, keys: &Vec<RawIndex>, upto: usize) -> (r: bool)
    requires
        upto <= keys@.len(),
    ensures
        r == exists|j: int| 0 <= j < upto && raw_equal(k.index@, (#[trigger] keys@[j]).index@),
{
    let mut j: usize = 0;
    while j < upto
        invariant
            j <= upto <= keys@.len(),
            forall|m: int| 0 <= m < j ==> !raw_equal(k.index@, (#[trigger] keys@[m]).index@),
        decreases upto - j,
    {
        if k.same(&keys[j]) {
            return true;
        }
        j = j + 1;
    }
    false
}

/// Whether the rows `value_lists` may be inserted into the stored table `tb_name`. The keys
/// are those the rows give: `new_keys` their primary keys, `refs[f]` the keys they refer to in
/// the `f`-th referred table; `stored_keys` and `referred[f]` are the keys those tables hold.
#[verifier::loop_isolation(false)]
pub fn check_insert_value(
    tb_name: &String,
    value_lists: &Vec<Vec<Value>>,
    tables: &Vec<TableMeta>,
    new_keys: &Vec<RawIndex>,
    stored: &IndexTree,
    refs: &Vec<Vec<RawIndex>>,
    referred: &Vec<IndexTree>,
) -> (r: bool)
    requires
        has_table(tables@, tb_name@),
        refs@.len() == referred@.len(),
        stored.wf(),
        forall|f: int| 0 <= f < referred@.len() ==> (#[trigger] referred@[f]).wf(),
        forall|n: int| 0 <= n < new_keys@.len() ==> (#[trigger] new_keys@[n]).index@.len() == stored.width,
    ensures
        r == (exists|t: int|
            table_at(tables@, tb_name@, t) && insert_ok(
                tables@[t],
                value_lists@,
                new_keys@,
                *stored,
                refs@,
                referred@,
            )),
{
    let ti = get_table(tables, tb_name);
    let t = &tables[ti];
    let cols = &t.cols;
    let mut n: usize = 0;
    while n < value_lists.len()
        invariant
            n <= value_lists@.len(),
            forall|m: int|
                0 <= m < n ==> (#[trigger] value_lists@[m])@.len() == cols@.len() && forall|i: int|
                    0 <= i < cols@.len() ==> value_fits(cols@[i].data_type, #[trigger] value_lists@[m]@[i]) && !(
                    value_lists@[m]@[i] is Null && !cols@[i].can_be_null),
        decreases value_lists@.len() - n,
    {
        let values = &value_lists[n];
        if values.len() != cols.len() {
            return false;
        }
        let mut i: usize = 0;
        while i < cols.len()
            invariant
                i <= cols@.len(),
                n < value_lists@.len(),
                *values == value_lists@[n as int],
                values@.len() == cols@.len(),
                forall|j: int|
                    0 <= j < i ==> value_fits(cols@[j].data_type, #[trigger] values@[j]) && !(values@[j] is Null
                        && !cols@[j].can_be_null),
            decreases cols@.len() - i,
        {
            if !cols[i].data_type.valid_value(&values[i]) {
                assert(!value_fits(cols@[i as int].data_type, value_lists@[n as int]@[i as int]));
                return false;
            }
            if values[i].is_null() && !cols[i].can_be_null {
                assert(value_lists@[n as int]@[i as int] is Null);
                return false;
            }
            i = i + 1;
        }
        n = n + 1;
    }
    assert(values_fit(cols@, value_lists@));
    if find_primary(&t.btrees).is_some() {
        if !distinct_keys(new_keys, stored.width) {
            return false;
        }
        let mut k: usize = 0;
        while k < new_keys.len()
            invariant
                k <= new_keys@.len(),
                stored.wf(),
                forall|n: int| 0 <= n < new_keys@.len() ==> (#[trigger] new_keys@[n]).index@.len() == stored.width,
                forall|n2: int| 0 <= n2 < k ==> !in_tree(#[trigger] new_keys@[n2], *stored),
            decreases new_keys@.len() - k,
        {
            if stored.search_record(&new_keys[k]).is_some() {
                assert(in_tree(new_keys@[k as int], *stored));
                return false;
            }
            k = k + 1;
        }
    } else {
        proof {
            assert forall|q: int| !primary_at(t.btrees@, q) by {
                if primary_at(t.btrees@, q) {
                    assert(t.btrees@[q].ty == 1);
                }
            }
        }
    }
    let mut f: usize = 0;
    while f < refs.len()
        invariant
            f <= refs@.len(),
            refs@.len() == referred@.len(),
            forall|g: int| 0 <= g < referred@.len() ==> (#[trigger] referred@[g]).wf(),
            forall|g: int, m: int|
                0 <= g < f && 0 <= m < refs@[g]@.len() ==> in_tree(#[trigger] refs@[g]@[m], referred@[g]),
        decreases refs@.len() - f,
    {
        if !keys_found(&refs[f], &referred[f]) {
            return false;
        }
        f = f + 1;
    }
    true
}


/// Every set clause names a column of `cols` and gives it a value of its type.
pub open spec fn sets_fit(cols: Seq<ColumnType>, sets: Seq<SetClause>) -> bool {
    forall|k: int|
        0 <= k < sets.len() ==> col_named(cols, (#[trigger] sets[k]).col_name@) is Some && value_fits(
            col_named(cols, sets[k].col_name@).unwrap().data_type,
            sets[k].value,
        )
}

/// Some set clause changes a column of `pc`.
pub open spec fn sets_touch(cols: Seq<ColumnType>, sets: Seq<SetClause>, pc: Seq<u32>) -> bool {
    exists|k: int, j: int|
        0 <= k < sets.len() && 0 <= j < pc.len() && col_named(cols, (#[trigger] sets[k]).col_name@).unwrap().index
            == #[trigger] pc[j]
}

/// Updating the rows in turn, removing each old key and adding its new key, the new key of
/// row `n` meets a key present at that point: a stored key that no old key so far removed, or
/// an earlier new key that no later old key so far removed.
pub open spec fn dup_at(old_keys: Seq<RawIndex>, new_keys: Seq<RawIndex>, stored: Seq<RawIndex>, n: int) -> bool {
    ||| found_in(new_keys[n], stored) && forall|m: int|
        0 <= m <= n ==> !raw_equal(new_keys[n].index@, (#[trigger] old_keys[m]).index@)
    ||| exists|m: int|
        0 <= m < n && raw_equal(new_keys[n].index@, (#[trigger] new_keys[m]).index@) && forall|m2: int|
            m < m2 <= n ==> !raw_equal(new_keys[m].index@, (#[trigger] old_keys[m2]).index@)
}

/// An update of the stored table `t` may go ahead: its conditions fit; its set clauses fit and
/// name no column twice; and when it changes a primary-key column, no row's old key is
/// referred to, every key the rows refer to (`refs[f]`) is held by its referred table
/// (`referred[f]`), and no row's new key meets a key present when it is added.
pub open spec fn update_ok(
    tables: Seq<TableMeta>,
    t: TableMeta,
    sets: Seq<SetClause>,
    where_clause: Option<Vec<WhereClause>>,
    old_keys: Seq<RawIndex>,
    new_keys: Seq<RawIndex>,
    stored_keys: Seq<RawIndex>,
    referring_keys: Seq<RawIndex>,
    refs: Seq<Vec<RawIndex>>,
    referred: Seq<Vec<RawIndex>>,
) -> bool {
    &&& where_ok(t.name@, t.cols@, where_clause)
    &&& sets_fit(t.cols@, sets)
    &&& no_repeat(sets.map_values(|c: SetClause| c.col_name))
    &&& sets_touch(t.cols@, sets, primary_cols(t)) ==> {
        &&& referring(tables, t.name@).len() > 0 ==> forall|n: int, j: int|
            0 <= n < old_keys.len() && 0 <= j < referring_keys.len() ==> !raw_equal(
                (#[trigger] old_keys[n]).index@,
                (#[trigger] referring_keys[j]).index@,
            )
        &&& refs_found(refs, referred)
        &&& forall|n: int| 0 <= n < new_keys.len() ==> !#[trigger] dup_at(old_keys, new_keys, stored_keys, n)
    }
}

/// Some old key among `old_keys[from ..= to]` equals `k`.
fn removed_by_old(k: &RawIndex, old_keys: &Vec<RawIndex>, from: usize, to: usize) -> (r: bool)
    requires
        from <= to + 1,
        to < old_keys@.len(),
    ensures
        r == exists|m: int| from <= m <= to && raw_equal(k.index@, (#[trigger] old_keys@[m]).index@),
{
    let len = old_keys.len();
    let end = to + 1;
    let mut i = from;
    while i < end
        invariant
            end == to + 1,
            from <= i <= to + 1,
            to < old_keys@.len(),
            forall|m: int| from <= m < i ==> !raw_equal(k.index@, (#[trigger] old_keys@[m]).index@),
        decreases to + 1 - i,
    {
        if k.same(&old_keys[i]) {
            return true;
        }
        i = i + 1;
    }
    false
}

fn dup_at_exec(old_keys: &Vec<RawIndex>, new_keys: &Vec<RawIndex>, stored: &Vec<RawIndex>, n: usize) -> (r: bool)
    requires
        n < new_keys@.len(),
        new_keys@.len() == old_keys@.len(),
    ensures
        r == dup_at(old_keys@, new_keys@, stored@, n as int),
{
    let k = &new_keys[n];
    if key_among(k, stored, stored.len()) && !removed_by_old(k, old_keys, 0, n) {
        return true;
    }
    let mut m: usize = 0;
    while m < n
        invariant
            m <= n,
            n < new_keys@.len() == old_keys@.len(),
            *k == new_keys@[n as int],
            !(found_in(new_keys@[n as int], stored@) && forall|m1: int|
                0 <= m1 <= n ==> !raw_equal(new_keys@[n as int].index@, (#[trigger] old_keys@[m1]).index@)),
            forall|m1: int|
                0 <= m1 < m ==> !(raw_equal(new_keys@[n as int].index@, (#[trigger] new_keys@[m1]).index@) && forall|m2: int|
                    m1 < m2 <= n ==> !raw_equal(new_keys@[m1].index@, (#[trigger] old_keys@[m2]).index@)),
        decreases n - m,
    {
        if k.same(&new_keys[m]) && !removed_by_old(&new_keys[m], old_keys, m + 1, n) {
            return true;
        }
        m = m + 1;
    }
    false
}

/// Whether every set clause names a column and gives it a value of its type.
fn sets_fit_exec(cols: &Vec<ColumnType>, sets: &Vec<SetClause>) -> (r: bool)
    requires
        forall|k: int|
            0 <= k < sets@.len() && (forall|k2: int|
                0 <= k2 < k ==> value_fits(
                    col_named(cols@, (#[trigger] sets@[k2]).col_name@).unwrap().data_type,
                    sets@[k2].value,
                )) ==> col_named(cols@, (#[trigger] sets@[k]).col_name@) is Some,
    ensures
        r == sets_fit(cols@, sets@),
{
    let mut k: usize = 0;
    while k < sets.len()
        invariant
            k <= sets@.len(),
            forall|k3: int|
                0 <= k3 < sets@.len() && (forall|k2: int|
                    0 <= k2 < k3 ==> value_fits(
                        col_named(cols@, (#[trigger] sets@[k2]).col_name@).unwrap().data_type,
                        sets@[k2].value,
                    )) ==> col_named(cols@, (#[trigger] sets@[k3]).col_name@) is Some,
            forall|k2: int|
                0 <= k2 < k ==> col_named(cols@, (#[trigger] sets@[k2]).col_name@) is Some && value_fits(
                    col_named(cols@, sets@[k2].col_name@).unwrap().data_type,
                    sets@[k2].value,
                ),
        decreases sets@.len() - k,
    {
        let ci = match find_col(cols, &sets[k].col_name) {
            Some(ci) => ci,
            None => {
                return false;
            },
        };
        if !cols[ci].data_type.valid_value(&sets[k].value) {
            return false;
        }
        k = k + 1;
    }
    true
}

/// The names of the set clauses' columns.
fn set_names(sets: &Vec<SetClause>) -> (r: Vec<String>)
    ensures
        r@ == sets@.map_values(|c: SetClause| c.col_name),
{
    let mut names: Vec<String> = Vec::new();
    let mut k: usize = 0;
    while k < sets.len()
        invariant
            k <= sets@.len(),
            names@ == sets@.map_values(|c: SetClause| c.col_name).take(k as int),
        decreases sets@.len() - k,
    {
        names.push(sets[k].col_name.clone());
        k = k + 1;
        assert(names@ =~= sets@.map_values(|c: SetClause| c.col_name).take(k as int));
    }
    assert(names@ =~= sets@.map_values(|c: SetClause| c.col_name));
    names
}

/// Whether some set clause changes a column of `pc`.
fn sets_touch_exec(cols: &Vec<ColumnType>, sets: &Vec<SetClause>, pc: &Vec<u32>) -> (r: bool)
    requires
        sets_fit(cols@, sets@),
    ensures
        r == sets_touch(cols@, sets@, pc@),
{
    let mut k: usize = 0;
    while k < sets.len()
        invariant
            k <= sets@.len(),
            sets_fit(cols@, sets@),
            forall|k2: int, j: int|
                0 <= k2 < k && 0 <= j < pc@.len() ==> col_named(cols@, (#[trigger] sets@[k2]).col_name@).unwrap().index
                    != #[trigger] pc@[j],
        decreases sets@.len() - k,
    {
        let ci = find_col(cols, &sets[k].col_name);
        let ci = match ci {
            Some(ci) => ci,
            None => 0,
        };
        let idx = cols[ci].index;
        if index_listed(pc, idx) {
            let ghost j = choose|j: int| 0 <= j < pc@.len() && pc@[j] == idx;
            assert(col_named(cols@, sets@[k as int].col_name@).unwrap().index == pc@[j]);
            return true;
        }
        k = k + 1;
    }
    false
}

/// The key part of an update that changes the primary key: no old key is referred to (where
/// some table refers to this one), every referred key is held, and no new key meets a key
/// present when it is added.
fn update_keys_ok(
    referred_to: bool,
    old_keys: &Vec<RawIndex>,
    new_keys: &Vec<RawIndex>,
    stored_keys: &Vec<RawIndex>,
    referring_keys: &Vec<RawIndex>,
    refs: &Vec<Vec<RawIndex>>,
    referred: &Vec<Vec<RawIndex>>,
) -> (r: bool)
    requires
        old_keys@.len() == new_keys@.len(),
        refs@.len() == referred@.len(),
    ensures
        r == ((referred_to ==> forall|n: int, j: int|
            0 <= n < old_keys@.len() && 0 <= j < referring_keys@.len() ==> !raw_equal(
                (#[trigger] old_keys@[n]).index@,
                (#[trigger] referring_keys@[j]).index@,
            )) && refs_found(refs@, referred@) && forall|n: int|
            0 <= n < new_keys@.len() ==> !#[trigger] dup_at(old_keys@, new_keys@, stored_keys@, n)),
{
    if referred_to {
        let mut n: usize = 0;
        while n < old_keys.len()
            invariant
                n <= old_keys@.len(),
                referred_to,
                forall|n2: int, j: int|
                    0 <= n2 < n && 0 <= j < referring_keys@.len() ==> !raw_equal(
                        (#[trigger] old_keys@[n2]).index@,
                        (#[trigger] referring_keys@[j]).index@,
                    ),
            decreases old_keys@.len() - n,
        {
            if key_among(&old_keys[n], referring_keys, referring_keys.len()) {
                proof {
                    let j = choose|j: int|
                        0 <= j < referring_keys@.len() && raw_equal(
                            old_keys@[n as int].index@,
                            (#[trigger] referring_keys@[j]).index@,
                        );
                    assert(raw_equal(old_keys@[n as int].index@, referring_keys@[j].index@));
                }
                return false;
            }
            n = n + 1;
        }
    }
    let mut f: usize = 0;
    while f < refs.len()
        invariant
            f <= refs@.len(),
            refs@.len() == referred@.len(),
            forall|g: int, m: int|
                0 <= g < f && 0 <= m < refs@[g]@.len() ==> found_in(#[trigger] refs@[g]@[m], referred@[g]@),
        decreases refs@.len() - f,
    {
        let mut m: usize = 0;
        while m < refs[f].len()
            invariant
                f < refs@.len(),
                refs@.len() == referred@.len(),
                m <= refs@[f as int]@.len(),
                forall|m2: int| 0 <= m2 < m ==> found_in(#[trigger] refs@[f as int]@[m2], referred@[f as int]@),
            decreases refs@[f as int]@.len() - m,
        {
            if !key_among(&refs[f][m], &referred[f], referred[f].len()) {
                assert(!found_in(refs@[f as int]@[m as int], referred@[f as int]@));
                return false;
            }
            m = m + 1;
        }
        f = f + 1;
    }
    let mut n: usize = 0;
    while n < new_keys.len()
        invariant
            n <= new_keys@.len(),
            old_keys@.len() == new_keys@.len(),
            forall|n2: int| 0 <= n2 < n ==> !#[trigger] dup_at(old_keys@, new_keys@, stored_keys@, n2),
        decreases new_keys@.len() - n,
    {
        if dup_at_exec(old_keys, new_keys, stored_keys, n) {
            return false;
        }
        n = n + 1;
    }
    true
}

/// Whether the stored table `tb_name` may be updated by `set_clause` on the rows its
/// conditions select. The keys are those the rows give: `old_keys` and `new_keys` their
/// primary keys before and after, `refs[f]` the keys they refer to in the `f`-th foreign key
/// that the update changes; `stored_keys` the table's primary keys, `referring_keys` the keys
/// other tables' foreign keys hold of it, and `referred[f]` the keys of the `f`-th referred
/// table.
pub fn check_update(
    tb_name: &String,
    set_clause: &Vec<SetClause>,
    where_clause: &Option<Vec<WhereClause>>,
    tables: &Vec<TableMeta>,
    old_keys: &Vec<RawIndex>,
    new_keys: &Vec<RawIndex>,
    stored_keys: &Vec<RawIndex>,
    referring_keys: &Vec<RawIndex>,
    refs: &Vec<Vec<RawIndex>>,
    referred: &Vec<Vec<RawIndex>>,
) -> (r: bool)
    requires
        has_table(tables@, tb_name@),
        old_keys@.len() == new_keys@.len(),
        refs@.len() == referred@.len(),
        forall|t: int|
            #[trigger] table_at(tables@, tb_name@, t) ==> where_readable(tb_name@, tables@[t].cols@, *where_clause) && (
            where_ok(tb_name@, tables@[t].cols@, *where_clause) ==> (forall|k: int|
                0 <= k < set_clause@.len() && (forall|k2: int|
                    0 <= k2 < k ==> value_fits(
                        col_named(tables@[t].cols@, (#[trigger] set_clause@[k2]).col_name@).unwrap().data_type,
                        set_clause@[k2].value,
                    )) ==> col_named(tables@[t].cols@, (#[trigger] set_clause@[k]).col_name@) is Some) && (sets_fit(
                tables@[t].cols@,
                set_clause@,
            ) && no_repeat(set_clause@.map_values(|c: SetClause| c.col_name)) ==> exists|p: int|
                primary_at(tables@[t].btrees@, p))),
    ensures
        r == (exists|t: int|
            table_at(tables@, tb_name@, t) && update_ok(
                tables@,
                tables@[t],
                set_clause@,
                *where_clause,
                old_keys@,
                new_keys@,
                stored_keys@,
                referring_keys@,
                refs@,
                referred@,
            )),
{
    let ti = get_table(tables, tb_name);
    let t = &tables[ti];
    if !check_where(tb_name, &t.cols, where_clause) {
        return false;
    }
    if !sets_fit_exec(&t.cols, set_clause) {
        return false;
    }
    let names = set_names(set_clause);
    if !check_no_repeat(&names) {
        return false;
    }
    let p = match find_primary(&t.btrees) {
        Some(p) => p,
        None => {
            return false;
        },
    };
    proof {
        assert forall|q: int| #[trigger] primary_at(t.btrees@, q) implies q == p by {
            if q < p {
                assert(t.btrees@[q].ty != 1);
            } else if p < q {
                assert(t.btrees@[p as int].ty != 1);
            }
        }
        assert(primary_cols(*t) == t.btrees@[p as int].index_col@);
    }
    if !sets_touch_exec(&t.cols, set_clause, &t.btrees[p].index_col) {
        return true;
    }
    let referrers = table_foreign_this_table(tb_name, tables);
    assert(referrers@.map_values(|x: String| x@).len() == referrers@.len());
    update_keys_ok(referrers.len() > 0, old_keys, new_keys, stored_keys, referring_keys, refs, referred)
}

} // verus!
