//! Checks of statements that add a primary key or a foreign-key constraint to a stored table.
use vstd::prelude::*;
use crate::index::btree::RawIndex;
use crate::index::btree::raw_equal;
use crate::index::btree::lex_order;
use crate::index::btree::lemma_lex_order_antisymmetric;
use crate::index::tree::IndexTree;
use crate::index::tree::has_key;
use crate::index::tree::lemma_has_key_put;
use crate::rm::record::ColumnType;
use crate::rm::record::same_kind_stored;
use crate::sm::check::TableMeta;
use crate::sm::check::check_drop_constraint_foreign_key;
use crate::sm::check::check_no_repeat;
use crate::sm::check::col_named;
use crate::sm::check::find_col;
use crate::sm::check::find_primary;
use crate::sm::check::find_table;
use crate::sm::check::fk_names_readable;
use crate::sm::check::fk_tree;
use crate::sm::check::has_table;
use crate::sm::check::no_repeat;
use crate::sm::check::primary_at;
use crate::sm::check::primary_cols;
use crate::sm::check::table_at;

verus! {

/// Every name of `names` is that of a column of `cols`.
pub open spec fn all_named(cols: Seq<ColumnType>, names: Seq<String>) -> bool {
    forall|k: int| 0 <= k < names.len() ==> col_named(cols, (#[trigger] names[k])@) is Some
}

/// No two keys are equal.
pub open spec fn keys_distinct(keys: Seq<RawIndex>) -> bool {
    forall|n: int, m: int| 0 <= m < n < keys.len() ==> !raw_equal((#[trigger] keys[n]).index@, (#[trigger] keys[m]).index@)
}

/// A primary key on the columns `column_list` may be added to the stored table `t`: the names
/// are distinct and name columns of the table, the table has no primary key yet, and the keys
/// of its rows over those columns, `row_keys`, are distinct.
pub open spec fn add_primary_ok(t: TableMeta, column_list: Seq<String>, row_keys: Seq<RawIndex>) -> bool {
    &&& no_repeat(column_list)
    &&& forall|b: int| 0 <= b < t.btrees@.len() ==> (#[trigger] t.btrees@[b]).ty != 1
    &&& all_named(t.cols@, column_list)
    &&& keys_distinct(row_keys)
}

fn names_found(cols: &Vec<ColumnType>, names: &Vec<String>) -> (r: bool)
    ensures
        r == all_named(cols@, names@),
{
    let mut k: usize = 0;
    while k < names.len()
        invariant
            k <= names@.len(),
            forall|j: int| 0 <= j < k ==> col_named(cols@, (#[trigger] names@[j])@) is Some,
        decreases names@.len() - k,
    {
        if find_col(cols, &names[k]).is_none() {
            return false;
        }
        k = k + 1;
    }
    true
}

/// Whether the keys are distinct, found as a primary-key tree would find it: each key is
/// put in turn into an empty index tree that takes no duplicates, until one is present.
pub(crate) fn distinct_keys(keys: &Vec<RawIndex>, width: usize) -> (r: bool)
    requires
        forall|n: int| 0 <= n < keys@.len() ==> (#[trigger] keys@[n]).index@.len() == width,
    ensures
        r == keys_distinct(keys@),
{
    let mut tree = IndexTree::new(width);
    let mut n: usize = 0;
    while n < keys.len()
        invariant
            n <= keys@.len(),
            forall|a: int| 0 <= a < keys@.len() ==> (#[trigger] keys@[a]).index@.len() == width,
            tree.wf(),
            tree.width == width,
            forall|x: Seq<crate::rm::record::Data>|
                x.len() == width ==> (#[trigger] has_key(tree.contents(), x) == exists|m: int|
                    0 <= m < n && lex_order((#[trigger] keys@[m]).index@, x) == 0),
            forall|a: int, m: int| 0 <= m < a < n ==> !raw_equal((#[trigger] keys@[a]).index@, (#[trigger] keys@[m]).index@),
        decreases keys@.len() - n,
    {
        let ghost before = tree.contents();
        let k = &keys[n];
        let present = tree.insert_record(k, n as u64, false);
        assert(has_key(before, k.index@) == exists|m: int| 0 <= m < n && lex_order((#[trigger] keys@[m]).index@, k.index@) == 0);
        if present {
            proof {
                let m = choose|m: int| 0 <= m < n && lex_order((#[trigger] keys@[m]).index@, k.index@) == 0;
                lemma_lex_order_antisymmetric(keys@[m].index@, k.index@);
                lemma_lex_order_antisymmetric(k.index@, keys@[m].index@);
                assert(raw_equal(keys@[n as int].index@, keys@[m].index@));
            }
            return false;
        }
        proof {
            assert forall|m: int| 0 <= m < n implies !raw_equal(keys@[n as int].index@, (#[trigger] keys@[m]).index@) by {
                lemma_lex_order_antisymmetric(keys@[m].index@, k.index@);
                lemma_lex_order_antisymmetric(k.index@, keys@[m].index@);
            }
            assert forall|x: Seq<crate::rm::record::Data>| x.len() == width implies (#[trigger] has_key(tree.contents(), x) == exists|m: int|
                0 <= m < n + 1 && lex_order((#[trigger] keys@[m]).index@, x) == 0) by {
                lemma_has_key_put(before, tree.contents(), k.index@, n as u64, false, false, width as nat, x);
                if lex_order(k.index@, x) == 0 {
                    assert(lex_order(keys@[n as int].index@, x) == 0);
                }
            }
        }
        n = n + 1;
    }
    true
}

/// Whether a primary key on `column_list` may be added to the stored table `tb_name`, whose
/// rows have the keys `row_keys` over those columns.
pub fn check_add_primary_key(
    tb_name: &String,
    column_list: &Vec<String>,
    tables: &Vec<TableMeta>,
    row_keys: &Vec<RawIndex>,
) -> (r: bool)
    requires
        has_table(tables@, tb_name@),
        forall|n: int| 0 <= n < row_keys@.len() ==> (#[trigger] row_keys@[n]).index@.len() == column_list@.len(),
    ensures
        r == (exists|t: int| table_at(tables@, tb_name@, t) && add_primary_ok(tables@[t], column_list@, row_keys@)),
{
    let ti = match find_table(tables, tb_name) {
        Some(i) => i,
        None => {
            proof {
                let t = choose|t: int| 0 <= t < tables@.len() && (#[trigger] tables@[t]).name@ == tb_name@;
                assert(tables@[t].name@ != tb_name@);
            }
            return false;
        },
    };
    proof {
        assert forall|q: int| #[trigger] table_at(tables@, tb_name@, q) implies q == ti by {
            if q < ti {
                assert(tables@[q].name@ != tb_name@);
            } else if ti < q {
                assert(tables@[ti as int].name@ != tb_name@);
            }
        }
    }
    let t = &tables[ti];
    let mut no_primary = true;
    let mut b: usize = 0;
    while b < t.btrees.len()
        invariant
            b <= t.btrees@.len(),
            no_primary == forall|j: int| 0 <= j < b ==> (#[trigger] t.btrees@[j]).ty != 1,
        decreases t.btrees@.len() - b,
    {
        if t.btrees[b].ty == 1 {
            no_primary = false;
        }
        b = b + 1;
    }
    check_no_repeat(column_list) && no_primary && names_found(&t.cols, column_list) && distinct_keys(row_keys, column_list.len())
}

/// The `index` numbers of the columns that `names` name.
pub open spec fn col_indexes(cols: Seq<ColumnType>, names: Seq<String>) -> Seq<u32> {
    Seq::new(names.len(), |k: int| col_named(cols, names[k]@).unwrap().index)
}

/// Each column of `names` in `cols` is of a kind comparable with the column of `fnames` at the
/// same place in `fcols`.
pub open spec fn kinds_comparable(cols: Seq<ColumnType>, names: Seq<String>, fcols: Seq<ColumnType>, fnames: Seq<String>) -> bool {
    forall|k: int|
        0 <= k < names.len() ==> same_kind_stored(
            col_named(cols, (#[trigger] names[k])@).unwrap().data_type,
            col_named(fcols, fnames[k]@).unwrap().data_type,
        )
}

/// The referred table `ft` can take the constraint: it has the referred columns, its primary
/// key is on exactly those columns, in that order, their kinds are comparable with the
/// referring columns, and every key of the referring rows is found in its primary-key tree
/// `referred`.
pub open spec fn referred_ok(
    t: TableMeta,
    ft: TableMeta,
    column_list: Seq<String>,
    foreign_column_list: Seq<String>,
    row_keys: Seq<RawIndex>,
    referred: IndexTree,
) -> bool {
    &&& all_named(ft.cols@, foreign_column_list)
    &&& exists|p: int| primary_at(ft.btrees@, p)
    &&& primary_cols(ft) == col_indexes(ft.cols@, foreign_column_list)
    &&& kinds_comparable(t.cols@, column_list, ft.cols@, foreign_column_list)
    &&& forall|n: int| 0 <= n < row_keys.len() ==> in_tree(#[trigger] row_keys[n], referred)
}

/// A foreign-key constraint `fk_name` may be added to the stored table `t`: as many columns
/// refer as are referred to, the table has no constraint of that name yet and has the
/// referring columns, and the referred table exists and can take the constraint.
pub open spec fn add_foreign_ok(
    tables: Seq<TableMeta>,
    t: TableMeta,
    fk_name: Seq<char>,
    column_list: Seq<String>,
    foreign_tb_name: Seq<char>,
    foreign_column_list: Seq<String>,
    row_keys: Seq<RawIndex>,
    referred: IndexTree,
) -> bool {
    &&& column_list.len() == foreign_column_list.len()
    &&& !exists|b: int| 0 <= b < t.btrees@.len() && fk_tree(#[trigger] t.btrees@[b], fk_name)
    &&& all_named(t.cols@, column_list)
    &&& exists|f: int|
        table_at(tables, foreign_tb_name, f) && referred_ok(
            t,
            #[trigger] tables[f],
            column_list,
            foreign_column_list,
            row_keys,
            referred,
        )
}

fn same_u32s(a: &Vec<u32>, b: &Vec<u32>) -> (r: bool)
    ensures
        r == (a@ == b@),
{
    if a.len() != b.len() {
        return false;
    }
    let mut i: usize = 0;
    while i < a.len()
        invariant
            i <= a@.len() == b@.len(),
            forall|j: int| 0 <= j < i ==> a@[j] == b@[j],
        decreases a@.len() - i,
    {
        if a[i] != b[i] {
            return false;
        }
        i = i + 1;
    }
    assert(a@ =~= b@);
    true
}

fn indexes_of(cols: &Vec<ColumnType>, names: &Vec<String>) -> (r: Vec<u32>)
    requires
        all_named(cols@, names@),
    ensures
        r@ == col_indexes(cols@, names@),
{
    let mut out: Vec<u32> = Vec::new();
    let mut k: usize = 0;
    while k < names.len()
        invariant
            k <= names@.len(),
            all_named(cols@, names@),
            out@ == col_indexes(cols@, names@).take(k as int),
        decreases names@.len() - k,
    {
        assert(col_named(cols@, names@[k as int]@) is Some);
        match find_col(cols, &names[k]) {
            Some(i) => out.push(cols[i].index),
            None => {},
        }
        k = k + 1;
        assert(out@ =~= col_indexes(cols@, names@).take(k as int));
    }
    assert(col_indexes(cols@, names@).take(names@.len() as int) =~= col_indexes(cols@, names@));
    out
}

fn kinds_fit(cols: &Vec<ColumnType>, names: &Vec<String>, fcols: &Vec<ColumnType>, fnames: &Vec<String>) -> (r: bool)
    requires
        names@.len() == fnames@.len(),
        all_named(cols@, names@),
        all_named(fcols@, fnames@),
    ensures
        r == kinds_comparable(cols@, names@, fcols@, fnames@),
{
    let mut k: usize = 0;
    while k < names.len()
        invariant
            k <= names@.len() == fnames@.len(),
            all_named(cols@, names@),
            all_named(fcols@, fnames@),
            forall|j: int|
                0 <= j < k ==> same_kind_stored(
                    col_named(cols@, (#[trigger] names@[j])@).unwrap().data_type,
                    col_named(fcols@, fnames@[j]@).unwrap().data_type,
                ),
        decreases names@.len() - k,
    {
        assert(col_named(cols@, names@[k as int]@) is Some);
        assert(col_named(fcols@, fnames@[k as int]@) is Some);
        let a = find_col(cols, &names[k]);
        let b = find_col(fcols, &fnames[k]);
        match (a, b) {
            (Some(i), Some(j)) => {
                if !cols[i].data_type.comparable(&fcols[j].data_type) {
                    return false;
                }
            },
            _ => {},
        }
        k = k + 1;
    }
    true
}

/// The key is found in the tree: it has the tree's width and is present.
pub open spec fn in_tree(k: RawIndex, tree: IndexTree) -> bool {
    k.index@.len() == tree.width && has_key(tree.contents(), k.index@)
}

pub(crate) fn keys_found(keys: &Vec<RawIndex>, tree: &IndexTree) -> (r: bool)
    requires
        tree.wf(),
    ensures
        r == forall|n: int| 0 <= n < keys@.len() ==> in_tree(#[trigger] keys@[n], *tree),
{
    let mut n: usize = 0;
    while n < keys.len()
        invariant
            n <= keys@.len(),
            tree.wf(),
            forall|j: int| 0 <= j < n ==> in_tree(#[trigger] keys@[j], *tree),
        decreases keys@.len() - n,
    {
        let k = &keys[n];
        if k.index.len() != tree.width {
            assert(!in_tree(keys@[n as int], *tree));
            return false;
        }
        if tree.search_record(k).is_none() {
            assert(!in_tree(keys@[n as int], *tree));
            return false;
        }
        n = n + 1;
    }
    true
}

/// Whether the foreign-key constraint `fk_name`, from `column_list` of the stored table
/// `tb_name` to `foreign_column_list` of the table `foreign_tb_name`, may be added, where the
/// rows of `tb_name` have the keys `row_keys` over the referring columns and the primary key
/// of the referred table is the tree `referred`.
pub fn check_add_constraint_foreign_key(
    tb_name: &String,
    fk_name: &String,
    column_list: &Vec<String>,
    foreign_tb_name: &String,
    foreign_column_list: &Vec<String>,
    tables: &Vec<TableMeta>,
    row_keys: &Vec<RawIndex>,
    referred: &IndexTree,
) -> (r: bool)
    requires
        column_list@.len() == foreign_column_list@.len() ==> has_table(tables@, tb_name@),
        column_list@.len() == foreign_column_list@.len() ==> forall|t: int| #[trigger] table_at(tables@, tb_name@, t)
            ==> fk_names_readable(tables@[t].btrees@, fk_name@),
        referred.wf(),
    ensures
        column_list@.len() != foreign_column_list@.len() ==> !r,
        r == (exists|t: int|
            table_at(tables@, tb_name@, t) && add_foreign_ok(
                tables@,
                tables@[t],
                fk_name@,
                column_list@,
                foreign_tb_name@,
                foreign_column_list@,
                row_keys@,
                *referred,
            )),
{
    if column_list.len() != foreign_column_list.len() {
        return false;
    }
    let ti = match find_table(tables, tb_name) {
        Some(i) => i,
        None => {
            proof {
                let t = choose|t: int| 0 <= t < tables@.len() && (#[trigger] tables@[t]).name@ == tb_name@;
                assert(tables@[t].name@ != tb_name@);
            }
            return false;
        },
    };
    proof {
        assert forall|q: int| #[trigger] table_at(tables@, tb_name@, q) implies q == ti by {
            if q < ti {
                assert(tables@[q].name@ != tb_name@);
            } else if ti < q {
                assert(tables@[ti as int].name@ != tb_name@);
            }
        }
    }
    let t = &tables[ti];
    if check_drop_constraint_foreign_key(tb_name, fk_name, tables) {
        return false;
    }
    if !names_found(&t.cols, column_list) {
        return false;
    }
    let fi = match find_table(tables, foreign_tb_name) {
        Some(i) => i,
        None => {
            return false;
        },
    };
    proof {
        assert forall|q: int| #[trigger] table_at(tables@, foreign_tb_name@, q) implies q == fi by {
            if q < fi {
                assert(tables@[q].name@ != foreign_tb_name@);
            } else if fi < q {
                assert(tables@[fi as int].name@ != foreign_tb_name@);
            }
        }
    }
    let ft = &tables[fi];
    if !names_found(&ft.cols, foreign_column_list) {
        return false;
    }
    let p = match find_primary(&ft.btrees) {
        Some(p) => p,
        None => {
            return false;
        },
    };
    proof {
        let q = choose|q: int| primary_at(ft.btrees@, q);
        if q < p {
            assert(ft.btrees@[q].ty != 1);
        } else if p < q {
            assert(ft.btrees@[p as int].ty != 1);
        }
    }
    let fidx = indexes_of(&ft.cols, foreign_column_list);
    if !same_u32s(&ft.btrees[p].index_col, &fidx) {
        return false;
    }
    if !kinds_fit(&t.cols, column_list, &ft.cols, foreign_column_list) {
        return false;
    }
    keys_found(row_keys, referred)
}

} // verus!
