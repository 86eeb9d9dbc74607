//! Column types of stored tables.
use vstd::prelude::*;
use crate::parser::ast;
use vstd::string::StrSliceExecFns;
use crate::utils::text::decimal_chars;
use crate::utils::text::int_chars;
use crate::utils::text::push_decimal;
use crate::utils::text::push_int;
use crate::utils::text::push_str;
use crate::utils::text::parse_i64;
use crate::utils::text::parse_i64_dec;

verus! {

pub const TYPE_INT: i32 = 1;

pub const TYPE_STR: i32 = 2;

pub const TYPE_FLOAT: i32 = 3;

pub const TYPE_DATE: i32 = 4;

pub const TYPE_NUMERIC: i32 = 5;

/// The type of a stored column, with its default value where it has one. A decimal default
/// is held as the text that shows it.
#[derive(Clone, Debug)]
pub enum Type {
    Str(Option<String>),
    Int(Option<i64>),
    Float(Option<String>),
    Date(Option<u64>),
    Numeric(Option<i64>),
}

/// Whether a declared type is of the kind of a stored type: integers, strings, decimals and
/// dates match; no declared type matches a numeric column.
pub open spec fn kind_matches(t: Type, ty: ast::Type) -> bool {
    match (t, ty) {
        (Type::Int(_), ast::Type::Int(_)) | (Type::Str(_), ast::Type::Varchar(_)) | (
            Type::Float(_),
            ast::Type::Float,
        ) | (Type::Date(_), ast::Type::Date) => true,
        _ => false,
    }
}

/// The number of a type's kind.
pub open spec fn type_code(t: Type) -> i32 {
    match t {
        Type::Int(_) => TYPE_INT,
        Type::Str(_) => TYPE_STR,
        Type::Float(_) => TYPE_FLOAT,
        Type::Date(_) => TYPE_DATE,
        Type::Numeric(_) => TYPE_NUMERIC,
    }
}

pub fn datatype2int(ty: &Type) -> (r: i32)
    ensures
        r == type_code(*ty),
{
    match ty {
        Type::Int(_) => TYPE_INT,
        Type::Str(_) => TYPE_STR,
        Type::Float(_) => TYPE_FLOAT,
        Type::Date(_) => TYPE_DATE,
        Type::Numeric(_) => TYPE_NUMERIC,
    }
}

/// The name of a type's kind, as a table's description shows it.
pub open spec fn kind_name(t: Type) -> Seq<char> {
    match t {
        Type::Str(_) => "VARCHAR"@,
        Type::Int(_) => "INT"@,
        Type::Float(_) => "FLOAT"@,
        Type::Date(_) => "DATE"@,
        Type::Numeric(_) => "NUMERIC"@,
    }
}

/// The default value as a table's description shows it: its text, or `NULL` for none.
pub open spec fn default_text(t: Type) -> Seq<char> {
    match t {
        Type::Str(Some(s)) => s@,
        Type::Int(Some(i)) => int_chars(i as int),
        Type::Float(Some(s)) => s@,
        Type::Date(Some(d)) => decimal_chars(d as nat),
        Type::Numeric(Some(i)) => int_chars(i as int),
        _ => "NULL"@,
    }
}

/// Two optional texts are both absent or both present and equal.
pub open spec fn same_text(a: Option<String>, b: Option<String>) -> bool {
    match (a, b) {
        (None, None) => true,
        (Some(x), Some(y)) => x@ == y@,
        _ => false,
    }
}

/// Two types are of the same kind and have the same default.
pub open spec fn same_type(a: Type, b: Type) -> bool {
    match (a, b) {
        (Type::Str(x), Type::Str(y)) => same_text(x, y),
        (Type::Int(x), Type::Int(y)) => x == y,
        (Type::Float(x), Type::Float(y)) => same_text(x, y),
        (Type::Date(x), Type::Date(y)) => x == y,
        (Type::Numeric(x), Type::Numeric(y)) => x == y,
        _ => false,
    }
}

fn same_opt_text(a: &Option<String>, b: &Option<String>) -> (r: bool)
    ensures
        r == same_text(*a, *b),
{
    match (a, b) {
        (None, None) => true,
        (Some(x), Some(y)) => *x == *y,
        _ => false,
    }
}

/// Whether a literal may be stored in a column of a stored type: NULL anywhere; integers,
/// strings, decimals and dates in columns of their kind; nothing else in a numeric column.
pub open spec fn value_fits(t: Type, v: ast::Value) -> bool {
    match (t, v) {
        (_, ast::Value::Null) => true,
        (Type::Int(_), ast::Value::Int(_)) | (Type::Str(_), ast::Value::Str(_)) | (
            Type::Float(_),
            ast::Value::Float(_),
        ) | (Type::Date(_), ast::Value::Date(_)) => true,
        _ => false,
    }
}

/// Two stored types are of the same kind, so their values compare.
pub open spec fn same_kind_stored(a: Type, b: Type) -> bool {
    match (a, b) {
        (Type::Int(_), Type::Int(_)) | (Type::Str(_), Type::Str(_)) | (Type::Float(_), Type::Float(_))
        | (Type::Date(_), Type::Date(_)) | (Type::Numeric(_), Type::Numeric(_)) => true,
        _ => false,
    }
}

/// A column's declared type and default can be read: a default, where there is one, is a
/// literal of the column's kind, an integer one fitting in `i64`; a numeric column is not
/// declared this way.
pub open spec fn default_readable(ty: ast::Type, dv: Option<ast::Value>) -> bool {
    match (ty, dv) {
        (ast::Type::Numeric(_, _), _) => false,
        (_, None) => true,
        (ast::Type::Int(_), Some(ast::Value::Int(s))) => parse_i64_dec(vstd::utf8::encode_utf8(s@)) is Some,
        (ast::Type::Varchar(_), Some(ast::Value::Str(_))) => true,
        (ast::Type::Date, Some(ast::Value::Date(_))) => true,
        (ast::Type::Float, Some(ast::Value::Float(_))) => true,
        _ => false,
    }
}

/// The stored type of a column declared with `ty` and the default `dv`: an integer default
/// read as decimal digits, a text as itself, any date as the one moment every date is read
/// as, a decimal as its text.
pub open spec fn field_type(ty: ast::Type, dv: Option<ast::Value>) -> Type {
    match (ty, dv) {
        (ast::Type::Int(_), Some(ast::Value::Int(s))) => Type::Int(
            Some(parse_i64_dec(vstd::utf8::encode_utf8(s@)).unwrap()),
        ),
        (ast::Type::Int(_), _) => Type::Int(None),
        (ast::Type::Varchar(_), Some(ast::Value::Str(s))) => Type::Str(Some(s)),
        (ast::Type::Varchar(_), _) => Type::Str(None),
        (ast::Type::Date, Some(ast::Value::Date(_))) => Type::Date(Some(1575185880)),
        (ast::Type::Date, _) => Type::Date(None),
        (ast::Type::Float, Some(ast::Value::Float(s))) => Type::Float(Some(s)),
        (ast::Type::Float, _) => Type::Float(None),
        (ast::Type::Numeric(_, _), _) => Type::Numeric(None),
    }
}

impl Type {
    /// The stored type of a column declared with `ty` and the default `value`.
    pub fn from_type(ty: &ast::Type, value: &Option<ast::Value>) -> (r: Type)
        requires
            default_readable(*ty, *value),
        ensures
            r == field_type(*ty, *value),
    {
        match (ty, value) {
            (ast::Type::Int(_), Some(ast::Value::Int(s))) => {
                match parse_i64(s.as_str().as_bytes()) {
                    Some(x) => Type::Int(Some(x)),
                    None => Type::Int(None),
                }
            },
            (ast::Type::Int(_), _) => Type::Int(None),
            (ast::Type::Varchar(_), Some(ast::Value::Str(s))) => Type::Str(Some(s.clone())),
            (ast::Type::Varchar(_), _) => Type::Str(None),
            (ast::Type::Date, Some(ast::Value::Date(_))) => Type::Date(Some(1575185880)),
            (ast::Type::Date, _) => Type::Date(None),
            (ast::Type::Float, Some(ast::Value::Float(s))) => Type::Float(Some(s.clone())),
            (ast::Type::Float, _) => Type::Float(None),
            (ast::Type::Numeric(_, _), _) => Type::Numeric(None),
        }
    }

    /// Whether the literal `v` may be stored in a column of this type.
    pub fn valid_value(&self, v: &ast::Value) -> (r: bool)
        ensures
            r == value_fits(*self, *v),
    {
        match (self, v) {
            (_, ast::Value::Null) => true,
            (Type::Int(_), ast::Value::Int(_)) | (Type::Str(_), ast::Value::Str(_)) | (
                Type::Float(_),
                ast::Value::Float(_),
            ) | (Type::Date(_), ast::Value::Date(_)) => true,
            (_, _) => false,
        }
    }

    /// Whether values of the two types compare: when they are of the same kind.
    pub fn comparable(&self, other: &Type) -> (r: bool)
        ensures
            r == same_kind_stored(*self, *other),
    {
        match (self, other) {
            (Type::Int(_), Type::Int(_)) | (Type::Str(_), Type::Str(_)) | (Type::Float(_), Type::Float(_))
            | (Type::Date(_), Type::Date(_)) | (Type::Numeric(_), Type::Numeric(_)) => true,
            (_, _) => false,
        }
    }

    pub fn of_same_type(&self, ty: &ast::Type) -> (r: bool)
        ensures
            r == kind_matches(*self, *ty),
    {
        match (self, ty) {
            (Type::Int(_), ast::Type::Int(_)) | (Type::Str(_), ast::Type::Varchar(_)) | (
                Type::Float(_),
                ast::Type::Float,
            ) | (Type::Date(_), ast::Type::Date) => true,
            (_, _) => false,
        }
    }

    pub fn to_string(&self) -> (r: String)
        ensures
            r@ == kind_name(*self),
    {
        match self {
            Type::Str(_) => String::from_str("VARCHAR"),
            Type::Int(_) => String::from_str("INT"),
            Type::Float(_) => String::from_str("FLOAT"),
            Type::Date(_) => String::from_str("DATE"),
            Type::Numeric(_) => String::from_str("NUMERIC"),
        }
    }

    pub fn get_default_string(&self) -> (r: String)
        ensures
            r@ == default_text(*self),
    {
        let mut r = String::new();
        match self {
            Type::Str(Some(s)) => {
                push_str(&mut r, s.as_str());
            },
            Type::Int(Some(i)) => {
                push_int(&mut r, *i);
            },
            Type::Float(Some(s)) => {
                push_str(&mut r, s.as_str());
            },
            Type::Date(Some(d)) => {
                push_decimal(&mut r, *d);
            },
            Type::Numeric(Some(i)) => {
                push_int(&mut r, *i);
            },
            _ => {
                push_str(&mut r, "NULL");
                proof {
                    reveal_strlit("NULL");
                }
            },
        }
        assert(r@ =~= default_text(*self));
        r
    }

    /// Whether two types are of the same kind with the same default.
    pub fn same(&self, other: &Type) -> (r: bool)
        ensures
            r == same_type(*self, *other),
    {
        match (self, other) {
            (Type::Str(x), Type::Str(y)) => same_opt_text(x, y),
            (Type::Int(x), Type::Int(y)) => match (x, y) {
                (None, None) => true,
                (Some(a), Some(b)) => *a == *b,
                _ => false,
            },
            (Type::Float(x), Type::Float(y)) => same_opt_text(x, y),
            (Type::Date(x), Type::Date(y)) => match (x, y) {
                (None, None) => true,
                (Some(a), Some(b)) => *a == *b,
                _ => false,
            },
            (Type::Numeric(x), Type::Numeric(y)) => match (x, y) {
                (None, None) => true,
                (Some(a), Some(b)) => *a == *b,
                _ => false,
            },
            _ => false,
        }
    }
}

impl Default for Type {
    /// An integer type without a default value.
    fn default() -> (r: Self)
        ensures
            r == Type::Int(None),
    {
        Type::Int(None)
    }
}

/// A column of a stored table.
#[derive(Clone, Debug)]
pub struct ColumnType {
    pub tb_name: String,
    pub name: String,
    /// The column's place among the table's columns.
    pub index: u32,
    pub data_type: Type,
    pub numeric_precision: u8,
    pub can_be_null: bool,
    pub has_index: bool,
    pub has_default: bool,
    pub is_primary: bool,
    pub is_foreign: bool,
    pub default_null: bool,
    /// For a foreign-key column: the table and the column it refers to.
    pub foreign_table_name: String,
    pub foreign_table_column: String,
}

/// Two columns agree in every part.
pub open spec fn same_column(a: ColumnType, b: ColumnType) -> bool {
    &&& a.tb_name@ == b.tb_name@
    &&& a.name@ == b.name@
    &&& a.index == b.index
    &&& same_type(a.data_type, b.data_type)
    &&& a.numeric_precision == b.numeric_precision
    &&& a.can_be_null == b.can_be_null
    &&& a.has_index == b.has_index
    &&& a.has_default == b.has_default
    &&& a.is_primary == b.is_primary
    &&& a.is_foreign == b.is_foreign
    &&& a.default_null == b.default_null
    &&& a.foreign_table_name@ == b.foreign_table_name@
    &&& a.foreign_table_column@ == b.foreign_table_column@
}

/// Whether a column named in a statement is this column: the names agree, and so do the
/// tables where the statement names one.
pub open spec fn column_matches(ct: ColumnType, col: ast::Column) -> bool {
    match col.tb_name {
        Some(tb) => tb@ == ct.tb_name@ && col.col_name@ == ct.name@,
        None => col.col_name@ == ct.name@,
    }
}

/// A column's line of a table's description: its name, type, whether it may be null, its key
/// (`PRI` for a primary-key column, else `MUL` where `is_mul` holds) and its default.
pub open spec fn column_row(ct: ColumnType, is_mul: bool) -> Seq<Seq<char>> {
    seq![
        ct.name@,
        kind_name(ct.data_type),
        if ct.can_be_null { "YES"@ } else { "NO"@ },
        if ct.is_primary { "PRI"@ } else if is_mul { "MUL"@ } else { ""@ },
        default_text(ct.data_type),
    ]
}

impl ColumnType {
    pub fn match_(&self, col: &ast::Column) -> (r: bool)
        ensures
            r == column_matches(*self, *col),
    {
        match &col.tb_name {
            Some(tb_name) => *tb_name == self.tb_name && col.col_name == self.name,
            None => col.col_name == self.name,
        }
    }

    /// Whether two columns agree in every part.
    pub fn same(&self, other: &ColumnType) -> (r: bool)
        ensures
            r == same_column(*self, *other),
    {
        self.tb_name == other.tb_name && self.name == other.name && self.index == other.index
            && self.data_type.same(&other.data_type) && self.numeric_precision
            == other.numeric_precision && self.can_be_null == other.can_be_null && self.has_index
            == other.has_index && self.has_default == other.has_default && self.is_primary
            == other.is_primary && self.is_foreign == other.is_foreign && self.default_null
            == other.default_null && self.foreign_table_name == other.foreign_table_name
            && self.foreign_table_column == other.foreign_table_column
    }

    pub fn print(&self, is_mul: bool) -> (r: Vec<String>)
        ensures
            r@.map_values(|s: String| s@) == column_row(*self, is_mul),
    {
        proof {
            reveal_strlit("YES");
            reveal_strlit("NO");
            reveal_strlit("PRI");
            reveal_strlit("MUL");
            reveal_strlit("");
        }
        let mut r: Vec<String> = Vec::new();
        r.push(self.name.clone());
        r.push(self.data_type.to_string());
        r.push(if self.can_be_null { String::from_str("YES") } else { String::from_str("NO") });
        r.push(
            if self.is_primary {
                String::from_str("PRI")
            } else if is_mul {
                String::from_str("MUL")
            } else {
                String::new()
            },
        );
        r.push(self.data_type.get_default_string());
        assert(r@[0]@ == column_row(*self, is_mul)[0]);
        assert(r@[1]@ == column_row(*self, is_mul)[1]);
        assert(r@[2]@ == column_row(*self, is_mul)[2]);
        assert(r@[3]@ == column_row(*self, is_mul)[3]);
        assert(r@[4]@ == column_row(*self, is_mul)[4]);
        assert(r@.map_values(|s: String| s@) =~= column_row(*self, is_mul));
        r
    }
}

/// Whether every column before the `i`-th is in the primary key.
pub open spec fn none_plain_before(cts: Seq<ColumnType>, i: int) -> bool {
    forall|j: int| 0 <= j < i ==> (#[trigger] cts[j]).is_primary
}

/// Field `k` of every column's line, in order; the first column outside the primary key is
/// marked `MUL`.
pub open spec fn description_field(cts: Seq<ColumnType>, k: int) -> Seq<Seq<char>> {
    Seq::new(cts.len(), |i: int| column_row(cts[i], none_plain_before(cts, i))[k])
}

/// Texts joined by line breaks.
pub open spec fn join_lines(parts: Seq<Seq<char>>) -> Seq<char>
    decreases parts.len(),
{
    if parts.len() == 0 {
        Seq::empty()
    } else if parts.len() == 1 {
        parts[0]
    } else {
        join_lines(parts.drop_last()) + seq!['\n'] + parts.last()
    }
}

/// A table's description: for each of the first `n` fields of the column lines, the lines'
/// values joined by line breaks.
pub fn describe_columns(cts: &Vec<ColumnType>, n: usize) -> (r: Vec<String>)
    requires
        n <= 5,
    ensures
        r@.len() == n,
        forall|k: int| 0 <= k < n ==> (#[trigger] r@[k])@ == join_lines(description_field(cts@, k)),
{
    let mut res: Vec<String> = Vec::new();
    let mut k: usize = 0;
    while k < n
        invariant
            k <= n,
            res@.len() == k,
            forall|j: int| 0 <= j < k ==> (#[trigger] res@[j])@ == Seq::<char>::empty(),
        decreases n - k,
    {
        res.push(String::new());
        k = k + 1;
    }
    assert(forall|j: int| 0 <= j < n ==> description_field(cts@.take(0), j) =~= Seq::<Seq<char>>::empty());
    let mut plain: usize = 0;
    let mut i: usize = 0;
    while i < cts.len()
        invariant
            n <= 5,
            i <= cts@.len(),
            res@.len() == n,
            plain <= i,
            (plain == 0) == none_plain_before(cts@, i as int),
            forall|j: int|
                0 <= j < n ==> (#[trigger] res@[j])@ == join_lines(description_field(cts@.take(i as int), j)),
        decreases cts@.len() - i,
    {
        let content = cts[i].print(plain == 0);
        assert(content@.len() == 5 && forall|j: int| 0 <= j < 5 ==> content@[j]@ == column_row(cts@[i as int], plain == 0)[j]) by {
            assert(content@.map_values(|s: String| s@).len() == 5);
            assert forall|j: int| 0 <= j < 5 implies content@[j]@ == column_row(cts@[i as int], plain == 0)[j] by {
                assert(content@.map_values(|s: String| s@)[j] == content@[j]@);
            }
        }
        let ghost old_res = res@;
        assert(i == 0 ==> forall|j: int| 0 <= j < n ==> (#[trigger] old_res[j])@ == Seq::<char>::empty()) by {
            if i == 0 {
                assert forall|j: int| 0 <= j < n implies (#[trigger] old_res[j])@ == Seq::<char>::empty() by {
                    assert(description_field(cts@.take(0), j) =~= Seq::<Seq<char>>::empty());
                }
            }
        }
        let mut k: usize = 0;
        while k < n
            invariant
                n <= 5,
                k <= n,
                res@.len() == n,
                content@.len() == 5,
                forall|j: int| 0 <= j < k ==> (#[trigger] res@[j])@ == if i == 0 {
                    content@[j]@
                } else {
                    old_res[j]@ + seq!['\n'] + content@[j]@
                },
                forall|j: int| k <= j < n ==> (#[trigger] res@[j]) == old_res[j],
                old_res.len() == n,
                i == 0 ==> forall|j: int| 0 <= j < n ==> (#[trigger] old_res[j])@ == Seq::<char>::empty(),
            decreases n - k,
        {
            let mut line = res[k].clone();
            if i > 0 {
                crate::utils::text::push_char(&mut line, '\n');
            }
            push_str(&mut line, content[k].as_str());
            res.set(k, line);
            k = k + 1;
        }
        proof {
            assert forall|j: int| 0 <= j < n implies (#[trigger] res@[j])@ == join_lines(
                description_field(cts@.take(i as int + 1), j),
            ) by {
                let before = description_field(cts@.take(i as int), j);
                let after = description_field(cts@.take(i as int + 1), j);
                assert forall|m: int| 0 <= m <= i implies none_plain_before(cts@.take(i as int + 1), m)
                    == none_plain_before(cts@, m) by {
                    if none_plain_before(cts@, m) {
                        assert forall|q: int| 0 <= q < m implies (#[trigger] cts@.take(i as int + 1)[q]).is_primary by {
                            assert(cts@.take(i as int + 1)[q] == cts@[q]);
                        }
                    }
                    if none_plain_before(cts@.take(i as int + 1), m) {
                        assert forall|q: int| 0 <= q < m implies (#[trigger] cts@[q]).is_primary by {
                            assert(cts@.take(i as int + 1)[q] == cts@[q]);
                        }
                    }
                }
                assert forall|m: int| 0 <= m < i implies none_plain_before(cts@.take(i as int), m)
                    == none_plain_before(cts@, m) by {
                    if none_plain_before(cts@, m) {
                        assert forall|q: int| 0 <= q < m implies (#[trigger] cts@.take(i as int)[q]).is_primary by {
                            assert(cts@.take(i as int)[q] == cts@[q]);
                        }
                    }
                    if none_plain_before(cts@.take(i as int), m) {
                        assert forall|q: int| 0 <= q < m implies (#[trigger] cts@[q]).is_primary by {
                            assert(cts@.take(i as int)[q] == cts@[q]);
                        }
                    }
                }
                assert(after =~= before.push(column_row(cts@[i as int], plain == 0)[j]));
                assert(after.drop_last() =~= before);
            }
        }
        if !cts[i].is_primary {
            plain = plain + 1;
        }
        proof {
            if plain == 0 {
                assert forall|q: int| 0 <= q < i + 1 implies (#[trigger] cts@[q]).is_primary by {}
            } else {
                if none_plain_before(cts@, i as int + 1) {
                    assert(cts@[i as int].is_primary);
                }
            }
        }
        i = i + 1;
    }
    assert(cts@.take(cts@.len() as int) =~= cts@);
    res
}

/// The columns of a table, in order.
pub struct ColumnTypeVec {
    pub cols: Vec<ColumnType>,
}

/// The places of the primary-key columns, in order.
pub open spec fn primary_indexes(cts: Seq<ColumnType>) -> Seq<u32>
    decreases cts.len(),
{
    if cts.len() == 0 {
        Seq::empty()
    } else if cts.last().is_primary {
        primary_indexes(cts.drop_last()).push(cts.last().index)
    } else {
        primary_indexes(cts.drop_last())
    }
}

/// The places of the primary-key columns of `cts`, in order.
pub fn primary_index_of(cts: &Vec<ColumnType>) -> (r: Vec<u32>)
    ensures
        r@ == primary_indexes(cts@),
{
    let mut r: Vec<u32> = Vec::new();
    let mut i: usize = 0;
    while i < cts.len()
        invariant
            i <= cts@.len(),
            r@ == primary_indexes(cts@.take(i as int)),
        decreases cts@.len() - i,
    {
        assert(cts@.take(i as int + 1).drop_last() =~= cts@.take(i as int));
        if cts[i].is_primary {
            r.push(cts[i].index);
        }
        i = i + 1;
    }
    assert(cts@.take(cts@.len() as int) =~= cts@);
    r
}

impl ColumnTypeVec {
    pub fn get_primary_index(&self) -> (r: Vec<u32>)
        ensures
            r@ == primary_indexes(self.cols@),
    {
        primary_index_of(&self.cols)
    }

    /// The first `col_num` fields of the table's description.
    pub fn print(&self, col_num: usize) -> (r: Vec<String>)
        requires
            col_num <= 5,
        ensures
            r@.len() == col_num,
            forall|k: int| 0 <= k < col_num ==> (#[trigger] r@[k])@ == join_lines(description_field(self.cols@, k)),
    {
        describe_columns(&self.cols, col_num)
    }
}

/// A stored value. A decimal (`Float`) is held as a key that orders, and tells values apart,
/// as the number does.
#[derive(Debug)]
pub enum Data {
    Str(String),
    Int(i64),
    Float(i64),
    Date(u64),
    Numeric(i64),
}

/// The order of the kinds of values: strings, integers, decimals, dates, numerics.
pub open spec fn rank(d: Data) -> int {
    match d {
        Data::Str(_) => 0,
        Data::Int(_) => 1,
        Data::Float(_) => 2,
        Data::Date(_) => 3,
        Data::Numeric(_) => 4,
    }
}

/// -1, 0 or 1 as `a` is less than, equal to or greater than `b`.
pub open spec fn int_order(a: int, b: int) -> int {
    if a < b {
        -1
    } else if a > b {
        1
    } else {
        0
    }
}

/// Texts compared character by character (by code point), a prefix first.
pub open spec fn chars_order(a: Seq<char>, b: Seq<char>) -> int
    decreases a.len(),
{
    if a.len() == 0 {
        if b.len() == 0 {
            0
        } else {
            -1
        }
    } else if b.len() == 0 {
        1
    } else if a[0] != b[0] {
        int_order(a[0] as int, b[0] as int)
    } else {
        chars_order(a.drop_first(), b.drop_first())
    }
}

/// Values compared: by kind first, then by what they hold.
pub open spec fn data_order(a: Data, b: Data) -> int {
    match (a, b) {
        (Data::Str(x), Data::Str(y)) => chars_order(x@, y@),
        (Data::Int(x), Data::Int(y)) => int_order(x as int, y as int),
        (Data::Float(x), Data::Float(y)) => int_order(x as int, y as int),
        (Data::Date(x), Data::Date(y)) => int_order(x as int, y as int),
        (Data::Numeric(x), Data::Numeric(y)) => int_order(x as int, y as int),
        _ => int_order(rank(a), rank(b)),
    }
}

pub proof fn lemma_chars_order_antisymmetric(a: Seq<char>, b: Seq<char>)
    ensures
        chars_order(a, b) == -chars_order(b, a),
        chars_order(a, b) == 0 <==> a == b,
    decreases a.len(),
{
    if a.len() > 0 && b.len() > 0 {
        if a[0] == b[0] {
            lemma_chars_order_antisymmetric(a.drop_first(), b.drop_first());
            if a.drop_first() == b.drop_first() {
                assert(a =~= seq![a[0]] + a.drop_first());
                assert(b =~= seq![b[0]] + b.drop_first());
            }
            if a == b {
                assert(a.drop_first() =~= b.drop_first());
            }
        } else {
            assert((a[0] as int) != (b[0] as int));
        }
    } else if a.len() == 0 && b.len() == 0 {
        assert(a =~= b);
    }
}

pub proof fn lemma_chars_order_transitive(a: Seq<char>, b: Seq<char>, c: Seq<char>)
    requires
        chars_order(a, b) <= 0,
        chars_order(b, c) <= 0,
    ensures
        chars_order(a, c) <= 0,
        chars_order(a, b) < 0 || chars_order(b, c) < 0 ==> chars_order(a, c) < 0,
    decreases a.len(),
{
    if a.len() > 0 && b.len() > 0 && c.len() > 0 {
        if a[0] == b[0] && b[0] == c[0] {
            lemma_chars_order_transitive(a.drop_first(), b.drop_first(), c.drop_first());
        }
    }
}

pub proof fn lemma_data_order_antisymmetric(a: Data, b: Data)
    ensures
        data_order(a, b) == -data_order(b, a),
        -1 <= data_order(a, b) <= 1,
{
    match (a, b) {
        (Data::Str(x), Data::Str(y)) => {
            lemma_chars_order_antisymmetric(x@, y@);
            lemma_chars_order_range(x@, y@);
        },
        _ => {},
    }
}

pub proof fn lemma_chars_order_range(a: Seq<char>, b: Seq<char>)
    ensures
        -1 <= chars_order(a, b) <= 1,
    decreases a.len(),
{
    if a.len() > 0 && b.len() > 0 && a[0] == b[0] {
        lemma_chars_order_range(a.drop_first(), b.drop_first());
    }
}

pub proof fn lemma_data_order_transitive(a: Data, b: Data, c: Data)
    requires
        data_order(a, b) <= 0,
        data_order(b, c) <= 0,
    ensures
        data_order(a, c) <= 0,
        data_order(a, b) < 0 || data_order(b, c) < 0 ==> data_order(a, c) < 0,
{
    match (a, b, c) {
        (Data::Str(x), Data::Str(y), Data::Str(z)) => {
            lemma_chars_order_transitive(x@, y@, z@);
        },
        _ => {},
    }
}

/// Values that compare equal compare alike with every value.
pub proof fn lemma_data_order_equal(a: Data, b: Data, c: Data)
    requires
        data_order(a, b) == 0,
    ensures
        data_order(a, c) == data_order(b, c),
        data_order(c, a) == data_order(c, b),
{
    lemma_data_order_antisymmetric(a, b);
    lemma_data_order_antisymmetric(a, c);
    lemma_data_order_antisymmetric(b, c);
    if data_order(a, c) <= 0 {
        lemma_data_order_transitive(b, a, c);
    }
    if data_order(a, c) >= 0 {
        lemma_data_order_transitive(c, a, b);
    }
    if data_order(b, c) <= 0 {
        lemma_data_order_transitive(a, b, c);
    }
    if data_order(b, c) >= 0 {
        lemma_data_order_transitive(c, b, a);
    }
}

fn order_i64(a: i64, b: i64) -> (r: i8)
    ensures
        r == int_order(a as int, b as int),
{
    if a < b {
        -1
    } else if a > b {
        1
    } else {
        0
    }
}

fn order_chars(a: &str, b: &str) -> (r: i8)
    ensures
        r == chars_order(a@, b@),
{
    let la = a.unicode_len();
    let lb = b.unicode_len();
    let mut i: usize = 0;
    assert(a@.skip(0) =~= a@);
    assert(b@.skip(0) =~= b@);
    while i < la && i < lb
        invariant
            la == a@.len(),
            lb == b@.len(),
            i <= la,
            i <= lb,
            chars_order(a@, b@) == chars_order(a@.skip(i as int), b@.skip(i as int)),
        decreases la - i,
    {
        let x = a.get_char(i);
        let y = b.get_char(i);
        if x != y {
            return if (x as u32) < (y as u32) {
                -1
            } else {
                1
            };
        }
        assert(a@.skip(i as int).drop_first() =~= a@.skip(i as int + 1));
        assert(b@.skip(i as int).drop_first() =~= b@.skip(i as int + 1));
        i = i + 1;
    }
    if i == la {
        if i == lb {
            0
        } else {
            -1
        }
    } else {
        1
    }
}

impl Data {
    /// A copy of the value.
    pub fn duplicate(&self) -> (r: Data)
        ensures
            r == *self,
    {
        match self {
            Data::Str(s) => Data::Str(s.clone()),
            Data::Int(x) => Data::Int(*x),
            Data::Float(x) => Data::Float(*x),
            Data::Date(x) => Data::Date(*x),
            Data::Numeric(x) => Data::Numeric(*x),
        }
    }

    /// -1, 0 or 1 as this value is less than, equal to or greater than `other`.
    pub fn compare(&self, other: &Data) -> (r: i8)
        ensures
            r == data_order(*self, *other),
    {
        match (self, other) {
            (Data::Str(x), Data::Str(y)) => order_chars(x.as_str(), y.as_str()),
            (Data::Int(x), Data::Int(y)) => order_i64(*x, *y),
            (Data::Float(x), Data::Float(y)) => order_i64(*x, *y),
            (Data::Date(x), Data::Date(y)) => {
                if *x < *y {
                    -1
                } else if *x > *y {
                    1
                } else {
                    0
                }
            },
            (Data::Numeric(x), Data::Numeric(y)) => order_i64(*x, *y),
            _ => {
                let (p, q) = (self.rank_of(), other.rank_of());
                if p < q {
                    -1
                } else if p > q {
                    1
                } else {
                    0
                }
            },
        }
    }

    fn rank_of(&self) -> (r: u8)
        ensures
            r == rank(*self),
    {
        match self {
            Data::Str(_) => 0,
            Data::Int(_) => 1,
            Data::Float(_) => 2,
            Data::Date(_) => 3,
            Data::Numeric(_) => 4,
        }
    }
}


/// A value of a record, in the column at `index`; `None` for NULL.
#[derive(Debug)]
pub struct ColumnData {
    pub index: u32,
    pub default: bool,
    pub data: Option<Data>,
}

/// Two optional values are both NULL or both values that compare equal.
pub open spec fn same_data(a: Option<Data>, b: Option<Data>) -> bool {
    match (a, b) {
        (None, None) => true,
        (Some(x), Some(y)) => data_order(x, y) == 0,
        _ => false,
    }
}

impl ColumnData {
    /// Whether two column values are equal: the same column and equal values (whether they
    /// come from defaults is not compared).
    pub fn same(&self, other: &ColumnData) -> (r: bool)
        ensures
            r == (self.index == other.index && same_data(self.data, other.data)),
    {
        self.index == other.index && match (&self.data, &other.data) {
            (None, None) => true,
            (Some(x), Some(y)) => x.compare(y) == 0,
            _ => false,
        }
    }

    /// A copy of the column value.
    pub fn duplicate(&self) -> (r: ColumnData)
        ensures
            r == *self,
    {
        let data = match &self.data {
            Some(d) => Some(d.duplicate()),
            None => None,
        };
        ColumnData { index: self.index, default: self.default, data }
    }
}

/// A row of a table.
#[derive(Debug)]
pub struct Record {
    pub cols: Vec<ColumnData>,
}

/// `i` is the first column of `ty` that the statement's column `col` names.
pub open spec fn first_match(ty: Seq<ColumnType>, col: ast::Column, i: int) -> bool {
    &&& 0 <= i < ty.len()
    &&& column_matches(ty[i], col)
    &&& forall|j: int| 0 <= j < i ==> !column_matches(#[trigger] ty[j], col)
}

impl Record {
    /// A copy of the record.
    pub fn duplicate(&self) -> (r: Record)
        ensures
            r.cols@ == self.cols@,
    {
        let mut cols: Vec<ColumnData> = Vec::new();
        let mut k: usize = 0;
        while k < self.cols.len()
            invariant
                k <= self.cols@.len(),
                cols@ == self.cols@.take(k as int),
            decreases self.cols@.len() - k,
        {
            cols.push(self.cols[k].duplicate());
            k = k + 1;
            assert(cols@ =~= self.cols@.take(k as int));
        }
        assert(cols@ =~= self.cols@);
        Record { cols }
    }

    /// The record of the columns at `sub_cols`, in that order.
    pub fn sub_record(&self, sub_cols: &Vec<usize>) -> (r: Record)
        requires
            forall|k: int| 0 <= k < sub_cols@.len() ==> (#[trigger] sub_cols@[k]) < self.cols@.len(),
        ensures
            r.cols@.len() == sub_cols@.len(),
            forall|k: int| 0 <= k < sub_cols@.len() ==> (#[trigger] r.cols@[k]) == self.cols@[sub_cols@[k] as int],
    {
        let mut cols: Vec<ColumnData> = Vec::new();
        let mut k: usize = 0;
        while k < sub_cols.len()
            invariant
                k <= sub_cols@.len(),
                forall|j: int| 0 <= j < sub_cols@.len() ==> (#[trigger] sub_cols@[j]) < self.cols@.len(),
                cols@.len() == k,
                forall|j: int| 0 <= j < k ==> (#[trigger] cols@[j]) == self.cols@[sub_cols@[j] as int],
            decreases sub_cols@.len() - k,
        {
            cols.push(self.cols[sub_cols[k]].duplicate());
            k = k + 1;
        }
        Record { cols }
    }

    /// The value of the first column of `ty` that `col` names; `None` when none does.
    pub fn get_match_data(&self, col: &ast::Column, ty: &Vec<ColumnType>) -> (r: Option<Data>)
        requires
            forall|i: int| #[trigger] first_match(ty@, *col, i) ==> i < self.cols@.len(),
        ensures
            (exists|i: int| first_match(ty@, *col, i) && r == self.cols@[i].data) || (
            (forall|i: int| 0 <= i < ty@.len() ==> !column_matches(#[trigger] ty@[i], *col)) && r is None),
    {
        let mut i: usize = 0;
        while i < ty.len()
            invariant
                i <= ty@.len(),
                forall|k: int| #[trigger] first_match(ty@, *col, k) ==> k < self.cols@.len(),
                forall|j: int| 0 <= j < i ==> !column_matches(#[trigger] ty@[j], *col),
            decreases ty@.len() - i,
        {
            if ty[i].match_(col) {
                assert(first_match(ty@, *col, i as int));
                return match &self.cols[i].data {
                    Some(d) => Some(d.duplicate()),
                    None => None,
                };
            }
            i = i + 1;
        }
        None
    }
}


impl ColumnType {
    /// A copy of the column.
    pub fn duplicate(&self) -> (r: ColumnType)
        ensures
            same_column(r, *self),
            r == *self,
    {
        let data_type = match &self.data_type {
            Type::Str(Some(x)) => Type::Str(Some(x.clone())),
            Type::Str(None) => Type::Str(None),
            Type::Int(x) => Type::Int(*x),
            Type::Float(Some(x)) => Type::Float(Some(x.clone())),
            Type::Float(None) => Type::Float(None),
            Type::Date(x) => Type::Date(*x),
            Type::Numeric(x) => Type::Numeric(*x),
        };
        ColumnType {
            tb_name: self.tb_name.clone(),
            name: self.name.clone(),
            index: self.index,
            data_type,
            numeric_precision: self.numeric_precision,
            can_be_null: self.can_be_null,
            has_index: self.has_index,
            has_default: self.has_default,
            is_primary: self.is_primary,
            is_foreign: self.is_foreign,
            default_null: self.default_null,
            foreign_table_name: self.foreign_table_name.clone(),
            foreign_table_column: self.foreign_table_column.clone(),
        }
    }
}

/// Rows with their column types.
pub struct RecordList {
    pub ty: Vec<ColumnType>,
    pub record: Vec<Record>,
}

impl RecordList {
    /// The list of the columns at `sub_cols`, in that order, of every row.
    pub fn sub_record_list(&self, sub_cols: &Vec<usize>) -> (r: RecordList)
        requires
            forall|k: int| 0 <= k < sub_cols@.len() ==> (#[trigger] sub_cols@[k]) < self.ty@.len(),
            forall|n: int, k: int|
                0 <= n < self.record@.len() && 0 <= k < sub_cols@.len() ==> (#[trigger] sub_cols@[k])
                    < (#[trigger] self.record@[n]).cols@.len(),
        ensures
            r.ty@.len() == sub_cols@.len(),
            forall|k: int|
                0 <= k < sub_cols@.len() ==> same_column(#[trigger] r.ty@[k], self.ty@[sub_cols@[k] as int]),
            r.record@.len() == self.record@.len(),
            forall|n: int|
                0 <= n < self.record@.len() ==> (#[trigger] r.record@[n]).cols@.len() == sub_cols@.len(),
            forall|n: int, k: int|
                0 <= n < self.record@.len() && 0 <= k < sub_cols@.len() ==> #[trigger] r.record@[n].cols@[k]
                    == self.record@[n].cols@[sub_cols@[k] as int],
    {
        let mut ty: Vec<ColumnType> = Vec::new();
        let mut k: usize = 0;
        while k < sub_cols.len()
            invariant
                k <= sub_cols@.len(),
                forall|j: int| 0 <= j < sub_cols@.len() ==> (#[trigger] sub_cols@[j]) < self.ty@.len(),
                ty@.len() == k,
                forall|j: int| 0 <= j < k ==> same_column(#[trigger] ty@[j], self.ty@[sub_cols@[j] as int]),
            decreases sub_cols@.len() - k,
        {
            ty.push(self.ty[sub_cols[k]].duplicate());
            k = k + 1;
        }
        let mut record: Vec<Record> = Vec::new();
        let mut n: usize = 0;
        while n < self.record.len()
            invariant
                n <= self.record@.len(),
                forall|m: int, k: int|
                    0 <= m < self.record@.len() && 0 <= k < sub_cols@.len() ==> (#[trigger] sub_cols@[k])
                        < (#[trigger] self.record@[m]).cols@.len(),
                record@.len() == n,
                forall|m: int| 0 <= m < n ==> (#[trigger] record@[m]).cols@.len() == sub_cols@.len(),
                forall|m: int, k: int|
                    0 <= m < n && 0 <= k < sub_cols@.len() ==> #[trigger] record@[m].cols@[k]
                        == self.record@[m].cols@[sub_cols@[k] as int],
            decreases self.record@.len() - n,
        {
            let row = &self.record[n];
            assert(forall|k: int| 0 <= k < sub_cols@.len() ==> (#[trigger] sub_cols@[k]) < row.cols@.len());
            record.push(row.sub_record(sub_cols));
            n = n + 1;
        }
        RecordList { ty, record }
    }
}

} // verus!
