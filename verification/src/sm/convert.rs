//! Numbers and texts for the values of statements.
use vstd::prelude::*;
use crate::parser::ast::Value;
use crate::rm::record::ColumnType;
use crate::rm::record::description_field;
use crate::rm::record::join_lines;
use crate::rm::record::primary_indexes;
use crate::rm::record::Data;
use crate::utils::text::parse_i64;
use crate::utils::text::parse_i64_dec;

verus! {

pub const TYPE_INT: i32 = 1;

pub const TYPE_VARCHAR: i32 = 2;

pub const TYPE_FLOAT: i32 = 3;

pub const TYPE_DATE: i32 = 4;

pub const VALUE_INT: i32 = 1;

pub const VALUE_STR: i32 = 2;

pub const VALUE_FLOAT: i32 = 3;

pub const VALUE_DATE: i32 = 4;

pub const VALUE_NULL: i32 = 5;

/// The number of a value's kind.
pub open spec fn value_kind(value: Value) -> i32 {
    match value {
        Value::Int(_) => VALUE_INT,
        Value::Str(_) => VALUE_STR,
        Value::Float(_) => VALUE_FLOAT,
        Value::Date(_) => VALUE_DATE,
        Value::Null => VALUE_NULL,
    }
}

pub fn value2int(value: &Value) -> (r: i32)
    ensures
        r == value_kind(*value),
{
    match value {
        Value::Int(_) => VALUE_INT,
        Value::Str(_) => VALUE_STR,
        Value::Float(_) => VALUE_FLOAT,
        Value::Date(_) => VALUE_DATE,
        Value::Null => VALUE_NULL,
    }
}

/// The date of any text: every date reads as the same instant, `1575185880` (seconds since
/// the epoch).
pub fn str2date(s: &str) -> (r: u64)
    ensures
        r == 1575185880,
{
    1575185880u64
}

/// The value a literal stands for: an integer read as decimal digits, a text as itself, any
/// date as the one moment that every date is read as, NULL as no value.
pub open spec fn value_data(v: Value) -> Option<Data> {
    match v {
        Value::Int(s) => Some(Data::Int(parse_i64_dec(vstd::utf8::encode_utf8(s@)).unwrap())),
        Value::Str(s) => Some(Data::Str(s)),
        Value::Date(_) => Some(Data::Date(1575185880)),
        _ => None,
    }
}

/// Whether `value2data` can read the literal: an integer that fits in `i64`; not a decimal,
/// which is read as a floating-point number.
pub open spec fn value_readable(v: Value) -> bool {
    match v {
        Value::Int(s) => parse_i64_dec(vstd::utf8::encode_utf8(s@)) is Some,
        Value::Float(_) => false,
        _ => true,
    }
}

/// The stored value of a literal.
pub fn value2data(v: &Value) -> (r: Option<Data>)
    requires
        value_readable(*v),
    ensures
        r == value_data(*v),
{
    match v {
        Value::Int(s) => {
            let b = s.as_str().as_bytes();
            match parse_i64(b) {
                Some(x) => Some(Data::Int(x)),
                None => None,
            }
        },
        Value::Str(s) => Some(Data::Str(s.clone())),
        Value::Date(s) => Some(Data::Date(str2date(s.as_str()))),
        Value::Float(_) => None,
        Value::Null => None,
    }
}

/// The stored type of a column declared with `ty` and the default `dv`.
pub fn datatype_from_type(ty: &crate::parser::ast::Type, dv: &Option<Value>) -> (r: crate::rm::record::Type)
    requires
        crate::rm::record::default_readable(*ty, *dv),
    ensures
        r == crate::rm::record::field_type(*ty, *dv),
{
    crate::rm::record::Type::from_type(ty, dv)
}

/// The text of any date: every date is written as the same text.
pub fn date2str(date: u64) -> (r: String)
    ensures
        r@ == "2019.12.01 15:38:00"@,
{
    let r = String::from_str("2019.12.01 15:38:00");
    r
}

/// The primary-key columns, in order.
pub open spec fn primary_columns(cts: Seq<ColumnType>) -> Seq<ColumnType>
    decreases cts.len(),
{
    if cts.len() == 0 {
        Seq::empty()
    } else if cts.last().is_primary {
        primary_columns(cts.drop_last()).push(cts.last())
    } else {
        primary_columns(cts.drop_last())
    }
}

pub fn primary_column_types_from_column_types(cts: &Vec<ColumnType>) -> (r: Vec<&ColumnType>)
    ensures
        r@.map_values(|c: &ColumnType| *c) == primary_columns(cts@),
{
    let mut r: Vec<&ColumnType> = Vec::new();
    let mut i: usize = 0;
    while i < cts.len()
        invariant
            i <= cts@.len(),
            r@.map_values(|c: &ColumnType| *c) == primary_columns(cts@.take(i as int)),
        decreases cts@.len() - i,
    {
        assert(cts@.take(i as int + 1).drop_last() =~= cts@.take(i as int));
        let ghost before = r@.map_values(|c: &ColumnType| *c);
        if cts[i].is_primary {
            r.push(&cts[i]);
            assert(r@.map_values(|c: &ColumnType| *c) =~= before.push(cts@[i as int]));
        }
        i = i + 1;
    }
    assert(cts@.take(cts@.len() as int) =~= cts@);
    r
}

pub fn primary_index_from_column_types(cts: &Vec<ColumnType>) -> (r: Vec<u32>)
    ensures
        r@ == primary_indexes(cts@),
{
    crate::rm::record::primary_index_of(cts)
}

/// A table's description, field by field (name, type, null, key, default): each field's
/// values over the columns joined by line breaks.
pub fn print_from_column_types(cts: &Vec<ColumnType>) -> (r: Vec<String>)
    ensures
        r@.len() == 5,
        forall|k: int| 0 <= k < 5 ==> (#[trigger] r@[k])@ == join_lines(description_field(cts@, k)),
{
    crate::rm::record::describe_columns(cts, 5)
}


impl Data {
    /// The stored value of a literal; `None` for NULL.
    pub fn from_value(value: &Value) -> (r: Option<Data>)
        requires
            value_readable(*value),
        ensures
            r == value_data(*value),
    {
        value2data(value)
    }
}

/// The row of the literals `vs`: the `i`-th column at place `i`, not from a default, holding
/// the value of the `i`-th literal.
pub open spec fn row_of(vs: Seq<Value>) -> Seq<crate::rm::record::ColumnData> {
    Seq::new(vs.len(), |i: int| crate::rm::record::ColumnData { index: i as u32, default: false, data: value_data(vs[i]) })
}

impl crate::rm::record::Record {
    /// The record of a row of literals.
    pub fn from_value_lists(value_lists: &Vec<Value>) -> (r: crate::rm::record::Record)
        requires
            value_lists@.len() <= u32::MAX,
            forall|i: int| 0 <= i < value_lists@.len() ==> value_readable(#[trigger] value_lists@[i]),
        ensures
            r.cols@ == row_of(value_lists@),
    {
        let mut cols: Vec<crate::rm::record::ColumnData> = Vec::new();
        let mut i: usize = 0;
        while i < value_lists.len()
            invariant
                i <= value_lists@.len() <= u32::MAX,
                forall|j: int| 0 <= j < value_lists@.len() ==> value_readable(#[trigger] value_lists@[j]),
                cols@ == row_of(value_lists@).take(i as int),
            decreases value_lists@.len() - i,
        {
            let d = value2data(&value_lists[i]);
            cols.push(crate::rm::record::ColumnData { index: i as u32, default: false, data: d });
            i = i + 1;
            assert(cols@ =~= row_of(value_lists@).take(i as int));
        }
        assert(cols@ =~= row_of(value_lists@));
        crate::rm::record::Record { cols }
    }
}
} // verus!
