use rua::parser::ast::{Column, Op};
use rua::rm::record::Data;
use rua::sm::query_tree::{Range, RangeCondition};

fn num(x: i64) -> Data {
    Data::Int(x)
}

fn range(min: Option<i64>, min_equal: bool, max: Option<i64>, max_equal: bool, not_equal: Vec<i64>) -> Range {
    Range {
        min: min.map(Data::Int),
        min_equal,
        max: max.map(Data::Int),
        max_equal,
        not_equal: not_equal.into_iter().map(Data::Int).collect(),
    }
}

fn ints(r: &[Data]) -> Vec<i64> {
    r.iter()
        .map(|d| match d {
            Data::Int(x) => *x,
            _ => panic!("not an integer"),
        })
        .collect()
}

#[test]
fn value_order() {
    assert_eq!(Data::Str("a".to_string()).compare(&Data::Str("b".to_string())), -1);
    assert_eq!(Data::Str("ab".to_string()).compare(&Data::Str("a".to_string())), 1);
    assert_eq!(Data::Str("é".to_string()).compare(&Data::Str("z".to_string())), 1);
    assert_eq!(Data::Str("same".to_string()).compare(&Data::Str("same".to_string())), 0);
    assert_eq!(Data::Str("z".to_string()).compare(&num(0)), -1);
    assert_eq!(num(-1).compare(&num(2)), -1);
    assert_eq!(num(7).compare(&num(7)), 0);
    assert_eq!(Data::Float(3).compare(&num(100)), 1);
    assert_eq!(Data::Date(5).compare(&Data::Date(4)), 1);
    assert_eq!(Data::Numeric(1).compare(&Data::Date(9)), 1);
}

#[test]
fn everything_in_new_range() {
    let r = Range::new();
    assert!(r.contains(&num(i64::MIN)));
    assert!(r.contains(&Data::Str(String::new())));
    assert!(!r.is_single());
}

#[test]
fn range_intersection() {
    let a = range(Some(1), true, Some(5), false, vec![3, 20]);
    let b = range(Some(2), false, Some(10), true, vec![3, 4]);
    let c = a.intersection(&b);
    assert!(matches!(c.min, Some(Data::Int(2))));
    assert!(!c.min_equal);
    assert!(matches!(c.max, Some(Data::Int(5))));
    assert!(!c.max_equal);
    assert_eq!(ints(&c.not_equal), vec![3, 4]);
    for x in -2..25 {
        assert_eq!(c.contains(&num(x)), a.contains(&num(x)) && b.contains(&num(x)), "value {}", x);
    }
    // equal bounds: inclusive only where both are
    let d = range(Some(1), true, None, false, vec![]).intersection(&range(Some(1), false, None, false, vec![]));
    assert!(!d.min_equal);
    assert!(!d.contains(&num(1)));
    assert!(d.contains(&num(2)));
}

#[test]
fn single_values() {
    assert!(range(Some(4), true, Some(4), true, vec![]).is_single());
    assert!(!range(Some(4), true, Some(4), false, vec![]).is_single());
    assert!(!range(Some(4), true, Some(5), true, vec![]).is_single());
    assert!(!range(None, true, Some(4), true, vec![]).is_single());
}

fn condition() -> RangeCondition {
    RangeCondition { col: Column { tb_name: None, col_name: "a".to_string() }, range: Range::new() }
}

#[test]
fn narrowing() {
    let mut c = condition();
    c.update(&Op::GreaterEqual, Some(num(2)));
    c.update(&Op::Less, Some(num(8)));
    c.update(&Op::NotEqual, Some(num(5)));
    c.update(&Op::NotEqual, Some(num(100)));
    assert_eq!(ints(&c.range.not_equal), vec![5]);
    let kept: Vec<i64> = (0..12).filter(|x| c.contains(&num(*x))).collect();
    assert_eq!(kept, vec![2, 3, 4, 6, 7]);
    c.update(&Op::Equal, Some(num(3)));
    assert!(c.is_single());
    assert!(c.contains(&num(3)));
    assert!(!c.contains(&num(4)));
    let mut g = condition();
    g.update(&Op::Greater, Some(num(1)));
    g.update(&Op::LessEqual, Some(num(3)));
    let kept: Vec<i64> = (0..6).filter(|x| g.contains(&num(*x))).collect();
    assert_eq!(kept, vec![2, 3]);
    // a condition no value meets
    g.update(&Op::Equal, Some(num(9)));
    assert!((0..12).all(|x| !g.contains(&num(x))));
}
