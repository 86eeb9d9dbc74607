//! The conditions of a query on single columns, kept as ranges of values.
use vstd::prelude::*;
use crate::parser::ast;
use crate::rm::record::Data;
use crate::rm::record::data_order;
use crate::rm::record::lemma_data_order_antisymmetric;
use crate::rm::record::lemma_data_order_transitive;
use crate::rm::record::lemma_data_order_equal;

verus! {

/// The values a column may take: those between the bounds (each one inclusive or not, and
/// absent for no bound) but for the values listed as left out.
pub struct Range {
    pub min: Option<Data>,
    pub min_equal: bool,
    pub max: Option<Data>,
    pub max_equal: bool,
    pub not_equal: Vec<Data>,
}

/// A range as a value.
pub struct RangeView {
    pub min: Option<Data>,
    pub min_equal: bool,
    pub max: Option<Data>,
    pub max_equal: bool,
    pub not_equal: Seq<Data>,
}

impl View for Range {
    type V = RangeView;

    open spec fn view(&self) -> RangeView {
        RangeView {
            min: self.min,
            min_equal: self.min_equal,
            max: self.max,
            max_equal: self.max_equal,
            not_equal: self.not_equal@,
        }
    }
}

/// `d` is not below the lower bound.
pub open spec fn above_min(r: RangeView, d: Data) -> bool {
    match r.min {
        None => true,
        Some(m) => if r.min_equal {
            data_order(d, m) >= 0
        } else {
            data_order(d, m) > 0
        },
    }
}

/// `d` is not above the upper bound.
pub open spec fn below_max(r: RangeView, d: Data) -> bool {
    match r.max {
        None => true,
        Some(m) => if r.max_equal {
            data_order(d, m) <= 0
        } else {
            data_order(d, m) < 0
        },
    }
}

pub open spec fn in_bounds(r: RangeView, d: Data) -> bool {
    above_min(r, d) && below_max(r, d)
}

/// Some value of `ne` equals `d`.
pub open spec fn excluded(ne: Seq<Data>, d: Data) -> bool {
    exists|i: int| 0 <= i < ne.len() && data_order(d, #[trigger] ne[i]) == 0
}

/// `d` is in the range.
pub open spec fn in_range(r: RangeView, d: Data) -> bool {
    in_bounds(r, d) && !excluded(r.not_equal, d)
}

/// The greater lower bound of two ranges (the stricter one where they are equal).
pub open spec fn meet_min(a: RangeView, b: RangeView) -> (Option<Data>, bool) {
    match (a.min, b.min) {
        (None, _) => (b.min, b.min_equal),
        (_, None) => (a.min, a.min_equal),
        (Some(x), Some(y)) => if data_order(x, y) > 0 {
            (a.min, a.min_equal)
        } else if data_order(x, y) < 0 {
            (b.min, b.min_equal)
        } else {
            (a.min, a.min_equal && b.min_equal)
        },
    }
}

/// The lesser upper bound of two ranges (the stricter one where they are equal).
pub open spec fn meet_max(a: RangeView, b: RangeView) -> (Option<Data>, bool) {
    match (a.max, b.max) {
        (None, _) => (b.max, b.max_equal),
        (_, None) => (a.max, a.max_equal),
        (Some(x), Some(y)) => if data_order(x, y) < 0 {
            (a.max, a.max_equal)
        } else if data_order(x, y) > 0 {
            (b.max, b.max_equal)
        } else {
            (a.max, a.max_equal && b.max_equal)
        },
    }
}

/// The bounds of both ranges, with nothing left out.
pub open spec fn meet_bounds(a: RangeView, b: RangeView) -> RangeView {
    RangeView {
        min: meet_min(a, b).0,
        min_equal: meet_min(a, b).1,
        max: meet_max(a, b).0,
        max_equal: meet_max(a, b).1,
        not_equal: Seq::empty(),
    }
}

/// The values of `items` kept as left out of a range with bounds `bnd`: in order, those within
/// the bounds and not equal to one kept before.
pub open spec fn kept(bnd: RangeView, items: Seq<Data>) -> Seq<Data>
    decreases items.len(),
{
    if items.len() == 0 {
        Seq::empty()
    } else {
        let k = kept(bnd, items.drop_last());
        let d = items.last();
        if in_bounds(bnd, d) && !excluded(k, d) {
            k.push(d)
        } else {
            k
        }
    }
}

/// The range of the values in both ranges, as `Range::intersection` builds it.
pub open spec fn intersect(a: RangeView, b: RangeView) -> RangeView {
    let bnd = meet_bounds(a, b);
    RangeView {
        min: bnd.min,
        min_equal: bnd.min_equal,
        max: bnd.max,
        max_equal: bnd.max_equal,
        not_equal: kept(bnd, a.not_equal + b.not_equal),
    }
}

/// Values that compare equal are in the same bounds.
proof fn lemma_in_bounds_equal(r: RangeView, d: Data, e: Data)
    requires
        data_order(d, e) == 0,
    ensures
        in_bounds(r, d) == in_bounds(r, e),
{
    if let Some(m) = r.min {
        lemma_data_order_equal(d, e, m);
    }
    if let Some(m) = r.max {
        lemma_data_order_equal(d, e, m);
    }
}

/// Within the bounds, a value is left out of the kept values exactly when it is left out of
/// all of them.
proof fn lemma_kept_excludes(bnd: RangeView, items: Seq<Data>, d: Data)
    requires
        in_bounds(bnd, d),
    ensures
        excluded(kept(bnd, items), d) == excluded(items, d),
    decreases items.len(),
{
    if items.len() > 0 {
        let rest = items.drop_last();
        let k = kept(bnd, rest);
        let x = items.last();
        lemma_kept_excludes(bnd, rest, d);
        assert(excluded(items, d) == (excluded(rest, d) || data_order(d, x) == 0)) by {
            if excluded(items, d) {
                let i = choose|i: int| 0 <= i < items.len() && data_order(d, #[trigger] items[i]) == 0;
                if i < items.len() - 1 {
                    assert(rest[i] == items[i]);
                }
            }
            if excluded(rest, d) {
                let i = choose|i: int| 0 <= i < rest.len() && data_order(d, #[trigger] rest[i]) == 0;
                assert(items[i] == rest[i]);
            }
            if data_order(d, x) == 0 {
                assert(items[items.len() - 1] == x);
            }
        }
        if in_bounds(bnd, x) && !excluded(k, x) {
            let k2 = k.push(x);
            assert(excluded(k2, d) == (excluded(k, d) || data_order(d, x) == 0)) by {
                if excluded(k2, d) {
                    let i = choose|i: int| 0 <= i < k2.len() && data_order(d, #[trigger] k2[i]) == 0;
                    if i < k.len() {
                        assert(k[i] == k2[i]);
                    }
                }
                if excluded(k, d) {
                    let i = choose|i: int| 0 <= i < k.len() && data_order(d, #[trigger] k[i]) == 0;
                    assert(k2[i] == k[i]);
                }
                if data_order(d, x) == 0 {
                    assert(k2[k.len() as int] == x);
                }
            }
        } else if data_order(d, x) == 0 {
            if !in_bounds(bnd, x) {
                lemma_in_bounds_equal(bnd, d, x);
            } else {
                let i = choose|i: int| 0 <= i < k.len() && data_order(x, #[trigger] k[i]) == 0;
                lemma_data_order_equal(d, x, k[i]);
                lemma_data_order_antisymmetric(x, d);
                lemma_data_order_equal(x, d, k[i]);
                assert(data_order(d, k[i]) == 0);
            }
        }
    }
}

/// A value equal to no value of `a + b` equals none of `a` and none of `b`.
proof fn lemma_excluded_concat(a: Seq<Data>, b: Seq<Data>, d: Data)
    ensures
        excluded(a + b, d) == (excluded(a, d) || excluded(b, d)),
{
    if excluded(a + b, d) {
        let i = choose|i: int| 0 <= i < (a + b).len() && data_order(d, #[trigger] (a + b)[i]) == 0;
        if i < a.len() {
            assert((a + b)[i] == a[i]);
        } else {
            assert((a + b)[i] == b[i - a.len()]);
        }
    }
    if excluded(a, d) {
        let i = choose|i: int| 0 <= i < a.len() && data_order(d, #[trigger] a[i]) == 0;
        assert((a + b)[i] == a[i]);
    }
    if excluded(b, d) {
        let i = choose|i: int| 0 <= i < b.len() && data_order(d, #[trigger] b[i]) == 0;
        assert((a + b)[i + a.len()] == b[i]);
    }
}

/// The met bounds hold a value exactly when the bounds of both ranges do.
proof fn lemma_meet_bounds(a: RangeView, b: RangeView, d: Data)
    ensures
        in_bounds(meet_bounds(a, b), d) == (in_bounds(a, d) && in_bounds(b, d)),
{
    match (a.min, b.min) {
        (Some(x), Some(y)) => {
            lemma_data_order_antisymmetric(x, y);
            lemma_data_order_antisymmetric(d, x);
            lemma_data_order_antisymmetric(d, y);
            if data_order(x, y) > 0 {
                if data_order(d, x) >= 0 {
                    lemma_data_order_transitive(y, x, d);
                }
            } else if data_order(x, y) < 0 {
                if data_order(d, y) >= 0 {
                    lemma_data_order_transitive(x, y, d);
                }
            } else {
                lemma_data_order_equal(x, y, d);
            }
        },
        _ => {},
    }
    match (a.max, b.max) {
        (Some(x), Some(y)) => {
            lemma_data_order_antisymmetric(x, y);
            lemma_data_order_antisymmetric(d, x);
            lemma_data_order_antisymmetric(d, y);
            if data_order(x, y) < 0 {
                if data_order(d, x) <= 0 {
                    lemma_data_order_transitive(d, x, y);
                }
            } else if data_order(x, y) > 0 {
                if data_order(d, y) <= 0 {
                    lemma_data_order_transitive(d, y, x);
                }
            } else {
                lemma_data_order_equal(x, y, d);
            }
        },
        _ => {},
    }
}

/// A value is in the intersection of two ranges exactly when it is in both.
pub proof fn lemma_intersect_contains(a: RangeView, b: RangeView, d: Data)
    ensures
        in_range(intersect(a, b), d) == (in_range(a, d) && in_range(b, d)),
{
    let bnd = meet_bounds(a, b);
    lemma_meet_bounds(a, b, d);
    lemma_excluded_concat(a.not_equal, b.not_equal, d);
    if in_bounds(bnd, d) {
        lemma_kept_excludes(bnd, a.not_equal + b.not_equal, d);
    }
}

/// A range whose bounds are one value, both inclusive, holds that value only (and values equal
/// to it).
pub proof fn lemma_single_range(r: RangeView, x: Data)
    requires
        r.min is Some && r.max is Some && data_order(r.min.unwrap(), r.max.unwrap()) == 0,
        r.min_equal && r.max_equal,
        in_range(r, x),
    ensures
        data_order(x, r.min.unwrap()) == 0,
{
    let m = r.min.unwrap();
    lemma_data_order_equal(m, r.max.unwrap(), x);
    lemma_data_order_antisymmetric(x, m);
    lemma_data_order_antisymmetric(x, r.max.unwrap());
}

fn dup_opt(o: &Option<Data>) -> (r: Option<Data>)
    ensures
        r == *o,
{
    match o {
        Some(d) => Some(d.duplicate()),
        None => None,
    }
}

impl Range {
    /// The range of all values.
    pub fn new() -> (r: Self)
        ensures
            r@.min is None,
            r@.max is None,
            !r@.min_equal,
            !r@.max_equal,
            r@.not_equal == Seq::<Data>::empty(),
    {
        Range { min: None, min_equal: false, max: None, max_equal: false, not_equal: Vec::new() }
    }

    /// Whether the range holds one value only: its bounds are equal and both inclusive.
    pub fn is_single(&self) -> (r: bool)
        ensures
            r == (self.min is Some && self.max is Some && data_order(self.min.unwrap(), self.max.unwrap())
                == 0 && self.min_equal && self.max_equal),
    {
        match (&self.min, &self.max) {
            (Some(x), Some(y)) => x.compare(y) == 0 && self.min_equal && self.max_equal,
            _ => false,
        }
    }

    fn within_bounds(&self, data: &Data) -> (r: bool)
        ensures
            r == in_bounds(self@, *data),
    {
        let lo = match &self.min {
            None => true,
            Some(m) => {
                let c = data.compare(m);
                if self.min_equal {
                    c >= 0
                } else {
                    c > 0
                }
            },
        };
        let hi = match &self.max {
            None => true,
            Some(m) => {
                let c = data.compare(m);
                if self.max_equal {
                    c <= 0
                } else {
                    c < 0
                }
            },
        };
        lo && hi
    }

    pub fn contains(&self, data: &Data) -> (r: bool)
        ensures
            r == in_range(self@, *data),
    {
        if !self.within_bounds(data) {
            return false;
        }
        let mut i: usize = 0;
        while i < self.not_equal.len()
            invariant
                i <= self.not_equal@.len(),
                forall|j: int| 0 <= j < i ==> data_order(*data, #[trigger] self.not_equal@[j]) != 0,
            decreases self.not_equal@.len() - i,
        {
            if data.compare(&self.not_equal[i]) == 0 {
                return false;
            }
            i = i + 1;
        }
        true
    }

    /// The range of the values in both ranges. Its bounds are the stricter ones; it leaves out
    /// the values that either leaves out and that lie within those bounds, each once.
    pub fn intersection(&self, other: &Range) -> (r: Range)
        ensures
            r@ == intersect(self@, other@),
    {
        let ghost bnd = meet_bounds(self@, other@);
        let (min, min_equal) = match (&self.min, &other.min) {
            (None, _) => (dup_opt(&other.min), other.min_equal),
            (_, None) => (dup_opt(&self.min), self.min_equal),
            (Some(x), Some(y)) => {
                let c = x.compare(y);
                if c > 0 {
                    (dup_opt(&self.min), self.min_equal)
                } else if c < 0 {
                    (dup_opt(&other.min), other.min_equal)
                } else {
                    (dup_opt(&self.min), self.min_equal && other.min_equal)
                }
            },
        };
        let (max, max_equal) = match (&self.max, &other.max) {
            (None, _) => (dup_opt(&other.max), other.max_equal),
            (_, None) => (dup_opt(&self.max), self.max_equal),
            (Some(x), Some(y)) => {
                let c = x.compare(y);
                if c < 0 {
                    (dup_opt(&self.max), self.max_equal)
                } else if c > 0 {
                    (dup_opt(&other.max), other.max_equal)
                } else {
                    (dup_opt(&self.max), self.max_equal && other.max_equal)
                }
            },
        };
        let mut range = Range { min, min_equal, max, max_equal, not_equal: Vec::new() };
        assert(range@.min == bnd.min && range@.max == bnd.max);
        let ghost items = self.not_equal@ + other.not_equal@;
        let mut i: usize = 0;
        assert(items.take(0) =~= Seq::<Data>::empty());
        while i < self.not_equal.len()
            invariant
                i <= self.not_equal@.len(),
                items == self.not_equal@ + other.not_equal@,
                range.min == bnd.min,
                range.min_equal == bnd.min_equal,
                range.max == bnd.max,
                range.max_equal == bnd.max_equal,
                range.not_equal@ == kept(bnd, items.take(i as int)),
            decreases self.not_equal@.len() - i,
        {
            assert(items.take(i as int + 1).drop_last() =~= items.take(i as int));
            assert(items.take(i as int + 1).last() == self.not_equal@[i as int]);
            if range.contains(&self.not_equal[i]) {
                range.not_equal.push(self.not_equal[i].duplicate());
            }
            i = i + 1;
        }
        let mut j: usize = 0;
        while j < other.not_equal.len()
            invariant
                j <= other.not_equal@.len(),
                items == self.not_equal@ + other.not_equal@,
                range.min == bnd.min,
                range.min_equal == bnd.min_equal,
                range.max == bnd.max,
                range.max_equal == bnd.max_equal,
                range.not_equal@ == kept(bnd, items.take(self.not_equal@.len() + j)),
            decreases other.not_equal@.len() - j,
        {
            let ghost n = self.not_equal@.len() + j;
            assert(items.take(n + 1).drop_last() =~= items.take(n));
            assert(items.take(n + 1).last() == other.not_equal@[j as int]);
            if range.contains(&other.not_equal[j]) {
                range.not_equal.push(other.not_equal[j].duplicate());
            }
            j = j + 1;
        }
        assert(items.take(items.len() as int) =~= items);
        range
    }
}

/// A range condition on one column.
pub struct RangeCondition {
    pub col: ast::Column,
    pub range: Range,
}

/// The range of the values in relation `op` to `d`, for the orders.
pub open spec fn op_range(op: ast::Op, d: Data) -> RangeView {
    match op {
        ast::Op::Equal => RangeView {
            min: Some(d),
            min_equal: true,
            max: Some(d),
            max_equal: true,
            not_equal: Seq::empty(),
        },
        ast::Op::LessEqual => RangeView {
            min: None,
            min_equal: false,
            max: Some(d),
            max_equal: true,
            not_equal: Seq::empty(),
        },
        ast::Op::GreaterEqual => RangeView {
            min: Some(d),
            min_equal: true,
            max: None,
            max_equal: false,
            not_equal: Seq::empty(),
        },
        ast::Op::Less => RangeView {
            min: None,
            min_equal: false,
            max: Some(d),
            max_equal: false,
            not_equal: Seq::empty(),
        },
        _ => RangeView {
            min: Some(d),
            min_equal: false,
            max: None,
            max_equal: false,
            not_equal: Seq::empty(),
        },
    }
}

/// A range narrowed by the condition `op d`: a value unequal to `d` is left out where it is
/// in the range; the orders intersect the range with theirs.
pub open spec fn narrowed(r: RangeView, op: ast::Op, d: Data) -> RangeView {
    match op {
        ast::Op::NotEqual => if in_range(r, d) {
            RangeView { not_equal: r.not_equal.push(d), ..r }
        } else {
            r
        },
        _ => intersect(r, op_range(op, d)),
    }
}

/// `x` stands in relation `op` to `d`.
pub open spec fn op_holds(op: ast::Op, x: Data, d: Data) -> bool {
    match op {
        ast::Op::Equal => data_order(x, d) == 0,
        ast::Op::NotEqual => data_order(x, d) != 0,
        ast::Op::LessEqual => data_order(x, d) <= 0,
        ast::Op::GreaterEqual => data_order(x, d) >= 0,
        ast::Op::Less => data_order(x, d) < 0,
        ast::Op::Greater => data_order(x, d) > 0,
    }
}

/// A narrowed range holds a value exactly when the range held it and it meets the condition.
pub proof fn lemma_narrowed_contains(r: RangeView, op: ast::Op, d: Data, x: Data)
    ensures
        in_range(narrowed(r, op, d), x) == (in_range(r, x) && op_holds(op, x, d)),
{
    lemma_data_order_antisymmetric(x, d);
    match op {
        ast::Op::NotEqual => {
            if in_range(r, d) {
                let ne = r.not_equal.push(d);
                assert(excluded(ne, x) == (excluded(r.not_equal, x) || data_order(x, d) == 0)) by {
                    if excluded(ne, x) {
                        let i = choose|i: int| 0 <= i < ne.len() && data_order(x, #[trigger] ne[i]) == 0;
                        if i < r.not_equal.len() {
                            assert(r.not_equal[i] == ne[i]);
                        }
                    }
                    if excluded(r.not_equal, x) {
                        let i = choose|i: int|
                            0 <= i < r.not_equal.len() && data_order(x, #[trigger] r.not_equal[i]) == 0;
                        assert(ne[i] == r.not_equal[i]);
                    }
                    if data_order(x, d) == 0 {
                        assert(ne[r.not_equal.len() as int] == d);
                    }
                }
            } else if data_order(x, d) == 0 {
                lemma_in_bounds_equal(r, x, d);
                if in_bounds(r, d) {
                    let i = choose|i: int|
                        0 <= i < r.not_equal.len() && data_order(d, #[trigger] r.not_equal[i]) == 0;
                    lemma_data_order_equal(x, d, r.not_equal[i]);
                }
            }
        },
        _ => {
            lemma_intersect_contains(r, op_range(op, d), x);
            assert(!excluded(op_range(op, d).not_equal, x));
        },
    }
}

impl RangeCondition {
    pub fn contains(&self, data: &Data) -> (r: bool)
        ensures
            r == in_range(self.range@, *data),
    {
        self.range.contains(data)
    }

    pub fn is_single(&self) -> (r: bool)
        ensures
            r == (self.range.min is Some && self.range.max is Some && data_order(
                self.range.min.unwrap(),
                self.range.max.unwrap(),
            ) == 0 && self.range.min_equal && self.range.max_equal),
    {
        self.range.is_single()
    }

    /// Narrows the range by the condition `op data`.
    pub fn update(&mut self, op: &ast::Op, data: Option<Data>)
        requires
            data is Some,
        ensures
            final(self).col == old(self).col,
            final(self).range@ == narrowed(old(self).range@, *op, data.unwrap()),
    {
        let data = match data {
            Some(d) => d,
            None => {
                return;
            },
        };
        match op {
            ast::Op::NotEqual => {
                if self.contains(&data) {
                    self.range.not_equal.push(data);
                }
            },
            ast::Op::Equal => {
                let bound = Range {
                    min: Some(data.duplicate()),
                    min_equal: true,
                    max: Some(data),
                    max_equal: true,
                    not_equal: Vec::new(),
                };
                self.range = self.range.intersection(&bound);
            },
            ast::Op::LessEqual => {
                let bound = Range {
                    min: None,
                    min_equal: false,
                    max: Some(data),
                    max_equal: true,
                    not_equal: Vec::new(),
                };
                self.range = self.range.intersection(&bound);
            },
            ast::Op::GreaterEqual => {
                let bound = Range {
                    min: Some(data),
                    min_equal: true,
                    max: None,
                    max_equal: false,
                    not_equal: Vec::new(),
                };
                self.range = self.range.intersection(&bound);
            },
            ast::Op::Less => {
                let bound = Range {
                    min: None,
                    min_equal: false,
                    max: Some(data),
                    max_equal: false,
                    not_equal: Vec::new(),
                };
                self.range = self.range.intersection(&bound);
            },
            ast::Op::Greater => {
                let bound = Range {
                    min: Some(data),
                    min_equal: false,
                    max: None,
                    max_equal: false,
                    not_equal: Vec::new(),
                };
                self.range = self.range.intersection(&bound);
            },
        }
    }
}

} // verus!
