//! Ranges of integer values.
use crate::ir::value::ArithKind;
use vstd::prelude::*;

verus! {

/// A set of signed 64-bit values that a variable may have.
#[derive(Debug, Clone, Copy, PartialEq, Eq, Structural)]
pub enum ValueRange {
    /// Any value.
    Top,
    /// No value.
    Bottom,
    /// The values from `min` to `max`.
    Interval { min: i64, max: i64 },
}

/// Some of the least and the greatest of four products.
pub open spec fn min4(a: int, b: int, c: int, d: int) -> int {
    let x = if a <= b {
        a
    } else {
        b
    };
    let y = if c <= d {
        c
    } else {
        d
    };
    if x <= y {
        x
    } else {
        y
    }
}

/// The greatest of four numbers.
pub open spec fn max4(a: int, b: int, c: int, d: int) -> int {
    -min4(-a, -b, -c, -d)
}

impl ValueRange {
    /// The value lies in the range.
    pub open spec fn contains(self, v: int) -> bool {
        match self {
            ValueRange::Top => i64::MIN <= v <= i64::MAX,
            ValueRange::Bottom => false,
            ValueRange::Interval { min, max } => min <= v <= max,
        }
    }

    /// The range from `lo` to `hi`, any value where a bound is not representable.
    pub open spec fn hull(lo: int, hi: int) -> ValueRange {
        if i64::MIN <= lo && hi <= i64::MAX && i64::MIN <= hi && lo <= i64::MAX {
            ValueRange::span(lo as i64, hi as i64)
        } else {
            ValueRange::Top
        }
    }

    /// The range from `lo` to `hi`, empty where `lo` exceeds `hi`.
    pub open spec fn span(lo: i64, hi: i64) -> ValueRange {
        if lo <= hi {
            ValueRange::Interval { min: lo, max: hi }
        } else {
            ValueRange::Bottom
        }
    }

    /// Computes [`ValueRange::hull`].
    fn hull_of(lo: i128, hi: i128) -> (r: Self)
        ensures
            r == ValueRange::hull(lo as int, hi as int),
    {
        if lo >= i64::MIN as i128 && hi <= i64::MAX as i128 && hi >= i64::MIN as i128 && lo
            <= i64::MAX as i128 {
            ValueRange::bounded(lo as i64, hi as i64)
        } else {
            ValueRange::Top
        }
    }

    /// The range of any value.
    #[must_use]
    pub fn top() -> (r: Self)
        ensures
            r == ValueRange::Top,
    {
        ValueRange::Top
    }

    /// The range of no value.
    #[must_use]
    pub fn bottom() -> (r: Self)
        ensures
            r == ValueRange::Bottom,
    {
        ValueRange::Bottom
    }

    /// The range of one value.
    #[must_use]
    pub fn constant(v: i64) -> (r: Self)
        ensures
            r == (ValueRange::Interval { min: v, max: v }),
    {
        ValueRange::Interval { min: v, max: v }
    }

    /// The range from `lo` to `hi`.
    #[must_use]
    pub fn bounded(lo: i64, hi: i64) -> (r: Self)
        ensures
            r == ValueRange::span(lo, hi),
    {
        if lo <= hi {
            ValueRange::Interval { min: lo, max: hi }
        } else {
            ValueRange::Bottom
        }
    }

    /// The range of the values that are not negative.
    #[must_use]
    pub fn non_negative() -> (r: Self)
        ensures
            r == (ValueRange::Interval { min: 0, max: i64::MAX }),
    {
        ValueRange::Interval { min: 0, max: i64::MAX }
    }

    /// The least value, where the range is an interval.
    pub open spec fn least(self) -> Option<i64> {
        match self {
            ValueRange::Interval { min, .. } => Some(min),
            _ => None,
        }
    }

    /// The range is an interval without negative values.
    pub open spec fn is_natural(self) -> bool {
        match self {
            ValueRange::Interval { min, .. } => min >= 0,
            _ => false,
        }
    }

    /// The greatest value, where the range is an interval.
    pub open spec fn greatest(self) -> Option<i64> {
        match self {
            ValueRange::Interval { max, .. } => Some(max),
            _ => None,
        }
    }

    /// The only value, where there is just one.
    pub open spec fn only(self) -> Option<i64> {
        match self {
            ValueRange::Interval { min, max } => if min == max {
                Some(min)
            } else {
                None
            },
            _ => None,
        }
    }

    /// Returns the least value, where the range is an interval.
    #[must_use]
    pub fn min(&self) -> (r: Option<i64>)
        ensures
            r == self.least(),
    {
        match *self {
            ValueRange::Interval { min, .. } => Some(min),
            _ => None,
        }
    }

    /// Returns the greatest value, where the range is an interval.
    #[must_use]
    pub fn max(&self) -> (r: Option<i64>)
        ensures
            r == self.greatest(),
    {
        match *self {
            ValueRange::Interval { max, .. } => Some(max),
            _ => None,
        }
    }

    /// Returns the only value, where there is just one.
    #[must_use]
    pub fn as_constant(&self) -> (r: Option<i64>)
        ensures
            r == self.only(),
    {
        match *self {
            ValueRange::Interval { min, max } => if min == max {
                Some(min)
            } else {
                None
            },
            _ => None,
        }
    }

    /// Returns whether the range is that of any value.
    #[must_use]
    pub fn is_top(&self) -> (r: bool)
        ensures
            r == (*self == ValueRange::Top),
    {
        matches!(*self, ValueRange::Top)
    }

    /// Returns whether the range is empty.
    #[must_use]
    pub fn is_bottom(&self) -> (r: bool)
        ensures
            r == (*self == ValueRange::Bottom),
    {
        matches!(*self, ValueRange::Bottom)
    }

    /// Returns whether the range is an interval without negative values.
    #[must_use]
    pub fn is_always_non_negative(&self) -> (r: bool)
        ensures
            r == self.is_natural(),
    {
        match *self {
            ValueRange::Interval { min, .. } => min >= 0,
            _ => false,
        }
    }

    /// Returns whether the range is an interval of positive values.
    #[must_use]
    pub fn is_always_positive(&self) -> (r: bool)
        ensures
            r == (self.least() matches Some(m) && m > 0),
    {
        match *self {
            ValueRange::Interval { min, .. } => min > 0,
            _ => false,
        }
    }

    /// The least range that holds the values of both.
    pub open spec fn joined(self, other: ValueRange) -> ValueRange {
        match (self, other) {
            (ValueRange::Bottom, _) => other,
            (_, ValueRange::Bottom) => self,
            (ValueRange::Top, _) => ValueRange::Top,
            (_, ValueRange::Top) => ValueRange::Top,
            (
                ValueRange::Interval { min: a, max: b },
                ValueRange::Interval { min: c, max: d },
            ) => ValueRange::Interval {
                min: if a <= c {
                    a
                } else {
                    c
                },
                max: if b >= d {
                    b
                } else {
                    d
                },
            },
        }
    }

    /// Returns the least range that holds the values of both.
    #[must_use]
    pub fn join(&self, other: &ValueRange) -> (r: Self)
        ensures
            r == self.joined(*other),
    {
        match (*self, *other) {
            (ValueRange::Bottom, _) => *other,
            (_, ValueRange::Bottom) => *self,
            (ValueRange::Top, _) => ValueRange::Top,
            (_, ValueRange::Top) => ValueRange::Top,
            (
                ValueRange::Interval { min: a, max: b },
                ValueRange::Interval { min: c, max: d },
            ) => ValueRange::Interval {
                min: if a <= c {
                    a
                } else {
                    c
                },
                max: if b >= d {
                    b
                } else {
                    d
                },
            },
        }
    }

    /// The range of the sums, any value where a sum may wrap.
    pub open spec fn plus(self, other: ValueRange) -> ValueRange {
        match (self, other) {
            (ValueRange::Bottom, _) => ValueRange::Bottom,
            (_, ValueRange::Bottom) => ValueRange::Bottom,
            (
                ValueRange::Interval { min: a, max: b },
                ValueRange::Interval { min: c, max: d },
            ) => ValueRange::hull(a + c, b + d),
            _ => ValueRange::Top,
        }
    }

    /// The range of the differences, any value where a difference may wrap.
    pub open spec fn minus(self, other: ValueRange) -> ValueRange {
        match (self, other) {
            (ValueRange::Bottom, _) => ValueRange::Bottom,
            (_, ValueRange::Bottom) => ValueRange::Bottom,
            (
                ValueRange::Interval { min: a, max: b },
                ValueRange::Interval { min: c, max: d },
            ) => ValueRange::hull(a - d, b - c),
            _ => ValueRange::Top,
        }
    }

    /// The range of the products, any value where a product may wrap.
    pub open spec fn times(self, other: ValueRange) -> ValueRange {
        match (self, other) {
            (ValueRange::Bottom, _) => ValueRange::Bottom,
            (_, ValueRange::Bottom) => ValueRange::Bottom,
            (
                ValueRange::Interval { min: a, max: b },
                ValueRange::Interval { min: c, max: d },
            ) => ValueRange::hull(
                min4(a * c, a * d, b * c, b * d),
                max4(a * c, a * d, b * c, b * d),
            ),
            _ => ValueRange::Top,
        }
    }

    /// Returns the range of the sums.
    #[must_use]
    pub fn add(&self, other: &ValueRange) -> (r: Self)
        ensures
            r == self.plus(*other),
    {
        match (*self, *other) {
            (ValueRange::Bottom, _) => ValueRange::Bottom,
            (_, ValueRange::Bottom) => ValueRange::Bottom,
            (
                ValueRange::Interval { min: a, max: b },
                ValueRange::Interval { min: c, max: d },
            ) => ValueRange::hull_of(a as i128 + c as i128, b as i128 + d as i128),
            _ => ValueRange::Top,
        }
    }

    /// Returns the range of the differences.
    #[must_use]
    pub fn sub(&self, other: &ValueRange) -> (r: Self)
        ensures
            r == self.minus(*other),
    {
        match (*self, *other) {
            (ValueRange::Bottom, _) => ValueRange::Bottom,
            (_, ValueRange::Bottom) => ValueRange::Bottom,
            (
                ValueRange::Interval { min: a, max: b },
                ValueRange::Interval { min: c, max: d },
            ) => ValueRange::hull_of(a as i128 - d as i128, b as i128 - c as i128),
            _ => ValueRange::Top,
        }
    }

    /// Returns the range of the products.
    #[must_use]
    pub fn mul(&self, other: &ValueRange) -> (r: Self)
        ensures
            r == self.times(*other),
    {
        match (*self, *other) {
            (ValueRange::Bottom, _) => ValueRange::Bottom,
            (_, ValueRange::Bottom) => ValueRange::Bottom,
            (
                ValueRange::Interval { min: a, max: b },
                ValueRange::Interval { min: c, max: d },
            ) => {
                let ac: i128 = product(a, c);
                let ad: i128 = product(a, d);
                let bc: i128 = product(b, c);
                let bd: i128 = product(b, d);
                let lo1: i128 = if ac <= ad {
                    ac
                } else {
                    ad
                };
                let lo2: i128 = if bc <= bd {
                    bc
                } else {
                    bd
                };
                let hi1: i128 = if ac >= ad {
                    ac
                } else {
                    ad
                };
                let hi2: i128 = if bc >= bd {
                    bc
                } else {
                    bd
                };
                let lo: i128 = if lo1 <= lo2 {
                    lo1
                } else {
                    lo2
                };
                let hi: i128 = if hi1 >= hi2 {
                    hi1
                } else {
                    hi2
                };
                ValueRange::hull_of(lo, hi)
            },
            _ => ValueRange::Top,
        }
    }
}

/// The product of two 64-bit values, which 128 bits always hold.
fn product(a: i64, b: i64) -> (r: i128)
    ensures
        r == a * b,
{
    assert(-0x4000_0000_0000_0000_0000_0000_0000_0000 <= a * b
        <= 0x4000_0000_0000_0000_0000_0000_0000_0000) by (nonlinear_arith)
        requires
            -0x8000_0000_0000_0000 <= a <= 0x7fff_ffff_ffff_ffff,
            -0x8000_0000_0000_0000 <= b <= 0x7fff_ffff_ffff_ffff,
    ;
    a as i128 * b as i128
}

impl Default for ValueRange {
    fn default() -> (r: Self)
        ensures
            r == ValueRange::Top,
    {
        ValueRange::Top
    }
}

/// The join of two ranges holds what either holds.
pub proof fn join_holds_both(a: ValueRange, b: ValueRange, v: int)
    requires
        a.contains(v) || b.contains(v),
    ensures
        a.joined(b).contains(v),
{
}

/// The range of a sum holds every sum of values of the ranges, as 64-bit registers compute it.
pub proof fn add_is_sound(a: ValueRange, b: ValueRange, x: i64, y: i64)
    requires
        a.contains(x as int),
        b.contains(y as int),
    ensures
        a.plus(b).contains(ArithKind::Add.on_i64(x, y) as int),
{
}

/// The range of a difference holds every difference of values of the ranges.
pub proof fn sub_is_sound(a: ValueRange, b: ValueRange, x: i64, y: i64)
    requires
        a.contains(x as int),
        b.contains(y as int),
    ensures
        a.minus(b).contains(ArithKind::Sub.on_i64(x, y) as int),
{
}

proof fn lemma_product_between(a: int, b: int, x: int, c: int)
    requires
        a <= x <= b,
    ensures
        (a * c <= x * c <= b * c) || (b * c <= x * c <= a * c),
{
    assert((a * c <= x * c <= b * c) || (b * c <= x * c <= a * c)) by (nonlinear_arith)
        requires
            a <= x <= b,
    ;
}

/// The range of a product holds every product of values of the ranges.
pub proof fn mul_is_sound(a: ValueRange, b: ValueRange, x: i64, y: i64)
    requires
        a.contains(x as int),
        b.contains(y as int),
    ensures
        a.times(b).contains(ArithKind::Mul.on_i64(x, y) as int),
{
    if let (
        ValueRange::Interval { min: p, max: q },
        ValueRange::Interval { min: r, max: s },
    ) = (a, b) {
        lemma_product_between(p as int, q as int, x as int, y as int);
        lemma_product_between(r as int, s as int, y as int, p as int);
        lemma_product_between(r as int, s as int, y as int, q as int);
        assert(p * y == y * p && r * p == p * r && s * p == p * s) by (nonlinear_arith);
        assert(q * y == y * q && r * q == q * r && s * q == q * s) by (nonlinear_arith);
    }
}

} // verus!
