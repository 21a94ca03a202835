//! Ranges of results are as narrow as they can be.
use crate::analysis::range::ValueRange;
use vstd::prelude::*;

verus! {

/// An interval holds a value.
pub open spec fn is_proper(r: ValueRange) -> bool {
    match r {
        ValueRange::Interval { min, max } => min <= max,
        _ => true,
    }
}

/// `z` is what `f` gives for a value of one range and a value of another.
pub open spec fn is_reached(
    f: spec_fn(int, int) -> int,
    a: ValueRange,
    b: ValueRange,
    z: int,
) -> bool {
    exists|x: int, y: int| #[trigger] a.contains(x) && #[trigger] b.contains(y) && f(x, y) == z
}

/// A range of results is narrow: it is empty only where an operand is, its bounds are results, and it
/// is the range of any value only where an operand is or a result is not representable.
pub open spec fn is_narrow(
    f: spec_fn(int, int) -> int,
    a: ValueRange,
    b: ValueRange,
    r: ValueRange,
) -> bool {
    match r {
        ValueRange::Bottom => a is Bottom || b is Bottom,
        ValueRange::Interval { min, max } => is_reached(f, a, b, min as int) && is_reached(
            f,
            a,
            b,
            max as int,
        ),
        ValueRange::Top => a is Top || b is Top || exists|z: int|
            (z < i64::MIN || z > i64::MAX) && #[trigger] is_reached(f, a, b, z),
    }
}

/// The join of two ranges lies within every range that holds the values of both.
pub proof fn join_is_least(a: ValueRange, b: ValueRange, r: ValueRange, v: int)
    requires
        is_proper(a),
        is_proper(b),
        forall|x: int| a.contains(x) || b.contains(x) ==> #[trigger] r.contains(x),
        a.joined(b).contains(v),
    ensures
        r.contains(v),
{
    if let ValueRange::Interval { min, max } = a {
        assert(r.contains(min as int) && r.contains(max as int));
    }
    if let ValueRange::Interval { min, max } = b {
        assert(r.contains(min as int) && r.contains(max as int));
    }
    if a is Top || b is Top {
        assert(r.contains(v));
    }
}

/// The range of the sums is narrow.
pub proof fn sums_are_narrow(a: ValueRange, b: ValueRange)
    requires
        is_proper(a),
        is_proper(b),
    ensures
        is_narrow(|x: int, y: int| x + y, a, b, a.plus(b)),
{
    let f = |x: int, y: int| x + y;
    if let (
        ValueRange::Interval { min: p, max: q },
        ValueRange::Interval { min: r, max: s },
    ) = (a, b) {
        assert(a.contains(p as int) && a.contains(q as int));
        assert(b.contains(r as int) && b.contains(s as int));
        assert(f(p as int, r as int) == p + r && f(q as int, s as int) == q + s);
        assert(is_reached(f, a, b, p + r));
        assert(is_reached(f, a, b, q + s));
    }
}

/// The range of the differences is narrow.
pub proof fn differences_are_narrow(a: ValueRange, b: ValueRange)
    requires
        is_proper(a),
        is_proper(b),
    ensures
        is_narrow(|x: int, y: int| x - y, a, b, a.minus(b)),
{
    let f = |x: int, y: int| x - y;
    if let (
        ValueRange::Interval { min: p, max: q },
        ValueRange::Interval { min: r, max: s },
    ) = (a, b) {
        assert(a.contains(p as int) && a.contains(q as int));
        assert(b.contains(r as int) && b.contains(s as int));
        assert(f(p as int, s as int) == p - s && f(q as int, r as int) == q - r);
        assert(is_reached(f, a, b, p - s));
        assert(is_reached(f, a, b, q - r));
    }
}

/// The range of the products is narrow.
pub proof fn products_are_narrow(a: ValueRange, b: ValueRange)
    requires
        is_proper(a),
        is_proper(b),
    ensures
        is_narrow(|x: int, y: int| x * y, a, b, a.times(b)),
{
    let f = |x: int, y: int| x * y;
    if let (
        ValueRange::Interval { min: p, max: q },
        ValueRange::Interval { min: r, max: s },
    ) = (a, b) {
        assert(a.contains(p as int) && a.contains(q as int));
        assert(b.contains(r as int) && b.contains(s as int));
        assert(f(p as int, r as int) == p * r && f(p as int, s as int) == p * s);
        assert(f(q as int, r as int) == q * r && f(q as int, s as int) == q * s);
        assert(is_reached(f, a, b, p * r));
        assert(is_reached(f, a, b, p * s));
        assert(is_reached(f, a, b, q * r));
        assert(is_reached(f, a, b, q * s));
    }
}

} // verus!
