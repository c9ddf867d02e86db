//! Comparators for sorting integers and pairs of integers.

use vstd::prelude::*;
use std::cmp::Ordering;

verus! {

/// How `x` stands to `y`.
pub open spec fn order_of(x: int, y: int) -> Ordering {
    if x < y {
        Ordering::Less
    } else if x > y {
        Ordering::Greater
    } else {
        Ordering::Equal
    }
}

/// The distance of `x` from zero.
pub open spec fn magnitude(x: i64) -> int {
    if x < 0 {
        0 - x
    } else {
        0 + x
    }
}

/// The square of the distance between two points.
pub open spec fn distance_squared(p: (i64, i64), q: (i64, i64)) -> int {
    (p.0 - q.0) * (p.0 - q.0) + (p.1 - q.1) * (p.1 - q.1)
}

/// Whether the square of the distance between two points fits in an `i64`,
/// with the differences of the coordinates.
pub open spec fn distance_fits(p: (i64, i64), q: (i64, i64)) -> bool {
    &&& i64::MIN <= p.0 - q.0 <= i64::MAX
    &&& i64::MIN <= p.1 - q.1 <= i64::MAX
    &&& (p.0 - q.0) * (p.0 - q.0) <= i64::MAX
    &&& (p.1 - q.1) * (p.1 - q.1) <= i64::MAX
    &&& distance_squared(p, q) <= i64::MAX
}

/// How `x` stands to `y`.
fn compare(x: i64, y: i64) -> (o: Ordering)
    ensures
        o == order_of(0 + x, 0 + y),
{
    if x < y {
        Ordering::Less
    } else if x > y {
        Ordering::Greater
    } else {
        Ordering::Equal
    }
}

/// Orders integers by their distance from zero.
pub fn by_abs(a: &i64, b: &i64) -> (o: Ordering)
    ensures
        o == order_of(magnitude(*a), magnitude(*b)),
{
    let below_a: i64 = if *a < 0 {
        *a
    } else {
        -*a
    };
    let below_b: i64 = if *b < 0 {
        *b
    } else {
        -*b
    };
    compare(below_b, below_a)
}

/// Orders pairs by their first element, and by the second where the first
/// are equal.
pub fn by_first_then_second(a: &(i64, i64), b: &(i64, i64)) -> (o: Ordering)
    ensures
        o == if a.0 != b.0 {
            order_of(0 + a.0, 0 + b.0)
        } else {
            order_of(0 + a.1, 0 + b.1)
        },
{
    if a.0 != b.0 {
        compare(a.0, b.0)
    } else {
        compare(a.1, b.1)
    }
}

/// Orders pairs by their second element, and by the first where the second
/// are equal.
pub fn by_second_then_first(a: &(i64, i64), b: &(i64, i64)) -> (o: Ordering)
    ensures
        o == if a.1 != b.1 {
            order_of(0 + a.1, 0 + b.1)
        } else {
            order_of(0 + a.0, 0 + b.0)
        },
{
    if a.1 != b.1 {
        compare(a.1, b.1)
    } else {
        compare(a.0, b.0)
    }
}

/// Orders integers from large to small.
pub fn descending(a: &i64, b: &i64) -> (o: Ordering)
    ensures
        o == order_of(0 + *b, 0 + *a),
{
    compare(*b, *a)
}

/// Squares are not negative.
proof fn lemma_squares(x: int, y: int)
    ensures
        x * x >= 0,
        y * y >= 0,
{
    assert(x * x >= 0) by (nonlinear_arith);
    assert(y * y >= 0) by (nonlinear_arith);
}

/// A comparator that orders points by the square of their distance from
/// `origin`. It takes points whose squared distance from `origin` fits
/// in an `i64`.
pub fn by_distance_from(origin: (i64, i64)) -> (by_distance: impl Fn(&(i64, i64), &(i64, i64)) -> Ordering)
    ensures
        forall|a: &(i64, i64), b: &(i64, i64)|
            distance_fits(*a, origin) && distance_fits(*b, origin) ==> call_requires(
                by_distance,
                (a, b),
            ),
        forall|a: &(i64, i64), b: &(i64, i64), o: Ordering|
            call_ensures(by_distance, (a, b), o) ==> o == order_of(
                distance_squared(*a, origin),
                distance_squared(*b, origin),
            ),
{
    move |a: &(i64, i64), b: &(i64, i64)| -> (o: Ordering)
        requires
            distance_fits(*a, origin),
            distance_fits(*b, origin),
        ensures
            o == order_of(distance_squared(*a, origin), distance_squared(*b, origin)),
        {
            proof {
                lemma_squares(a.0 - origin.0, a.1 - origin.1);
                lemma_squares(b.0 - origin.0, b.1 - origin.1);
            }
            let dist_a = (a.0 - origin.0) * (a.0 - origin.0) + (a.1 - origin.1) * (a.1 - origin.1);
            let dist_b = (b.0 - origin.0) * (b.0 - origin.0) + (b.1 - origin.1) * (b.1 - origin.1);
            compare(dist_a, dist_b)
        }
}

} // verus!
