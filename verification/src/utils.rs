//! Small generic helpers.

use std::cmp::Ordering;
use vstd::std_specs::cmp::PartialOrdSpec;
use vstd::prelude::*;

verus! {

/// Orders a pair: `(a, b)` where `a < b`, else `(b, a)`.
///
/// For a type whose comparison is specified, the first of the result is below
/// the second whenever the two can be told apart that way.
pub fn min_max<T: PartialOrd>(a: T, b: T) -> (r: (T, T))
    ensures
        r == (a, b) || r == (b, a),
        T::obeys_partial_cmp_spec() ==> (r == (a, b) <==> a.partial_cmp_spec(&b) == Some(
            Ordering::Less,
        ) || a == b),
{
    if a < b {
        (a, b)
    } else {
        (b, a)
    }
}

/// Clamps `value` to the range from `min` to `max`: `min` where `value` lies
/// below it, else `max` where `value` lies above that, else `value`.
pub fn clamp<T: PartialOrd>(value: T, min: T, max: T) -> (r: T)
    ensures
        r == value || r == min || r == max,
        T::obeys_partial_cmp_spec() ==> r == (if value.partial_cmp_spec(&min) == Some(
            Ordering::Less,
        ) {
            min
        } else if value.partial_cmp_spec(&max) == Some(Ordering::Greater) {
            max
        } else {
            value
        }),
{
    if value < min {
        min
    } else if value > max {
        max
    } else {
        value
    }
}

/// Whether `v` is a 64-bit signed integer.
pub open spec fn fits_i64(v: int) -> bool {
    i64::MIN <= v <= i64::MAX
}

/// The quotient of `a` by `b`, rounded towards zero.
pub open spec fn quotient(a: int, b: int) -> int {
    if a >= 0 {
        a / b
    } else {
        -((-a) / b)
    }
}

/// Dividing by minus one changes the sign.
pub proof fn lemma_quotient_by_minus_one(a: int)
    ensures
        quotient(a, -1) == -a,
{
    assert(a / (-1int) == -a) by (nonlinear_arith);
    assert((-a) / (-1int) == a) by (nonlinear_arith);
}

/// Linear interpolation between the points `(x0, y0)` and `(x1, y1)` at `x`,
/// in integers: `y0 + (x - x0) * ((y1 - y0) / (x1 - x0))`, the slope being
/// rounded towards zero before it is used.
pub fn lerp(x: i64, x0: i64, y0: i64, x1: i64, y1: i64) -> (r: i64)
    requires
        x1 != x0,
        fits_i64(x - x0),
        fits_i64(y1 - y0),
        fits_i64(x1 - x0),
        fits_i64(quotient(y1 - y0, x1 - x0)),
        fits_i64((x - x0) * quotient(y1 - y0, x1 - x0)),
        fits_i64(y0 + (x - x0) * quotient(y1 - y0, x1 - x0)),
    ensures
        r == y0 + (x - x0) * quotient(y1 - y0, x1 - x0),
{
    proof {
        lemma_quotient_by_minus_one(y1 - y0);
    }
    let slope: i64 = (y1 - y0) / (x1 - x0);
    assert(slope == quotient(y1 - y0, x1 - x0));
    y0 + (x - x0) * slope
}

/// Maps `x` from the range `in_min .. in_max` to the range
/// `out_min .. out_max`, in integers:
/// `(x - in_min) * (out_max - out_min) / (in_max - in_min) + out_min`, the
/// quotient being rounded towards zero.
pub fn scale(x: i64, in_min: i64, in_max: i64, out_min: i64, out_max: i64) -> (r: i64)
    requires
        in_max != in_min,
        fits_i64(x - in_min),
        fits_i64(out_max - out_min),
        fits_i64(in_max - in_min),
        fits_i64((x - in_min) * (out_max - out_min)),
        fits_i64(quotient((x - in_min) * (out_max - out_min), in_max - in_min)),
        fits_i64(quotient((x - in_min) * (out_max - out_min), in_max - in_min) + out_min),
    ensures
        r == quotient((x - in_min) * (out_max - out_min), in_max - in_min) + out_min,
{
    let product: i64 = (x - in_min) * (out_max - out_min);
    proof {
        lemma_quotient_by_minus_one(product as int);
    }
    let mapped: i64 = product / (in_max - in_min);
    assert(mapped == quotient(product as int, in_max - in_min));
    mapped + out_min
}

} // verus!
