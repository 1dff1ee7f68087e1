//! The checks that stand between caller-supplied numbers and the curve
//! arithmetic: the field characteristic must be prime, the coefficients must
//! lie strictly between 0 and it, and only points of the curve are added.

use crate::addition::{point_addition, point_sum};
use crate::curve::{is_on_curve, on_curve, EllipticCurve, Point};
use crate::primality::{is_prime, is_prime_number};
use vstd::prelude::*;

verus! {

/// Why a field characteristic and a pair of coefficients are turned down.
#[derive(Debug, PartialEq, Eq, Structural, Clone, Copy)]
pub enum ParameterError {
    /// The field characteristic is not a prime.
    NotPrime,
    /// A coefficient is 0, or is not below the field characteristic.
    CoefficientOutOfRange,
}

/// What adding two points came to.
#[derive(Debug, PartialEq, Eq, Structural, Clone, Copy)]
pub enum SumOutcome {
    /// One of the points, or both, do not satisfy the curve equation.
    NotOnCurve,
    /// Both points are on the curve and the line through them is vertical:
    /// their sum is no finite point.
    VerticalTangent,
    /// Both points are on the curve, and this is their sum.
    Finite(Point),
}

/// Both coefficients lie strictly between 0 and `m`.
pub open spec fn coefficients_in_range(a: int, b: int, m: int) -> bool {
    0 < a < m && 0 < b < m
}

/// The curve with coefficients `a` and `b` over the field of `finite_field`
/// elements, if `finite_field` is prime and both coefficients lie strictly
/// between 0 and it. Primality is tested first.
pub fn checked_curve(finite_field: u128, a: u128, b: u128) -> (r: Result<
    EllipticCurve,
    ParameterError,
>)
    ensures
        match r {
            Ok(curve) => is_prime_number(finite_field as int) && coefficients_in_range(
                a as int,
                b as int,
                finite_field as int,
            ) && curve@ == (a as int, b as int),
            Err(ParameterError::NotPrime) => !is_prime_number(finite_field as int),
            Err(ParameterError::CoefficientOutOfRange) => is_prime_number(finite_field as int)
                && !coefficients_in_range(a as int, b as int, finite_field as int),
        },
{
    if !is_prime(finite_field) {
        return Err(ParameterError::NotPrime);
    }
    if a > 0 && a < finite_field && b > 0 && b < finite_field {
        Ok(EllipticCurve { a, b })
    } else {
        Err(ParameterError::CoefficientOutOfRange)
    }
}

/// The sum of `p` and `q` if both satisfy the equation of `curve`; the sum
/// of anything else is not attempted.
pub fn sum_on_curve(p: Point, q: Point, curve: &EllipticCurve, finite_field: u128) -> (r: SumOutcome)
    requires
        p.in_field(finite_field as int),
        q.in_field(finite_field as int),
    ensures
        match r {
            SumOutcome::NotOnCurve => !(on_curve(p@, curve@, finite_field as int) && on_curve(
                q@,
                curve@,
                finite_field as int,
            )),
            SumOutcome::VerticalTangent => on_curve(p@, curve@, finite_field as int) && on_curve(
                q@,
                curve@,
                finite_field as int,
            ) && point_sum(p@, q@, curve.a as int, finite_field as int) is None,
            SumOutcome::Finite(s) => on_curve(p@, curve@, finite_field as int) && on_curve(
                q@,
                curve@,
                finite_field as int,
            ) && point_sum(p@, q@, curve.a as int, finite_field as int) == Some(s@)
                && s.in_field(finite_field as int),
        },
{
    if is_on_curve(&p, curve, finite_field) && is_on_curve(&q, curve, finite_field) {
        match point_addition(p, q, curve, finite_field) {
            Some(s) => SumOutcome::Finite(s),
            None => SumOutcome::VerticalTangent,
        }
    } else {
        SumOutcome::NotOnCurve
    }
}

} // verus!
