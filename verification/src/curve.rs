//! Points, curves and the curve equation `y^2 = x^3 + a*x + b` modulo `m`.

use crate::modular::{
    add_mod, congruent, lemma_congruent_add, lemma_congruent_mul, lemma_congruent_rem, mul_mod,
};
use vstd::prelude::*;

verus! {

/// A pair of coordinates. Two points are equal where both coordinates are.
#[derive(Debug, Hash, PartialEq, Eq, Structural, Clone, Copy)]
pub struct Point {
    pub x: u128,
    pub y: u128,
}

impl View for Point {
    type V = (int, int);

    open spec fn view(&self) -> (int, int) {
        (self.x as int, self.y as int)
    }
}

impl Point {
    /// Both coordinates are residues modulo `m`.
    pub open spec fn in_field(&self, m: int) -> bool {
        self.x < m && self.y < m
    }
}

/// The coefficients `a` and `b` of a curve `y^2 = x^3 + a*x + b`.
#[derive(Debug, Clone, Copy)]
pub struct EllipticCurve {
    pub a: u128,
    pub b: u128,
}

impl View for EllipticCurve {
    type V = (int, int);

    open spec fn view(&self) -> (int, int) {
        (self.a as int, self.b as int)
    }
}

/// The right-hand side `x^3 + a*x + b` of the equation of `curve`.
pub open spec fn curve_rhs(x: int, curve: (int, int)) -> int {
    x * x * x + curve.0 * x + curve.1
}

/// The point `(x, y)` satisfies the equation of `curve` modulo `m`.
pub open spec fn on_curve(point: (int, int), curve: (int, int), m: int) -> bool {
    congruent(point.1 * point.1, curve_rhs(point.0, curve), m)
}

/// `x^3 + a*x + b` modulo `m`, every product reduced before the next one.
pub fn eval_rhs(x: u128, curve: &EllipticCurve, m: u128) -> (r: u128)
    requires
        m > 0,
    ensures
        r == curve_rhs(x as int, curve@) % (m as int),
{
    let x_squared: u128 = mul_mod(x, x, m);
    let x_cubed: u128 = mul_mod(x_squared, x, m);
    let ax: u128 = mul_mod(curve.a, x, m);
    let sum: u128 = add_mod(x_cubed, ax, m);
    proof {
        let mi = m as int;
        lemma_congruent_rem(x * x, mi);
        lemma_congruent_mul(x_squared as int, x * x, x as int, x as int, mi);
        lemma_congruent_rem(x_squared * x, mi);
        lemma_congruent_rem(curve.a * x, mi);
        lemma_congruent_add(x_cubed as int, x * x * x, ax as int, curve.a * x, mi);
        lemma_congruent_rem(x_cubed + ax, mi);
        lemma_congruent_add(sum as int, x * x * x + curve.a * x, curve.b as int, curve.b as int, mi);
    }
    add_mod(sum, curve.b, m)
}

/// Whether `point` satisfies the equation of `curve` modulo `finite_field`.
/// The coordinates need not be reduced.
pub fn is_on_curve(point: &Point, curve: &EllipticCurve, finite_field: u128) -> (r: bool)
    requires
        finite_field > 0,
    ensures
        r == on_curve(point@, curve@, finite_field as int),
{
    let left_side: u128 = mul_mod(point.y, point.y, finite_field);
    let right_side: u128 = eval_rhs(point.x, curve, finite_field);
    left_side == right_side
}

} // verus!
