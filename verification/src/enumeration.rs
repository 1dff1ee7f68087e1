//! Enumeration of all the points of a curve over a small field.

use crate::curve::{curve_rhs, eval_rhs, on_curve, EllipticCurve, Point};
use crate::modular::mul_mod;
use itertools::Itertools;
use vstd::arithmetic::div_mod::lemma_mod_multiples_vanish;
use vstd::prelude::*;
use vstd::seq_lib::lemma_seq_contains_after_push;

verus! {

/// `point` belongs to the curve over the field of `m` elements: its
/// coordinates are residues and satisfy the equation.
pub open spec fn is_curve_point(point: Point, curve: (int, int), m: int) -> bool {
    point.in_field(m) && on_curve(point@, curve, m)
}

/// The mirror image of `point` at the x-axis: `(x, m - y)`.
pub open spec fn reflected(point: Point, m: u128) -> Point {
    Point { x: point.x, y: (m - point.y) as u128 }
}

/// The items of `s` in their order, each one only where it first occurs.
pub open spec fn first_occurrences<A>(s: Seq<A>) -> Seq<A>
    decreases s.len(),
{
    if s.len() == 0 {
        Seq::empty()
    } else {
        let kept = first_occurrences(s.drop_last());
        if kept.contains(s.last()) {
            kept
        } else {
            kept.push(s.last())
        }
    }
}

/// `first_occurrences(s)` holds no item twice, and holds exactly the items
/// of `s`.
pub proof fn lemma_first_occurrences<A>(s: Seq<A>)
    ensures
        first_occurrences(s).no_duplicates(),
        forall|a: A| first_occurrences(s).contains(a) <==> s.contains(a),
    decreases s.len(),
{
    broadcast use lemma_seq_contains_after_push;

    if s.len() > 0 {
        let front = s.drop_last();
        lemma_first_occurrences(front);
        assert(s =~= front.push(s.last()));
        let kept = first_occurrences(front);
        if !kept.contains(s.last()) {
            assert forall|i: int, j: int|
                0 <= i < kept.len() + 1 && 0 <= j < kept.len() + 1 && i != j implies kept.push(
                s.last(),
            )[i] != kept.push(s.last())[j] by {
                if i < kept.len() {
                    assert(kept.contains(kept[i]));
                }
                if j < kept.len() {
                    assert(kept.contains(kept[j]));
                }
            }
        }
    }
}

/// Calls `Itertools::unique` on the points, taken as pairs of integers, and
/// collects what it yields.
///
/// Not proved, but taken from the method's documentation: the outcome is the
/// points in their order, each kept where it first occurs and dropped
/// wherever it occurs again. The method tells repeats by the equality and the
/// hash of the pairs; the hash set it keeps never shows in the order.
#[verifier::external_body]
fn unique_points(points: Vec<Point>) -> (kept: Vec<Point>)
    ensures
        kept@ == first_occurrences(points@),
{
    points.into_iter().map(|p| (p.x, p.y)).unique().map(|(x, y)| Point { x, y }).collect()
}

/// A point and its mirror image at the x-axis satisfy the curve equation
/// together: `(m - y)^2` is congruent to `y^2`.
pub proof fn lemma_reflection(point: Point, curve: (int, int), m: u128)
    requires
        is_curve_point(point, curve, m as int),
        point.y != 0,
    ensures
        is_curve_point(reflected(point, m), curve, m as int),
{
    let y = point.y as int;
    assert((m - y) * (m - y) == m * (m - 2 * y) + y * y) by (nonlinear_arith);
    lemma_mod_multiples_vanish(m - 2 * y, y * y, m as int);
}

/// All the points of `curve` over the field of `finite_field` elements,
/// each one once: the pairs `(x, y)` of residues with
/// `y^2 = x^3 + a*x + b` modulo `finite_field`.
///
/// Every pair of residues is tried, so the cost grows with the square of
/// the field's size.
pub fn generate_curve(curve: &EllipticCurve, finite_field: u128) -> (points: Vec<Point>)
    ensures
        points@.no_duplicates(),
        forall|point: Point|
            points@.contains(point) <==> is_curve_point(point, curve@, finite_field as int),
        forall|i: int|
            0 <= i < points.len() ==> on_curve(
                (#[trigger] points[i])@,
                curve@,
                finite_field as int,
            ),
        forall|i: int|
            0 <= i < points.len() && points[i].y != 0 ==> points@.contains(
                reflected(#[trigger] points[i], finite_field),
            ),
{
    let m: u128 = finite_field;
    let mut found: Vec<Point> = Vec::new();
    let mut x: u128 = 0;
    while x < m
        invariant
            x <= m,
            forall|point: Point| found@.contains(point) ==> is_curve_point(point, curve@, m as int),
            forall|point: Point|
                is_curve_point(point, curve@, m as int) && point.x < x ==> found@.contains(point),
        decreases m - x,
    {
        let right_side: u128 = eval_rhs(x, curve, m);
        let mut y: u128 = 0;
        while y < m
            invariant
                x < m,
                y <= m,
                right_side == curve_rhs(x as int, curve@) % (m as int),
                forall|point: Point|
                    found@.contains(point) ==> is_curve_point(point, curve@, m as int),
                forall|point: Point|
                    is_curve_point(point, curve@, m as int) && (point.x < x || (point.x == x
                        && point.y < y)) ==> found@.contains(point),
            decreases m - y,
        {
            broadcast use lemma_seq_contains_after_push;

            let y_squared: u128 = mul_mod(y, y, m);
            if y_squared == right_side {
                let here = Point { x, y };
                found.push(here);
                if y != 0 {
                    proof {
                        lemma_reflection(here, curve@, m);
                    }
                    found.push(Point { x, y: m - y });
                }
            }
            y = y + 1;
        }
        x = x + 1;
    }
    let points = unique_points(found);
    proof {
        lemma_first_occurrences(found@);
        assert forall|point: Point| points@.contains(point) implies is_curve_point(
            point,
            curve@,
            m as int,
        ) by {
            assert(found@.contains(point));
        }
        assert forall|point: Point|
            is_curve_point(point, curve@, m as int) implies points@.contains(point) by {
            assert(found@.contains(point));
        }
        assert forall|i: int| 0 <= i < points.len() implies on_curve(
            (#[trigger] points[i])@,
            curve@,
            m as int,
        ) by {
            assert(points@.contains(points@[i]));
        }
        assert forall|i: int| 0 <= i < points.len() && points[i].y != 0 implies points@.contains(
            reflected(#[trigger] points[i], m),
        ) by {
            assert(points@.contains(points@[i]));
            lemma_reflection(points@[i], curve@, m);
        }
    }
    points
}

} // verus!
