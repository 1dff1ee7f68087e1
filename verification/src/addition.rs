//! The chord-and-tangent sum of two points of a curve.

use crate::curve::{EllipticCurve, Point};
use crate::euclid::{
    has_inverse_mod, inverse_mod, is_inverse_mod, lemma_inverse_iff_coprime,
    lemma_inverse_is_inverse_mod, lemma_prime_coprime, mod_inverse,
};
use crate::modular::{
    add_mod, congruent, lemma_congruent_add, lemma_congruent_mul, lemma_congruent_rem,
    lemma_congruent_sub, mul_mod, sub_mod,
};
use crate::primality::is_prime_number;
use vstd::arithmetic::div_mod::{lemma_fundamental_div_mod_converse_mod, lemma_small_mod};
use vstd::prelude::*;

verus! {

/// The slope of the chord from `p` to `q`, rise over run modulo `m`, or
/// `None` where the chord is vertical or its run has no inverse.
pub open spec fn chord_slope(p: (int, int), q: (int, int), m: int) -> Option<int> {
    let dx = (q.0 - p.0) % m;
    let dy = (q.1 - p.1) % m;
    if dx == 0 || !has_inverse_mod(dx, m) {
        None
    } else {
        Some((dy * inverse_mod(dx, m)) % m)
    }
}

/// The slope of the tangent to the curve with coefficient `a` at `p`, or
/// `None` where the tangent is vertical or `2 * y` has no inverse.
pub open spec fn tangent_slope(p: (int, int), a: int, m: int) -> Option<int> {
    let doubled = (2 * p.1) % m;
    if p.1 == 0 || !has_inverse_mod(doubled, m) {
        None
    } else {
        Some(((3 * p.0 * p.0 + a) * inverse_mod(doubled, m)) % m)
    }
}

/// The slope that the group law uses for `p` and `q`: the tangent's where the
/// points are equal, the chord's where they are not.
pub open spec fn line_slope(p: (int, int), q: (int, int), a: int, m: int) -> Option<int> {
    if p == q {
        tangent_slope(p, a, m)
    } else {
        chord_slope(p, q, m)
    }
}

/// The third point of the line of the given slope through `p` and `q`,
/// mirrored at the x-axis: `x3 = slope^2 - p.x - q.x`,
/// `y3 = slope * (p.x - x3) - p.y`, both modulo `m`.
pub open spec fn third_point(p: (int, int), q: (int, int), slope: int, m: int) -> (int, int) {
    let x3 = (slope * slope - p.0 - q.0) % m;
    let y3 = (slope * (p.0 - x3) - p.1) % m;
    (x3, y3)
}

/// The sum of `p` and `q` on the curve with coefficient `a` modulo `m`, or
/// `None` where the line through them is vertical and the sum is no finite
/// point.
pub open spec fn point_sum(p: (int, int), q: (int, int), a: int, m: int) -> Option<(int, int)> {
    match line_slope(p, q, a, m) {
        Some(slope) => Some(third_point(p, q, slope, m)),
        None => None,
    }
}

/// The negative of an inverse is the inverse of the negative.
proof fn lemma_negated_inverse(d: int, d2: int, i: int, m: int)
    requires
        m > 0,
        congruent(d + d2, 0, m),
        is_inverse_mod(d, i, m),
    ensures
        is_inverse_mod(d2, (-i) % m, m),
{
    lemma_congruent_sub(d + d2, 0, d, d, m);
    lemma_congruent_rem(-i, m);
    lemma_congruent_mul(d2, -d, (-i) % m, -i, m);
    assert((-d) * (-i) == d * i) by (nonlinear_arith);
}

/// The difference of two numbers taken both ways: the remainders add up to
/// a multiple of `m`, and one is 0 exactly where the other is.
proof fn lemma_opposite_differences(u: int, v: int, m: int)
    requires
        m > 0,
    ensures
        congruent((v - u) % m + (u - v) % m, 0, m),
        (v - u) % m == 0 <==> (u - v) % m == 0,
{
    lemma_congruent_rem(v - u, m);
    lemma_congruent_rem(u - v, m);
    lemma_congruent_add((v - u) % m, v - u, (u - v) % m, u - v, m);
    lemma_small_mod(0, m as nat);
    if (v - u) % m == 0 {
        lemma_congruent_sub(0, 0, v - u, 0, m);
    }
    if (u - v) % m == 0 {
        lemma_congruent_sub(0, 0, u - v, 0, m);
    }
}

/// Where the chord from `p` to `q` has a slope, the chord from `q` to `p`
/// has the same, and the slope times the run is congruent to the rise.
proof fn lemma_chord_slope_one_way(p: (int, int), q: (int, int), m: int)
    requires
        m > 0,
        chord_slope(p, q, m) is Some,
    ensures
        chord_slope(q, p, m) == chord_slope(p, q, m),
        congruent(chord_slope(p, q, m).unwrap() * (q.0 - p.0), q.1 - p.1, m),
{
    let dx = (q.0 - p.0) % m;
    let dy = (q.1 - p.1) % m;
    let dx2 = (p.0 - q.0) % m;
    let dy2 = (p.1 - q.1) % m;
    let i = inverse_mod(dx, m);
    let i2 = (-i) % m;
    let s = (dy * i) % m;
    lemma_opposite_differences(p.0, q.0, m);
    lemma_opposite_differences(p.1, q.1, m);
    lemma_negated_inverse(dx, dx2, i, m);
    lemma_inverse_is_inverse_mod(dx2, i2, m);
    // dy2 * i2 is congruent to (-dy) * (-i), which is dy * i
    lemma_congruent_sub(dy + dy2, 0, dy, dy, m);
    lemma_congruent_rem(-i, m);
    lemma_congruent_mul(dy2, -dy, i2, -i, m);
    assert((-dy) * (-i) == dy * i) by (nonlinear_arith);
    // s * (q.0 - p.0) is congruent to dy * (i * dx), which is dy
    lemma_congruent_rem(dy * i, m);
    lemma_congruent_rem(q.0 - p.0, m);
    lemma_congruent_mul(s, dy * i, q.0 - p.0, dx, m);
    assert((dy * i) * dx == dy * (dx * i)) by (nonlinear_arith);
    lemma_congruent_mul(dy, dy, dx * i, 1, m);
    assert(dy * 1 == dy);
    lemma_congruent_rem(q.1 - p.1, m);
}

/// The slope of a chord does not depend on the order of its end points.
pub proof fn lemma_chord_slope_symmetric(p: (int, int), q: (int, int), m: int)
    requires
        m > 0,
    ensures
        chord_slope(p, q, m) == chord_slope(q, p, m),
{
    if chord_slope(p, q, m) is Some {
        lemma_chord_slope_one_way(p, q, m);
    } else if chord_slope(q, p, m) is Some {
        lemma_chord_slope_one_way(q, p, m);
    }
}

/// Addition commutes: the sum of two different points is the same in either
/// order, and so is the case in which they have no finite sum.
pub proof fn lemma_sum_commutes(p: (int, int), q: (int, int), a: int, m: int)
    requires
        m > 0,
        p != q,
    ensures
        point_sum(p, q, a, m) == point_sum(q, p, a, m),
{
    lemma_chord_slope_symmetric(p, q, m);
    if chord_slope(p, q, m) is Some {
        let s = chord_slope(p, q, m).unwrap();
        lemma_chord_slope_one_way(p, q, m);
        let x3 = (s * s - p.0 - q.0) % m;
        assert(s * s - q.0 - p.0 == s * s - p.0 - q.0);
        // s * (p.0 - x3) - p.1 and s * (q.0 - x3) - q.1 differ by
        // s * (q.0 - p.0) - (q.1 - p.1), a multiple of m
        assert(s * (q.0 - x3) - q.1 == (s * (p.0 - x3) - p.1) + (s * (q.0 - p.0) - (q.1 - p.1)))
            by (nonlinear_arith);
        lemma_congruent_sub(s * (q.0 - p.0), q.1 - p.1, q.1 - p.1, q.1 - p.1, m);
        lemma_congruent_add(
            s * (p.0 - x3) - p.1,
            s * (p.0 - x3) - p.1,
            s * (q.0 - p.0) - (q.1 - p.1),
            0,
            m,
        );
    }
}

/// Modulo a prime, two points with different abscissas have a chord with a
/// slope, and so a finite sum.
pub proof fn lemma_chord_defined(p: (int, int), q: (int, int), m: int)
    requires
        is_prime_number(m),
        0 <= p.0 < m,
        0 <= q.0 < m,
        p.0 != q.0,
    ensures
        chord_slope(p, q, m) is Some,
{
    let dx = (q.0 - p.0) % m;
    if q.0 > p.0 {
        lemma_small_mod((q.0 - p.0) as nat, m as nat);
    } else {
        lemma_fundamental_div_mod_converse_mod(q.0 - p.0, m, -1, q.0 - p.0 + m);
    }
    lemma_small_mod(dx as nat, m as nat);
    lemma_prime_coprime(dx as nat, m as nat);
    lemma_inverse_iff_coprime(dx as nat, m as nat);
}

/// Modulo an odd prime, the tangent at a point with `y != 0` has a slope:
/// doubling such a point follows the tangent formula and gives a finite
/// point.
pub proof fn lemma_tangent_defined(p: (int, int), a: int, m: int)
    requires
        is_prime_number(m),
        m > 2,
        0 < p.1 < m,
    ensures
        tangent_slope(p, a, m) is Some,
{
    let doubled = (2 * p.1) % m;
    assert(m % 2 != 0);
    if 2 * p.1 < m {
        lemma_small_mod((2 * p.1) as nat, m as nat);
    } else {
        lemma_fundamental_div_mod_converse_mod(2 * p.1, m, 1, 2 * p.1 - m);
    }
    lemma_small_mod(doubled as nat, m as nat);
    lemma_prime_coprime(doubled as nat, m as nat);
    lemma_inverse_iff_coprime(doubled as nat, m as nat);
}

/// Doubling follows the tangent, not the chord, whose run would be 0: the
/// sum of a point with itself comes from `tangent_slope`. It is no finite
/// point where `y == 0`, and modulo an odd prime it is one wherever
/// `y != 0`.
pub proof fn lemma_doubling_follows_tangent(p: (int, int), a: int, m: int)
    ensures
        point_sum(p, p, a, m) == match tangent_slope(p, a, m) {
            Some(slope) => Some(third_point(p, p, slope, m)),
            None => None,
        },
        p.1 == 0 ==> point_sum(p, p, a, m) is None,
        is_prime_number(m) && m > 2 && 0 < p.1 < m ==> point_sum(p, p, a, m) is Some,
{
    if is_prime_number(m) && m > 2 && 0 < p.1 < m {
        lemma_tangent_defined(p, a, m);
    }
}

/// The point that a line of the given slope through `p` and `q` leads to.
fn point_from_slope(p: Point, q: Point, slope: u128, m: u128) -> (r: Point)
    requires
        m > 0,
    ensures
        r@ == third_point(p@, q@, slope as int, m as int),
        r.in_field(m as int),
{
    let slope_squared: u128 = mul_mod(slope, slope, m);
    let less_px: u128 = sub_mod(slope_squared, p.x, m);
    let x3: u128 = sub_mod(less_px, q.x, m);
    let run: u128 = sub_mod(p.x, x3, m);
    let rise: u128 = mul_mod(slope, run, m);
    let y3: u128 = sub_mod(rise, p.y, m);
    proof {
        let mi = m as int;
        lemma_congruent_rem(slope * slope, mi);
        lemma_congruent_sub(slope_squared as int, slope * slope, p.x as int, p.x as int, mi);
        lemma_congruent_rem(slope_squared - p.x, mi);
        lemma_congruent_sub(less_px as int, slope * slope - p.x, q.x as int, q.x as int, mi);
        lemma_congruent_rem(less_px - q.x, mi);
        lemma_congruent_rem(p.x - x3, mi);
        lemma_congruent_mul(slope as int, slope as int, run as int, p.x - x3, mi);
        lemma_congruent_rem(slope * run, mi);
        lemma_congruent_sub(rise as int, slope * (p.x - x3), p.y as int, p.y as int, mi);
        lemma_congruent_rem(rise - p.y, mi);
    }
    Point { x: x3, y: y3 }
}

/// The sum of `p` and `q` under the group law of `curve` modulo
/// `finite_field`: the doubling formula where the points are equal, the chord
/// formula where they are not. `None` stands for the vertical line, whose sum
/// is no finite point, and for a slope whose denominator has no inverse.
pub fn point_addition(p: Point, q: Point, curve: &EllipticCurve, finite_field: u128) -> (r:
    Option<Point>)
    requires
        p.in_field(finite_field as int),
        q.in_field(finite_field as int),
    ensures
        match r {
            Some(s) => point_sum(p@, q@, curve.a as int, finite_field as int) == Some(s@)
                && s.in_field(finite_field as int),
            None => point_sum(p@, q@, curve.a as int, finite_field as int) is None,
        },
        p == q && p.y == 0 ==> r is None,
        p != q && p.x == q.x ==> r is None,
        is_prime_number(finite_field as int) && p.x != q.x ==> r is Some,
        is_prime_number(finite_field as int) && finite_field > 2 && p == q && p.y != 0 ==> r
            is Some,
{
    proof {
        if is_prime_number(finite_field as int) && p.x != q.x {
            lemma_chord_defined(p@, q@, finite_field as int);
        }
        if is_prime_number(finite_field as int) && finite_field > 2 && p == q && p.y != 0 {
            lemma_tangent_defined(p@, curve.a as int, finite_field as int);
        }
    }
    let m: u128 = finite_field;
    if p.x != q.x || p.y != q.y {
        let dy: u128 = sub_mod(q.y, p.y, m);
        let dx: u128 = sub_mod(q.x, p.x, m);
        proof {
            lemma_small_mod(0, m as nat);
        }
        if dx == 0 {
            return None;
        }
        match mod_inverse(dx, m) {
            None => None,
            Some(inverse_denominator) => {
                let slope: u128 = mul_mod(dy, inverse_denominator, m);
                Some(point_from_slope(p, q, slope, m))
            },
        }
    } else {
        if p.y == 0 {
            return None;
        }
        let x_squared: u128 = mul_mod(p.x, p.x, m);
        let triple: u128 = mul_mod(3, x_squared, m);
        let numerator: u128 = add_mod(triple, curve.a, m);
        let denominator: u128 = add_mod(p.y, p.y, m);
        proof {
            let mi = m as int;
            lemma_congruent_rem(p.x * p.x, mi);
            lemma_congruent_mul(3, 3, x_squared as int, p.x * p.x, mi);
            lemma_congruent_rem(3 * x_squared, mi);
            assert(3 * (p.x * p.x) == 3 * p.x * p.x) by (nonlinear_arith);
            lemma_congruent_add(triple as int, 3 * p.x * p.x, curve.a as int, curve.a as int, mi);
            lemma_congruent_rem(triple + curve.a, mi);
        }
        match mod_inverse(denominator, m) {
            None => None,
            Some(inverse_denominator) => {
                let slope: u128 = mul_mod(numerator, inverse_denominator, m);
                proof {
                    let mi = m as int;
                    lemma_congruent_mul(
                        numerator as int,
                        3 * p.x * p.x + curve.a,
                        inverse_denominator as int,
                        inverse_denominator as int,
                        mi,
                    );
                }
                Some(point_from_slope(p, q, slope, m))
            },
        }
    }
}

} // verus!
