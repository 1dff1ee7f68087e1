//! Greatest common divisors, Bezout coefficients and inverses modulo `m`.

use crate::modular::{
    congruent, lemma_congruent_add, lemma_congruent_mul, lemma_congruent_rem, lemma_congruent_sub,
};
use crate::primality::is_prime_number;
use vstd::arithmetic::div_mod::{
    lemma_fundamental_div_mod, lemma_mod_multiples_vanish, lemma_mod_self_0, lemma_small_mod,
};
use vstd::math::abs;
use vstd::prelude::*;

verus! {

/// The greatest common divisor of `a` and `b`; `gcd(0, 0)` is 0.
pub open spec fn gcd(a: nat, b: nat) -> nat
    decreases b,
{
    if b == 0 {
        a
    } else {
        gcd(b, a % b)
    }
}

/// A multiple of `d` plus a multiple of a multiple of `d` is a multiple of `d`.
pub proof fn lemma_multiple_combination(d: int, x: int, y: int, k: int)
    requires
        d > 0,
        x % d == 0,
        y % d == 0,
    ensures
        (x + k * y) % d == 0,
{
    lemma_small_mod(0, d as nat);
    lemma_congruent_mul(k, k, y, 0, d);
    assert(k * 0 == 0);
    lemma_congruent_add(x, 0, k * y, 0, d);
}

/// `gcd(a, b)` divides both `a` and `b`, and is 0 only where both are.
pub proof fn lemma_gcd_divides(a: nat, b: nat)
    ensures
        gcd(a, b) == 0 <==> a == 0 && b == 0,
        gcd(a, b) > 0 ==> a % gcd(a, b) == 0 && b % gcd(a, b) == 0,
    decreases b,
{
    if b == 0 {
        if a > 0 {
            lemma_mod_self_0(a as int);
            lemma_small_mod(0, a);
        }
    } else {
        let g = gcd(a, b) as int;
        let r = a % b;
        lemma_gcd_divides(b, r);
        lemma_fundamental_div_mod(a as int, b as int);
        lemma_multiple_combination(g, r as int, b as int, a as int / b as int);
        assert(b * (a as int / b as int) == (a as int / b as int) * b) by (nonlinear_arith);
    }
}

/// Every common divisor of `a` and `b` divides `gcd(a, b)`.
pub proof fn lemma_gcd_greatest(a: nat, b: nat, d: nat)
    requires
        d > 0,
        a % d == 0,
        b % d == 0,
    ensures
        gcd(a, b) % d == 0,
    decreases b,
{
    if b > 0 {
        let q = a as int / b as int;
        lemma_fundamental_div_mod(a as int, b as int);
        lemma_multiple_combination(d as int, a as int, b as int, -q);
        assert(a + (-q) * b == a - b * q) by (nonlinear_arith);
        lemma_gcd_greatest(b, a % b, d);
    }
}

/// How small the coefficients are that the Euclidean recursion returns for
/// `a * x + b * y == g`: fixed where the recursion ends at once or after one
/// division, and otherwise at most `b / (2 * g)` and `a / (2 * g)` in
/// magnitude.
pub open spec fn small_coefficients(a: int, b: int, g: int, x: int, y: int) -> bool {
    if b == 0 {
        x == 1 && y == 0
    } else if a % b == 0 {
        x == 0 && y == 1
    } else {
        2 * g * abs(x) <= b && 2 * g * abs(y) <= a
    }
}

/// One step back up the Euclidean recursion: from coefficients for
/// `(b, a % b)` to coefficients for `(a, b)`, with the bounds that keep the
/// step inside `i128`.
proof fn lemma_bezout_step(a: int, b: int, g: int, x1: int, y1: int)
    requires
        0 <= a,
        0 < b,
        0 < g,
        g == gcd(b as nat, (a % b) as nat),
        b * x1 + (a % b) * y1 == g,
        small_coefficients(b, a % b, g, x1, y1),
    ensures
        a * y1 + b * (x1 - (a / b) * y1) == g,
        small_coefficients(a, b, g, y1, x1 - (a / b) * y1),
        y1 != 0 ==> 2 * (a / b) <= a,
        2 * abs((a / b) * y1) <= a,
        2 * abs(x1 - (a / b) * y1) <= a || a % b == 0,
{
    let q = a / b;
    let r = a % b;
    lemma_fundamental_div_mod(a, b);
    assert(a * y1 + b * (x1 - q * y1) == b * x1 + r * y1) by (nonlinear_arith)
        requires
            a == b * q + r,
    ;
    assert(0 <= q) by (nonlinear_arith)
        requires
            a == b * q + r,
            0 <= a,
            0 < b,
            0 <= r < b,
    ;
    if r == 0 {
        assert(q * y1 == 0) by (nonlinear_arith)
            requires
                y1 == 0,
        ;
    } else if b % r == 0 {
        // the recursion below ended after one division: g == r, x1 == 0, y1 == 1
        assert(gcd(r as nat, 0) == r);
        lemma_fundamental_div_mod(b, r);
        let k = b / r;
        assert(k >= 2) by (nonlinear_arith)
            requires
                b == r * k,
                0 < r < b,
        ;
        assert(2 * r <= b) by (nonlinear_arith)
            requires
                b == r * k,
                k >= 2,
                0 < r,
        ;
        assert(q * y1 == q) by (nonlinear_arith)
            requires
                y1 == 1,
        ;
        assert(2 * g * q <= a && 2 * q <= a) by (nonlinear_arith)
            requires
                a == b * q + r,
                2 * r <= b,
                0 <= q,
                0 < r,
                g == r,
        ;
        assert(2 * g * abs(y1) == 2 * r) by (nonlinear_arith)
            requires
                y1 == 1,
                g == r,
        ;
    } else {
        let ax = abs(x1);
        let ay = abs(y1);
        assert(abs(q * y1) == q * ay) by (nonlinear_arith)
            requires
                0 <= q,
                ay == abs(y1),
        ;
        assert(2 * g * (q * ay) <= q * b) by (nonlinear_arith)
            requires
                2 * g * ay <= b,
                0 <= q,
        ;
        assert(2 * (q * ay) <= 2 * g * (q * ay)) by (nonlinear_arith)
            requires
                0 < g,
                0 <= q,
                0 <= ay,
        ;
        assert(q * b + r == a) by (nonlinear_arith)
            requires
                a == b * q + r,
        ;
        assert(abs(x1 - q * y1) <= ax + q * ay);
        assert(2 * g * abs(x1 - q * y1) <= 2 * g * (ax + q * ay)) by (nonlinear_arith)
            requires
                abs(x1 - q * y1) <= ax + q * ay,
                0 < g,
        ;
        assert(2 * g * (ax + q * ay) == 2 * g * ax + 2 * g * (q * ay)) by (nonlinear_arith);
        assert(2 * abs(x1 - q * y1) <= 2 * g * abs(x1 - q * y1)) by (nonlinear_arith)
            requires
                0 < g,
                0 <= abs(x1 - q * y1),
        ;
        if y1 != 0 {
            assert(2 * q <= 2 * (q * ay)) by (nonlinear_arith)
                requires
                    0 <= q,
                    1 <= ay,
            ;
        }
    }
}

/// The extended Euclidean algorithm: the greatest common divisor `g` of `a` and
/// `b` with coefficients `x` and `y` such that `a * x + b * y == g`.
///
/// The coefficients are the small ones (see `small_coefficients`), which is
/// why they fit `i128` for every pair of `u128` arguments.
pub fn extended_euclidean(a: u128, b: u128) -> (r: (u128, i128, i128))
    ensures
        r.0 == gcd(a as nat, b as nat),
        a * r.1 + b * r.2 == r.0,
        small_coefficients(a as int, b as int, r.0 as int, r.1 as int, r.2 as int),
    decreases b,
{
    if b == 0 {
        (a, 1, 0)
    } else {
        let below: (u128, i128, i128) = extended_euclidean(b, a % b);
        let g: u128 = below.0;
        let x1: i128 = below.1;
        let y1: i128 = below.2;
        let q: u128 = a / b;
        proof {
            lemma_gcd_divides(b as nat, (a % b) as nat);
            lemma_bezout_step(a as int, b as int, g as int, x1 as int, y1 as int);
        }
        let y: i128 = if y1 == 0 {
            proof {
                assert(q * 0 == 0);
            }
            x1
        } else {
            x1 - (q as i128) * y1
        };
        (g, y1, y)
    }
}

/// `inv` is the inverse of `a` modulo `m`: a residue with
/// `a * inv` congruent to 1.
pub open spec fn is_inverse_mod(a: int, inv: int, m: int) -> bool {
    0 <= inv < m && congruent(a * inv, 1, m)
}

/// `a` has an inverse modulo `m`.
pub open spec fn has_inverse_mod(a: int, m: int) -> bool {
    exists|inv: int| is_inverse_mod(a, inv, m)
}

/// The inverse of `a` modulo `m`, where it has one.
pub open spec fn inverse_mod(a: int, m: int) -> int {
    choose|inv: int| is_inverse_mod(a, inv, m)
}

/// A number has at most one inverse modulo `m`.
pub proof fn lemma_inverse_unique(a: int, i: int, j: int, m: int)
    requires
        m > 0,
        is_inverse_mod(a, i, m),
        is_inverse_mod(a, j, m),
    ensures
        i == j,
{
    lemma_congruent_mul(i, i, a * j, 1, m);
    lemma_congruent_mul(a * i, 1, j, j, m);
    assert(i * (a * j) == (a * i) * j) by (nonlinear_arith);
    assert(i * 1 == i && 1 * j == j);
    lemma_small_mod(i as nat, m as nat);
    lemma_small_mod(j as nat, m as nat);
}

/// Any inverse of `a` modulo `m` is `inverse_mod(a, m)`.
pub proof fn lemma_inverse_is_inverse_mod(a: int, inv: int, m: int)
    requires
        m > 0,
        is_inverse_mod(a, inv, m),
    ensures
        has_inverse_mod(a, m),
        inverse_mod(a, m) == inv,
{
    lemma_inverse_unique(a, inv, inverse_mod(a, m), m);
}

/// Only a number coprime to `m` has an inverse modulo `m`.
pub proof fn lemma_inverse_needs_coprime(a: nat, inv: int, m: nat)
    requires
        m > 0,
        is_inverse_mod(a as int, inv, m as int),
    ensures
        gcd(a, m) == 1,
{
    let g = gcd(a, m) as int;
    lemma_gcd_divides(a, m);
    // a * inv == 1 + m * k, and g divides both a and m
    let k = (a * inv - 1) / (m as int);
    lemma_congruent_sub(a * inv, 1, 1, 1, m as int);
    lemma_small_mod(0, m);
    lemma_fundamental_div_mod(a * inv - 1, m as int);
    lemma_multiple_combination(g, 0, a as int, inv);
    lemma_small_mod(0, g as nat);
    assert(inv * a == a * inv) by (nonlinear_arith);
    lemma_multiple_combination(g, a * inv, m as int, -k);
    assert(a * inv + (-k) * m == 1) by (nonlinear_arith)
        requires
            a * inv - 1 == m * k,
    ;
    if g > 1 {
        lemma_small_mod(1, g as nat);
    }
}

/// Coefficients `(x, y)` with `a * x + b * y == gcd(a, b)` exist.
pub proof fn lemma_bezout(a: nat, b: nat) -> (c: (int, int))
    ensures
        a * c.0 + b * c.1 == gcd(a, b),
    decreases b,
{
    if b == 0 {
        (1, 0)
    } else {
        let below = lemma_bezout(b, a % b);
        let q = a as int / b as int;
        let r = a as int % b as int;
        lemma_fundamental_div_mod(a as int, b as int);
        assert(a * below.1 + b * (below.0 - q * below.1) == b * below.0 + r * below.1)
            by (nonlinear_arith)
            requires
                a == b * q + r,
        ;
        (below.1, below.0 - q * below.1)
    }
}

/// A number has an inverse modulo `m` exactly where it is coprime to `m`.
pub proof fn lemma_inverse_iff_coprime(a: nat, m: nat)
    requires
        m > 0,
    ensures
        has_inverse_mod(a as int, m as int) <==> gcd(a, m) == 1,
{
    if has_inverse_mod(a as int, m as int) {
        lemma_inverse_needs_coprime(a, inverse_mod(a as int, m as int), m);
    }
    if gcd(a, m) == 1 {
        let c = lemma_bezout(a, m);
        let inv = c.0 % (m as int);
        lemma_congruent_rem(c.0, m as int);
        lemma_congruent_mul(a as int, a as int, inv, c.0, m as int);
        assert(a * c.0 == m * (-c.1) + 1) by (nonlinear_arith)
            requires
                a * c.0 + m * c.1 == 1,
        ;
        lemma_mod_multiples_vanish(-c.1, 1, m as int);
        assert(is_inverse_mod(a as int, inv, m as int));
    }
}

/// A prime is coprime to everything it does not divide.
pub proof fn lemma_prime_coprime(a: nat, p: nat)
    requires
        is_prime_number(p as int),
        a % p != 0,
    ensures
        gcd(a, p) == 1,
{
    let g = gcd(a, p);
    lemma_gcd_divides(a, p);
    if g > p {
        lemma_small_mod(p, g);
    }
    if 2 <= g < p {
        assert(p as int % g as int != 0);
    }
}

/// Nothing that `m > 1` divides is coprime to `m`.
pub proof fn lemma_multiple_not_coprime(a: nat, m: nat)
    requires
        m > 1,
        a % m == 0,
    ensures
        gcd(a, m) != 1,
{
    lemma_mod_self_0(m as int);
    lemma_gcd_greatest(a, m, m);
    lemma_small_mod(1, m);
}

/// The inverse of `a` modulo `p`, or `None` where `a` has none, which is
/// the case exactly where `a` and `p` share a divisor greater than 1.
///
/// Modulo a prime `p` every `a` that `p` does not divide has an inverse, and
/// no multiple of `p` has one.
pub fn mod_inverse(a: u128, p: u128) -> (r: Option<u128>)
    requires
        p > 0,
    ensures
        r is Some <==> gcd(a as nat, p as nat) == 1,
        r is Some <==> has_inverse_mod(a as int, p as int),
        r matches Some(inv) ==> is_inverse_mod(a as int, inv as int, p as int) && inv
            == inverse_mod(a as int, p as int),
        is_prime_number(p as int) && a % p != 0 ==> r is Some && (a * r.unwrap()) % (p as int)
            == 1,
        p > 1 && a % p == 0 ==> r is None,
{
    let found: (u128, i128, i128) = extended_euclidean(a, p);
    let x: i128 = found.1;
    proof {
        lemma_inverse_iff_coprime(a as nat, p as nat);
        if is_prime_number(p as int) && a % p != 0 {
            lemma_prime_coprime(a as nat, p as nat);
        }
        if p > 1 && a % p == 0 {
            lemma_multiple_not_coprime(a as nat, p as nat);
        }
        if p > 1 {
            lemma_small_mod(1, p as nat);
        }
    }
    if found.0 == 1 {
        proof {
            // the coefficient lies strictly between -p and p
            if a % p != 0 {
                assert(2 * abs(x as int) <= p) by (nonlinear_arith)
                    requires
                        2 * (found.0 as int) * abs(x as int) <= p,
                        found.0 == 1,
                ;
            }
        }
        let inv: u128 = if x >= 0 {
            x as u128
        } else {
            p - ((-x) as u128)
        };
        proof {
            let y = found.2 as int;
            let wrap: int = if x >= 0 { 0 } else { 1 };
            assert(a * inv == p * (a * wrap - y) + 1) by (nonlinear_arith)
                requires
                    a * x + p * y == 1,
                    inv == x + wrap * p,
            ;
            lemma_mod_multiples_vanish(a * wrap - y, 1, p as int);
            lemma_inverse_is_inverse_mod(a as int, inv as int, p as int);
        }
        Some(inv)
    } else {
        None
    }
}

} // verus!
