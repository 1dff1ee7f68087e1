//! Addition, subtraction and multiplication of residues, none of which
//! leaves the range of `u128` whatever the modulus.

use vstd::arithmetic::div_mod::{
    lemma_add_mod_noop, lemma_fundamental_div_mod_converse_mod, lemma_mul_mod_noop_general,
    lemma_small_mod, lemma_sub_mod_noop,
};
use vstd::prelude::*;

verus! {

/// `a` and `b` leave the same remainder modulo `m`.
pub open spec fn congruent(a: int, b: int, m: int) -> bool {
    a % m == b % m
}

/// Congruent summands give congruent sums.
pub proof fn lemma_congruent_add(a: int, a2: int, b: int, b2: int, m: int)
    requires
        m > 0,
        congruent(a, a2, m),
        congruent(b, b2, m),
    ensures
        congruent(a + b, a2 + b2, m),
{
    lemma_add_mod_noop(a, b, m);
    lemma_add_mod_noop(a2, b2, m);
}

/// Congruent operands give congruent differences.
pub proof fn lemma_congruent_sub(a: int, a2: int, b: int, b2: int, m: int)
    requires
        m > 0,
        congruent(a, a2, m),
        congruent(b, b2, m),
    ensures
        congruent(a - b, a2 - b2, m),
{
    lemma_sub_mod_noop(a, b, m);
    lemma_sub_mod_noop(a2, b2, m);
}

/// Congruent factors give congruent products.
pub proof fn lemma_congruent_mul(a: int, a2: int, b: int, b2: int, m: int)
    requires
        m > 0,
        congruent(a, a2, m),
        congruent(b, b2, m),
    ensures
        congruent(a * b, a2 * b2, m),
{
    lemma_mul_mod_noop_general(a, b, m);
    lemma_mul_mod_noop_general(a2, b2, m);
}

/// A remainder is congruent to the number it was taken from.
pub proof fn lemma_congruent_rem(a: int, m: int)
    requires
        m > 0,
    ensures
        congruent(a % m, a, m),
        0 <= a % m < m,
{
    lemma_small_mod((a % m) as nat, m as nat);
}

/// `(a + b) mod m`.
pub fn add_mod(a: u128, b: u128, m: u128) -> (r: u128)
    requires
        m > 0,
    ensures
        r == (a + b) % (m as int),
{
    let x: u128 = a % m;
    let y: u128 = b % m;
    proof {
        lemma_add_mod_noop(a as int, b as int, m as int);
    }
    if x >= m - y {
        let r: u128 = x - (m - y);
        proof {
            lemma_fundamental_div_mod_converse_mod(x + y, m as int, 1, r as int);
        }
        r
    } else {
        proof {
            lemma_small_mod((x + y) as nat, m as nat);
        }
        x + y
    }
}

/// `(a - b) mod m`, the remainder taken in `[0, m)` also where `a < b`.
pub fn sub_mod(a: u128, b: u128, m: u128) -> (r: u128)
    requires
        m > 0,
    ensures
        r == (a - b) % (m as int),
{
    let x: u128 = a % m;
    let y: u128 = b % m;
    proof {
        lemma_sub_mod_noop(a as int, b as int, m as int);
    }
    if x >= y {
        proof {
            lemma_small_mod((x - y) as nat, m as nat);
        }
        x - y
    } else {
        let r: u128 = m - (y - x);
        proof {
            lemma_fundamental_div_mod_converse_mod(x - y, m as int, -1, r as int);
        }
        r
    }
}

/// One round of double-and-add keeps `acc + term * k` in its residue class.
proof fn lemma_double_and_add(acc: int, term: int, k: int, m: int)
    requires
        m > 0,
        k > 0,
    ensures
        congruent(
            (acc + term * (k % 2)) % m + ((term + term) % m) * (k / 2),
            acc + term * k,
            m,
        ),
{
    let half = k / 2;
    let bit = k % 2;
    lemma_congruent_rem(acc + term * bit, m);
    lemma_congruent_rem(term + term, m);
    lemma_congruent_mul((term + term) % m, term + term, half, half, m);
    lemma_congruent_add(
        (acc + term * bit) % m,
        acc + term * bit,
        ((term + term) % m) * half,
        (term + term) * half,
        m,
    );
    assert(acc + term * bit + (term + term) * half == acc + term * k) by (nonlinear_arith)
        requires
            k == 2 * half + bit,
    ;
}

/// `(a * b) mod m`, by doubling and adding residues: no intermediate value
/// reaches `2 * m`, so the product is exact for every modulus.
pub fn mul_mod(a: u128, b: u128, m: u128) -> (r: u128)
    requires
        m > 0,
    ensures
        r == (a * b) % (m as int),
{
    let mut acc: u128 = 0;
    let mut term: u128 = a % m;
    let mut k: u128 = b;
    proof {
        lemma_mul_mod_noop_general(a as int, b as int, m as int);
    }
    while k > 0
        invariant
            m > 0,
            acc < m,
            term < m,
            congruent(acc + term * k, a * b, m as int),
        decreases k,
    {
        proof {
            lemma_double_and_add(acc as int, term as int, k as int, m as int);
            if k % 2 == 1 {
                assert(term * (k % 2) == term) by (nonlinear_arith)
                    requires
                        k % 2 == 1,
                ;
            } else {
                assert(term * (k % 2) == 0) by (nonlinear_arith)
                    requires
                        k % 2 == 0,
                ;
                lemma_small_mod(acc as nat, m as nat);
            }
        }
        if k % 2 == 1 {
            acc = add_mod(acc, term, m);
        }
        term = add_mod(term, term, m);
        k = k / 2;
    }
    proof {
        assert(term * 0 == 0);
        lemma_small_mod(acc as nat, m as nat);
    }
    acc
}

} // verus!
