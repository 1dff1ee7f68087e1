//! Primality of a candidate field characteristic, by trial division.

use vstd::arithmetic::div_mod::{
    lemma_div_is_ordered_by_denominator, lemma_fundamental_div_mod,
    lemma_fundamental_div_mod_converse_mod,
};
use vstd::prelude::*;

verus! {

/// `n` is prime: at least 2 and without a divisor strictly between 1 and `n`.
pub open spec fn is_prime_number(n: int) -> bool {
    n >= 2 && forall|d: int| 2 <= d < n ==> #[trigger] (n % d) != 0
}

/// A divisor `d` of `n` at or above `bound`, where `bound` exceeds
/// `n / bound`, pairs with the divisor `n / d` below `bound`.
proof fn lemma_paired_divisor(n: int, bound: int, d: int)
    requires
        2 <= bound <= d < n,
        n / bound < bound,
        n % d == 0,
    ensures
        2 <= n / d < bound,
        n % (n / d) == 0,
{
    let e = n / d;
    lemma_fundamental_div_mod(n, d);
    lemma_div_is_ordered_by_denominator(n, bound, d);
    assert(e >= 2) by (nonlinear_arith)
        requires
            n == d * e,
            0 < d < n,
    ;
    assert(n == d * e + 0);
    lemma_fundamental_div_mod_converse_mod(n, e, d, 0);
}

/// Whether `n` is prime, by trial division by every integer from 2 up to
/// the integer square root of `n`. The bound is tested as `i <= n / i`, which
/// is exact over the whole range of `u128`.
pub fn is_prime(n: u128) -> (r: bool)
    ensures
        r == is_prime_number(n as int),
{
    if n < 2 {
        return false;
    }
    let mut i: u128 = 2;
    while i <= n / i
        invariant
            2 <= i <= n,
            forall|d: int| 2 <= d < i ==> #[trigger] (n as int % d) != 0,
        decreases n - i,
    {
        proof {
            lemma_div_is_ordered_by_denominator(n as int, 2, i as int);
        }
        if n % i == 0 {
            return false;
        }
        i = i + 1;
    }
    proof {
        assert forall|d: int| 2 <= d < n implies #[trigger] (n as int % d) != 0 by {
            if d >= i && n as int % d == 0 {
                lemma_paired_divisor(n as int, i as int, d);
                assert(n as int % (n as int / d) != 0);
            }
        }
    }
    true
}

} // verus!
