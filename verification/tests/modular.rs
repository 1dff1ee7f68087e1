use finite_curve::modular::{add_mod, mul_mod, sub_mod};

const LARGE_PRIME: u128 = 340282366920938463463374607431768211297;

/// The full 256-bit product of two 128-bit numbers, as (high, low) halves.
fn wide_product(a: u128, b: u128) -> (u128, u128) {
    let mask: u128 = (1u128 << 64) - 1;
    let a1: u128 = a >> 64;
    let a0: u128 = a & mask;
    let b1: u128 = b >> 64;
    let b0: u128 = b & mask;
    let low_low: u128 = a0 * b0;
    let low_high: u128 = a0 * b1;
    let high_low: u128 = a1 * b0;
    let high_high: u128 = a1 * b1;
    let mid: u128 = (low_low >> 64) + (low_high & mask) + (high_low & mask);
    let low: u128 = (low_low & mask) | (mid << 64);
    let high: u128 = high_high + (low_high >> 64) + (high_low >> 64) + (mid >> 64);
    (high, low)
}

/// The remainder of a 256-bit number, by binary long division.
fn wide_remainder(high: u128, low: u128, m: u128) -> u128 {
    let mut r: u128 = 0;
    for i in (0u32..256).rev() {
        let bit: u128 = if i >= 128 { (high >> (i - 128)) & 1 } else { (low >> i) & 1 };
        let carry: u128 = r >> 127;
        r = (r << 1) | bit;
        if carry == 1 || r >= m {
            r = r.wrapping_sub(m);
        }
    }
    r
}

#[test]
fn add_mod_small_values() {
    assert_eq!(add_mod(3, 4, 5), 2);
    assert_eq!(add_mod(0, 0, 1), 0);
    assert_eq!(add_mod(6, 1, 7), 0);
    assert_eq!(add_mod(20, 30, 7), 1);
}

#[test]
fn add_mod_does_not_overflow() {
    assert_eq!(add_mod(u128::MAX, u128::MAX, u128::MAX - 1), 2);
    assert_eq!(add_mod(u128::MAX - 1, u128::MAX - 1, u128::MAX), u128::MAX - 2);
    assert_eq!(add_mod(LARGE_PRIME - 1, LARGE_PRIME - 1, LARGE_PRIME), LARGE_PRIME - 2);
}

#[test]
fn sub_mod_wraps_below_zero() {
    assert_eq!(sub_mod(3, 5, 7), 5);
    assert_eq!(sub_mod(5, 3, 7), 2);
    assert_eq!(sub_mod(4, 4, 7), 0);
    assert_eq!(sub_mod(0, 1, u128::MAX), u128::MAX - 1);
    assert_eq!(sub_mod(0, u128::MAX, u128::MAX - 1), u128::MAX - 2);
}

#[test]
fn mul_mod_small_values() {
    assert_eq!(mul_mod(3, 4, 5), 2);
    assert_eq!(mul_mod(0, 9, 5), 0);
    assert_eq!(mul_mod(9, 0, 5), 0);
    assert_eq!(mul_mod(6, 6, 7), 1);
    assert_eq!(mul_mod(123, 456, 1), 0);
}

#[test]
fn mul_mod_at_the_top_of_the_range() {
    assert_eq!(mul_mod(u128::MAX, u128::MAX, u128::MAX), 0);
    assert_eq!(mul_mod(u128::MAX, u128::MAX - 1, u128::MAX - 2), 2);
    assert_eq!(
        mul_mod(
            340282366920938463463374607431768210456,
            170141183460469231731687303715884118073,
            LARGE_PRIME
        ),
        170141183460469231731687303715873656644
    );
}

#[test]
fn mul_mod_agrees_with_long_division() {
    let samples: Vec<u128> = vec![
        0,
        1,
        2,
        0xffff_ffff_ffff_ffff,
        0x1_0000_0000_0000_0000,
        0x1234_5678_9abc_def0_0fed_cba9_8765_4321,
        u128::MAX / 3,
        u128::MAX - 1,
        u128::MAX,
    ];
    let moduli: Vec<u128> = vec![1, 2, 7, 0xffff_ffff_ffff_ffc5, LARGE_PRIME, u128::MAX];
    for &a in samples.iter() {
        for &b in samples.iter() {
            for &m in moduli.iter() {
                let (high, low) = wide_product(a, b);
                assert_eq!(mul_mod(a, b, m), wide_remainder(high, low, m));
            }
        }
    }
}
