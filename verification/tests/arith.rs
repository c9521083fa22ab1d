use bnum::{BUint, U128, U256};

fn to_u128(u: U128) -> u128 {
    let d = u.digits();
    (d[0] as u128) | ((d[1] as u128) << 64)
}

#[test]
fn zero_is_zero() {
    assert!(U256::zero().is_zero());
}

#[test]
fn max_plus_one_wraps_to_zero_and_overflows() {
    assert_eq!(U256::max_value().wrapping_add(U256::one()), U256::zero());
    assert_eq!(U256::max_value().overflowing_add(U256::one()), (U256::zero(), true));
    assert_eq!(U256::max_value().checked_add(U256::one()), None);
    assert_eq!(U256::max_value().saturating_add(U256::one()), U256::max_value());
}

#[test]
fn power_of_two_scenario() {
    assert!(U256::from(1u128 << 14).is_power_of_two());
    assert!(!U256::from((1u128 << 14) - 1).is_power_of_two());
}

#[test]
fn add_matches_native() {
    let cases = [
        (0u128, 0u128),
        (u128::MAX, 1),
        (u64::MAX as u128, 1),
        (u128::MAX, u128::MAX),
        (203583443659837459073490583937485738404, 3947594755489),
        (1 << 127, 1 << 127),
    ];
    for (a, b) in cases {
        let (x, y) = (U128::from(a), U128::from(b));
        assert_eq!(to_u128(x.wrapping_add(y)), a.wrapping_add(b));
        assert_eq!(x.checked_add(y).map(to_u128), a.checked_add(b));
        let (s, o) = x.overflowing_add(y);
        assert_eq!((to_u128(s), o), a.overflowing_add(b));
        assert_eq!(x.checked_add(y).is_none(), o);
        assert_eq!(to_u128(x.saturating_add(y)), a.saturating_add(b));
    }
}

#[test]
fn sub_matches_native() {
    let cases = [
        (0u128, 0u128),
        (0, 1),
        (1 << 64, 1),
        (u128::MAX, u128::MAX),
        (3947594755489, 203583443659837459073490583937485738404),
        (203583443659837459073490583937485738404, 3947594755489),
    ];
    for (a, b) in cases {
        let (x, y) = (U128::from(a), U128::from(b));
        assert_eq!(to_u128(x.wrapping_sub(y)), a.wrapping_sub(b));
        assert_eq!(x.checked_sub(y).map(to_u128), a.checked_sub(b));
        let (s, o) = x.overflowing_sub(y);
        assert_eq!((to_u128(s), o), a.overflowing_sub(b));
        assert_eq!(to_u128(x.saturating_sub(y)), a.saturating_sub(b));
    }
}

#[test]
fn digit_steps() {
    assert_eq!(bnum::buint::arith::carrying_add(u64::MAX, u64::MAX, 1), (u64::MAX, 1));
    assert_eq!(bnum::buint::arith::carrying_add(1, 2, 0), (3, 0));
    assert_eq!(bnum::buint::arith::borrowing_sub(0, u64::MAX, 1), (0, 1));
    assert_eq!(bnum::buint::arith::borrowing_sub(5, 2, 1), (2, 0));
}

#[test]
fn zero_width() {
    let z = BUint::<0>::zero();
    assert!(z.is_zero());
    assert!(!z.is_one());
    assert_eq!(z.count_ones(), 0);
    assert_eq!(z.leading_zeros(), 0);
    assert_eq!(z.overflowing_add(z), (z, false));
}

#[test]
fn mul_matches_native() {
    let cases = [
        (0u128, 0u128),
        (1, u128::MAX),
        (u128::MAX, u128::MAX),
        (u64::MAX as u128, u64::MAX as u128),
        (u64::MAX as u128 + 1, u64::MAX as u128 + 1),
        (1 << 64, 5),
        (1 << 127, 2),
        (3947594755489, 203583443659837459073490583),
        (0, 1 << 100),
        ((1 << 64) - 1, (1 << 64) + 1),
    ];
    for (a, b) in cases {
        let (x, y) = (U128::from(a), U128::from(b));
        assert_eq!(to_u128(x.wrapping_mul(y)), a.wrapping_mul(b));
        assert_eq!(x.checked_mul(y).map(to_u128), a.checked_mul(b));
        let (p, o) = x.overflowing_mul(y);
        assert_eq!((to_u128(p), o), a.overflowing_mul(b));
        assert_eq!(to_u128(x.saturating_mul(y)), a.saturating_mul(b));
    }
    assert_eq!(to_u128(U128::from(7u64).square()), 49);
}

#[test]
fn mul_overflow_from_dropped_digits_only() {
    let x = BUint::<3>::from_digits([0, 0, 1]);
    let y = BUint::<3>::from_digits([0, 1, 0]);
    assert_eq!(x.overflowing_mul(y), (BUint::<3>::zero(), true));
    assert_eq!(y.overflowing_mul(y), (x, false));
}

#[test]
fn pow() {
    for (a, e) in [(59345u128, 4u32), (54, 9), (2, 127), (0, 0), (0, 5), (1, 4000000000), (3, 80)] {
        assert_eq!(to_u128(U128::from(a).pow(e)), a.pow(e));
    }
}

#[test]
fn checked_and_wrapping_pow() {
    for (a, e) in [(59345u128, 4u32), (2, 128), (2, 127), (3, 81), (3, 80), (0, 0), (u128::MAX, 2), (7, 1000), (10, 39), (10, 38)] {
        assert_eq!(U128::from(a).checked_pow(e).map(to_u128), a.checked_pow(e));
        assert_eq!(to_u128(U128::from(a).wrapping_pow(e)), a.wrapping_pow(e));
        assert_eq!(to_u128(U128::from(a).saturating_pow(e)), a.saturating_pow(e));
    }
}

#[test]
fn div_euclid() {
    let cases = [
        (345987945738945789347u128, 345987945738945789347u128),
        (139475893475987093754099u128, 3459837453479u128),
        (9, 5),
        (0, 7),
        (u128::MAX, 1),
        (u128::MAX, u128::MAX - 1),
        (1 << 127, (1 << 127) + 1),
        (u128::MAX, 1 << 127),
    ];
    for (a, b) in cases {
        assert_eq!(to_u128(U128::from(a).div_euclid(U128::from(b))), a.div_euclid(b));
        assert_eq!(to_u128(U128::from(a).wrapping_div(U128::from(b))), a / b);
        assert_eq!(U128::from(a).checked_div(U128::from(b)).map(to_u128), Some(a / b));
    }
    assert_eq!(U128::from(9u64).div_euclid(U128::from(5u64)), U128::one());
}

#[test]
fn rem_euclid() {
    let cases = [
        (8094589656797897987u128, 8094589656797897987u128),
        (3734597349574397598374594598u128, 3495634895793845783745897u128),
        (11, 5),
        (u128::MAX, (1 << 127) + 3),
    ];
    for (a, b) in cases {
        let (q, r) = U128::from(a).div_rem(U128::from(b));
        assert_eq!((to_u128(q), to_u128(r)), (a / b, a % b));
        assert_eq!(to_u128(U128::from(a).rem_euclid(U128::from(b))), a.rem_euclid(b));
    }
    assert_eq!(U128::from(11u64).rem_euclid(U128::from(5u64)), U128::one());
}

#[test]
fn division_by_zero_is_reported() {
    assert_eq!(U128::from(5u64).checked_div(U128::zero()), None);
    assert_eq!(U128::from(5u64).checked_rem(U128::zero()), None);
}

#[test]
fn logarithms() {
    for v in [1u128, 9, 10, 11, 99, 100, 12345678901234567890, u128::MAX] {
        assert_eq!(U128::from(v).log10(), v.ilog10());
        assert_eq!(U128::from(v).log2(), v.ilog2());
        assert_eq!(U128::from(v).log(U128::from(7u64)), v.ilog(7));
        assert_eq!(U128::from(v).checked_log(U128::from(2u64)), Some(v.ilog2()));
    }
    assert_eq!(U128::zero().checked_log10(), None);
    assert_eq!(U128::from(5u64).checked_log(U128::one()), None);
    assert_eq!(U128::from(5u64).checked_log(U128::zero()), None);
    assert_eq!(U128::from(5u64).checked_log(U128::max_value()), Some(0));
}

fn native_gcd(mut a: u128, mut b: u128) -> u128 {
    while b != 0 {
        let t = a % b;
        a = b;
        b = t;
    }
    a
}

#[test]
fn gcd() {
    let cases = [
        (0u128, 0u128),
        (0, 12),
        (12, 0),
        (12, 18),
        (1 << 100, 1 << 90),
        (3 << 40, 9 << 20),
        (u128::MAX, u128::MAX),
        (u128::MAX, 1 << 127),
        (203583443659837459073490583937485738404, 3947594755489 * 4),
        (17, 13),
    ];
    for (a, b) in cases {
        let g = U128::from(a).gcd(U128::from(b));
        assert_eq!(to_u128(g), native_gcd(a, b));
        assert_eq!(g, U128::from(b).gcd(U128::from(a)));
        if !g.is_zero() {
            assert!(U128::from(a).rem_euclid(g).is_zero());
            assert!(U128::from(b).rem_euclid(g).is_zero());
        }
    }
}

#[test]
fn operators() {
    let a = U128::from(1u128 << 70);
    let b = U128::from(12345u64);
    assert_eq!(to_u128(a + b), (1u128 << 70) + 12345);
    assert_eq!(to_u128(a - b), (1u128 << 70) - 12345);
    assert_eq!(to_u128(b * b), 12345 * 12345);
    assert_eq!(to_u128(a / b), (1u128 << 70) / 12345);
    assert_eq!(to_u128(a % b), (1u128 << 70) % 12345);
}
