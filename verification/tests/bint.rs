use bnum::buint::compare::Relation;
use bnum::{BInt, BUint, I128, I256, U128};

fn of_i128(v: i128) -> I128 {
    I128::from_bits(U128::from(v as u128))
}

fn to_i128(i: I128) -> i128 {
    let d = *i.to_bits().digits();
    ((d[0] as u128) | ((d[1] as u128) << 64)) as i128
}

const SAMPLES: [i128; 9] = [
    0,
    1,
    -1,
    i128::MAX,
    i128::MIN,
    i128::MAX - 1,
    i128::MIN + 1,
    203583443659837459073490583937485738,
    -3947594755489,
];

#[test]
fn min_checked_abs_is_none() {
    assert!(I256::min_value().checked_abs().is_none());
}

#[test]
fn min_checked_neg_is_none_and_max_negates() {
    assert!(I256::min_value().checked_neg().is_none());
    let neg_max = I256::max_value().checked_neg().unwrap();
    let mut expected = BUint::<4>::max_value();
    expected = expected.wrapping_sub(I256::max_value().to_bits()).wrapping_add(BUint::one());
    assert_eq!(neg_max.to_bits(), expected);
    assert_eq!(*neg_max.to_bits().digits(), [1, 0, 0, 1 << 63]);
    assert!(neg_max.is_negative());
}

#[test]
fn min_and_max_values() {
    assert_eq!(to_i128(I128::min_value()), i128::MIN);
    assert_eq!(to_i128(I128::max_value()), i128::MAX);
    assert_eq!(to_i128(I128::zero()), 0);
    assert_eq!(to_i128(I128::one()), 1);
}

#[test]
fn signs() {
    for v in SAMPLES {
        assert_eq!(of_i128(v).is_negative(), v.is_negative());
        assert_eq!(of_i128(v).is_positive(), v.is_positive());
    }
}

#[test]
fn saturating_add() {
    for a in SAMPLES {
        for b in SAMPLES {
            assert_eq!(to_i128(of_i128(a).saturating_add(of_i128(b))), a.saturating_add(b));
        }
    }
}

#[test]
fn saturating_sub() {
    for a in SAMPLES {
        for b in SAMPLES {
            assert_eq!(to_i128(of_i128(a).saturating_sub(of_i128(b))), a.saturating_sub(b));
        }
    }
}

#[test]
fn saturating_add_unsigned() {
    for a in SAMPLES {
        for b in [0u128, 1, u128::MAX, 1 << 127, (1 << 127) - 1, 3947594755489] {
            assert_eq!(
                to_i128(of_i128(a).saturating_add_unsigned(U128::from(b))),
                a.saturating_add_unsigned(b)
            );
            assert_eq!(
                of_i128(a).checked_add_unsigned(U128::from(b)).map(to_i128),
                a.checked_add_unsigned(b)
            );
        }
    }
}

#[test]
fn saturating_sub_unsigned() {
    for a in SAMPLES {
        for b in [0u128, 1, u128::MAX, 1 << 127, (1 << 127) - 1, 3947594755489] {
            assert_eq!(
                to_i128(of_i128(a).saturating_sub_unsigned(U128::from(b))),
                a.saturating_sub_unsigned(b)
            );
            assert_eq!(
                of_i128(a).checked_sub_unsigned(U128::from(b)).map(to_i128),
                a.checked_sub_unsigned(b)
            );
        }
    }
}

#[test]
fn checked_and_wrapping_signed() {
    for a in SAMPLES {
        assert_eq!(of_i128(a).checked_neg().map(to_i128), a.checked_neg());
        assert_eq!(of_i128(a).checked_abs().map(to_i128), a.checked_abs());
        assert_eq!(to_i128(of_i128(a).saturating_neg()), a.saturating_neg());
        assert_eq!(to_i128(of_i128(a).saturating_abs()), a.saturating_abs());
        for b in SAMPLES {
            assert_eq!(of_i128(a).checked_add(of_i128(b)).map(to_i128), a.checked_add(b));
            assert_eq!(of_i128(a).checked_sub(of_i128(b)).map(to_i128), a.checked_sub(b));
            assert_eq!(to_i128(of_i128(a).wrapping_add(of_i128(b))), a.wrapping_add(b));
            let (s, o) = of_i128(a).overflowing_sub(of_i128(b));
            assert_eq!((to_i128(s), o), a.overflowing_sub(b));
        }
    }
}

#[test]
fn one_digit_signed() {
    let m = BInt::<1>::max_value();
    assert_eq!(*m.to_bits().digits(), [i64::MAX as u64]);
    assert_eq!(*m.saturating_add(BInt::<1>::one()).to_bits().digits(), [i64::MAX as u64]);
}

#[test]
fn signed_order() {
    for a in SAMPLES {
        for b in SAMPLES {
            let r = of_i128(a).compare(&of_i128(b));
            let want = a.cmp(&b);
            assert_eq!(matches!(r, Relation::Less), want == std::cmp::Ordering::Less);
            assert_eq!(matches!(r, Relation::Equal), want == std::cmp::Ordering::Equal);
            assert_eq!(matches!(r, Relation::Greater), want == std::cmp::Ordering::Greater);
            assert_eq!(of_i128(a).lt(&of_i128(b)), a < b);
            assert_eq!(of_i128(a) == of_i128(b), a == b);
        }
    }
}

#[test]
fn signed_mul_and_div() {
    for a in SAMPLES {
        assert_eq!(
            *of_i128(a).unsigned_abs().digits(),
            [a.unsigned_abs() as u64, (a.unsigned_abs() >> 64) as u64]
        );
        for b in SAMPLES {
            assert_eq!(of_i128(a).checked_mul(of_i128(b)).map(to_i128), a.checked_mul(b));
            assert_eq!(to_i128(of_i128(a).saturating_mul(of_i128(b))), a.saturating_mul(b));
            assert_eq!(of_i128(a).checked_div(of_i128(b)).map(to_i128), a.checked_div(b));
            assert_eq!(of_i128(a).checked_rem(of_i128(b)).map(to_i128), a.checked_rem(b));
            assert_eq!(of_i128(a).checked_div_euclid(of_i128(b)).map(to_i128), a.checked_div_euclid(b));
            assert_eq!(of_i128(a).checked_rem_euclid(of_i128(b)).map(to_i128), a.checked_rem_euclid(b));
            if b != 0 {
                assert_eq!(to_i128(of_i128(a).saturating_div(of_i128(b))), a.saturating_div(b));
                assert_eq!(to_i128(of_i128(a).wrapping_rem(of_i128(b))), a.wrapping_rem(b));
            }
        }
    }
    assert_eq!(to_i128(of_i128(-7).checked_div(of_i128(2)).unwrap()), -3);
    assert_eq!(to_i128(of_i128(-7).checked_rem(of_i128(2)).unwrap()), -1);
    assert_eq!(to_i128(of_i128(7).checked_rem(of_i128(-2)).unwrap()), 1);
}

#[test]
fn min_divided_by_minus_one_overflows() {
    assert!(I256::min_value().checked_div(I256::one().checked_neg().unwrap()).is_none());
    assert_eq!(
        I256::min_value().saturating_div(I256::one().checked_neg().unwrap()),
        I256::max_value()
    );
    assert!(I256::one().checked_div(I256::zero()).is_none());
}

#[test]
fn signed_widen_and_narrow() {
    for v in SAMPLES {
        let wide: I256 = of_i128(v).widen::<4>();
        let d = *wide.to_bits().digits();
        let fill = if v < 0 { u64::MAX } else { 0 };
        assert_eq!(d, [v as u64, ((v as u128) >> 64) as u64, fill, fill]);
        assert_eq!(wide.try_narrow::<2>().unwrap(), of_i128(v));
        let narrow = of_i128(v).try_narrow::<1>();
        match i64::try_from(v) {
            Ok(n) => assert_eq!(*narrow.unwrap().to_bits().digits(), [n as u64]),
            Err(_) => assert!(narrow.is_err()),
        }
    }
    let just_outside = I256::from_bits(BUint::from_digits([0, 1 << 63, 0, 0]));
    assert!(just_outside.try_narrow::<2>().is_err());
    let lowest = I256::from_bits(BUint::from_digits([0, 1 << 63, u64::MAX, u64::MAX]));
    assert_eq!(lowest.try_narrow::<2>().unwrap(), I128::min_value());
}

#[test]
fn signed_powers() {
    for a in [0i128, 1, -1, 2, -2, 3, -3, 10, -10, i128::MAX, i128::MIN] {
        for e in [0u32, 1, 2, 3, 63, 64, 126, 127, 128] {
            assert_eq!(of_i128(a).checked_pow(e).map(to_i128), a.checked_pow(e));
            assert_eq!(to_i128(of_i128(a).saturating_pow(e)), a.saturating_pow(e));
        }
    }
}

#[test]
fn signed_wrapping_variants() {
    for a in SAMPLES {
        assert_eq!(to_i128(I128::from_i128(a)), a);
        assert_eq!(to_i128(of_i128(a).wrapping_neg()), a.wrapping_neg());
        assert_eq!(to_i128(of_i128(a).wrapping_abs()), a.wrapping_abs());
        let (n, o) = of_i128(a).overflowing_neg();
        assert_eq!((to_i128(n), o), a.overflowing_neg());
        let (b, p) = of_i128(a).overflowing_abs();
        assert_eq!((to_i128(b), p), a.overflowing_abs());
        for c in SAMPLES {
            assert_eq!(to_i128(of_i128(a).wrapping_sub(of_i128(c))), a.wrapping_sub(c));
        }
    }
    let wide = I256::from_i128(-5);
    assert_eq!(*wide.to_bits().digits(), [(-5i64) as u64, u64::MAX, u64::MAX, u64::MAX]);
}

#[test]
fn euclidean_division_of_negatives() {
    let cases = [(-7i128, 2i128), (-7, -2), (7, -2), (7, 2), (-8, 2), (-8, -2), (0, -3), (i128::MIN, 3), (i128::MIN, -3)];
    for (a, b) in cases {
        let (q, r) = of_i128(a).checked_div_rem_euclid(of_i128(b)).unwrap();
        assert_eq!((to_i128(q), to_i128(r)), (a.div_euclid(b), a.rem_euclid(b)));
    }
    assert_eq!(to_i128(of_i128(-7).checked_div_euclid(of_i128(2)).unwrap()), -4);
    assert_eq!(to_i128(of_i128(-7).checked_rem_euclid(of_i128(2)).unwrap()), 1);
    assert_eq!(to_i128(of_i128(-7).checked_div_euclid(of_i128(-2)).unwrap()), 4);
    assert!(of_i128(i128::MIN).checked_div_rem_euclid(of_i128(-1)).is_none());
    assert!(of_i128(i128::MIN).checked_rem(of_i128(-1)).is_none());
    assert!(of_i128(5).checked_div_rem_euclid(of_i128(0)).is_none());
}
