use bnum::{BUint, U128};

#[test]
fn bit() {
    let u = U128::from(0b001010100101010101u128);
    assert!(u.bit(0));
    assert!(!u.bit(1));
    assert!(!u.bit(17));
    assert!(!u.bit(16));
    assert!(u.bit(15));
}

#[test]
fn is_zero() {
    assert!(U128::min_value().is_zero());
    assert!(!U128::max_value().is_zero());
    assert!(!U128::one().is_zero());
}

#[test]
fn is_one() {
    assert!(U128::one().is_one());
    assert!(!U128::max_value().is_one());
    assert!(!U128::zero().is_one());
}

#[test]
fn bits() {
    let u = U128::from(0b1001010100101010101u128);
    assert_eq!(u.bits(), 19);

    let u = U128::power_of_two(78);
    assert_eq!(u.bits(), 79);
}

#[test]
fn default() {
    assert_eq!(U128::default(), u128::default().into());
}

#[test]
fn is_power_of_two() {
    let power = U128::from(1u128 << 88);
    let non_power = U128::from((1u128 << 88) - 5);
    assert!(power.is_power_of_two());
    assert!(!non_power.is_power_of_two());
}

#[test]
fn mod_is_power_of_two() {
    let power = U128::from(1u128 << 88);
    let non_power = U128::from((1u128 << 88) - 5);
    assert!(power.is_power_of_two());
    assert!(!non_power.is_power_of_two());
}

#[test]
fn mod_bit() {
    let u = U128::from(0b001010100101010101u128);
    assert!(u.bit(0));
    assert!(!u.bit(1));
    assert!(!u.bit(17));
    assert!(!u.bit(16));
    assert!(u.bit(15));
}

#[test]
fn mod_is_zero() {
    assert!(U128::min_value().is_zero());
    assert!(!U128::max_value().is_zero());
    assert!(!U128::one().is_zero());
}

#[test]
fn mod_bits() {
    let u = U128::from(0b1001010100101010101u128);
    assert_eq!(u.bits(), 19);

    let u = U128::power_of_two(78);
    assert_eq!(u.bits(), 79);
}

fn to_u128(u: U128) -> u128 {
    let d = u.digits();
    (d[0] as u128) | ((d[1] as u128) << 64)
}

#[test]
fn from_u128_round_trip() {
    let v = 203583443659837459073490583937485738404u128;
    assert_eq!(to_u128(U128::from(v)), v);
    assert_eq!(to_u128(U128::from_u128(v)), v);
    assert_eq!(U128::from(7u64), U128::from_digit(7));
    assert_eq!(*BUint::<3>::from(v).digits(), [v as u64, (v >> 64) as u64, 0]);
}

#[test]
fn count_ones() {
    for v in [203583443659837459073490583937485738404u128, 3947594755489u128, 0, u128::MAX] {
        assert_eq!(U128::from(v).count_ones(), v.count_ones());
    }
}

#[test]
fn count_zeros() {
    for v in [7435098345734853045348057390485934908u128, 3985789475546u128, 0, u128::MAX] {
        assert_eq!(U128::from(v).count_zeros(), v.count_zeros());
    }
}

#[test]
fn count_ones_and_zeros_make_the_width() {
    for v in [0u128, 1, 3947594755489, u128::MAX, 1 << 127] {
        let u = U128::from(v);
        assert_eq!(u.count_ones() + u.count_zeros(), U128::bit_width());
    }
}

#[test]
fn leading_ones() {
    for v in [3948590439409853946593894579834793459u128, u128::MAX - 0b111, u128::MAX, 0] {
        assert_eq!(U128::from(v).leading_ones(), v.leading_ones());
    }
}

#[test]
fn leading_zeros() {
    for v in [49859830845963457783945789734895834754u128, 40545768945769u128, 0, u128::MAX] {
        assert_eq!(U128::from(v).leading_zeros(), v.leading_zeros());
    }
}

#[test]
fn trailing_ones() {
    for v in [45678345973495637458973488509345903458u128, u128::MAX, 0, (1 << 70) - 1] {
        assert_eq!(U128::from(v).trailing_ones(), v.trailing_ones());
    }
}

#[test]
fn trailing_zeros() {
    for v in [23488903477439859084534857349857034599u128, 343453454565u128, 0, 1 << 100] {
        assert_eq!(U128::from(v).trailing_zeros(), v.trailing_zeros());
    }
}

#[test]
fn bits_plus_leading_zeros_make_the_width() {
    for v in [0u128, 1, 40545768945769, u128::MAX] {
        let u = U128::from(v);
        assert_eq!(u.bits() + u.leading_zeros(), 128);
    }
}

#[test]
fn rotate_left() {
    let cases = [
        (394857348975983475983745983798579483u128, 5555u32),
        (4056890546059u128, 12),
        (u128::MAX - 1, 0),
        (5, 64),
        (5, 127),
        (5, 128),
    ];
    for (v, n) in cases {
        assert_eq!(to_u128(U128::from(v).rotate_left(n)), v.rotate_left(n));
    }
}

#[test]
fn rotate_right() {
    let cases = [
        (90845674987957297107197973489575938457u128, 10934u32),
        (1345978945679u128, 33),
        (u128::MAX - 1, 0),
        (5, 64),
        (5, 1),
        (5, 128),
    ];
    for (v, n) in cases {
        assert_eq!(to_u128(U128::from(v).rotate_right(n)), v.rotate_right(n));
    }
}

#[test]
fn rotate_left_then_right_restores() {
    let x = BUint::<3>::from_digits([0x0123_4567_89ab_cdef, 0xfedc_ba98_7654_3210, 0xdead_beef]);
    for k in [0u32, 1, 63, 64, 65, 100, 191, 192, 193, 5555] {
        assert_eq!(x.rotate_left(k).rotate_right(k), x);
    }
}

#[test]
fn rotate_takes_the_amount_modulo_the_width() {
    let x = BUint::<3>::from_digits([1, 0, 0]);
    assert_eq!(*x.rotate_left(192).digits(), [1, 0, 0]);
    assert_eq!(*x.rotate_left(191).digits(), [0, 0, 1 << 63]);
    assert_eq!(*x.rotate_left(193).digits(), [2, 0, 0]);
    assert_eq!(*x.rotate_right(1).digits(), [0, 0, 1 << 63]);
}

#[test]
fn swap_bytes() {
    for v in [3749589304858934758390485937458349058u128, 3405567798345u128] {
        assert_eq!(to_u128(U128::from(v).swap_bytes()), v.swap_bytes());
    }
}

#[test]
fn reverse_bits() {
    for v in [3345565093489578938485934957893745984u128, 608670986790835u128] {
        assert_eq!(to_u128(U128::from(v).reverse_bits()), v.reverse_bits());
    }
}

#[test]
fn shifts_match_native() {
    let v = 0x0123_4567_89ab_cdef_fedc_ba98_7654_3210u128;
    for s in [0u32, 1, 7, 63, 64, 65, 100, 127] {
        assert_eq!(to_u128(bnum::buint::shift::unchecked_shl(U128::from(v), s)), v << s);
        assert_eq!(to_u128(bnum::buint::shift::unchecked_shr(U128::from(v), s)), v >> s);
    }
}

#[test]
fn shift_by_the_width_is_out_of_range() {
    let x = U128::from(5u64);
    assert_eq!(x.checked_shl(0), Some(x));
    assert_eq!(x.checked_shl(128), None);
    assert_eq!(x.checked_shl(129), None);
    assert_eq!(x.checked_shr(128), None);
    assert_eq!(x.checked_shr(2), Some(U128::one()));
    assert_eq!(U128::max_value().checked_shl(127), Some(U128::power_of_two(127)));
}

#[test]
fn checked_next_power_of_two() {
    for v in [1340539475937597893475987u128, u128::MAX, 0, 1, 2, 3, 1 << 64, (1 << 64) + 1, 1 << 127, (1 << 127) + 1, u64::MAX as u128] {
        let got = U128::from(v).checked_next_power_of_two().map(to_u128);
        assert_eq!(got, v.checked_next_power_of_two());
    }
}

#[test]
fn next_power_of_two() {
    for v in [394857834758937458973489573894759879u128, 800345894358459u128] {
        assert_eq!(to_u128(U128::from(v).next_power_of_two()), v.next_power_of_two());
    }
}

#[test]
fn wrapping_next_power_of_two() {
    assert_eq!(U128::from(97495768945869084687890u128).wrapping_next_power_of_two(), U128::power_of_two(77));
    assert_eq!(U128::max_value().wrapping_next_power_of_two(), U128::zero());
}

#[test]
fn log2() {
    assert_eq!(U128::from(1u64).log2(), 0);
    assert_eq!(U128::from(u128::MAX).log2(), 127);
    assert_eq!(U128::from(1u128 << 64).log2(), 64);
    assert_eq!(U128::zero().checked_log2(), None);
    assert_eq!(U128::from(1000u64).checked_log2(), Some(9));
}

#[test]
fn to_exp_type() {
    assert_eq!(U128::zero().to_exp_type(), Some(0));
    assert_eq!(U128::from(u32::MAX as u64).to_exp_type(), Some(u32::MAX));
    assert_eq!(U128::from(u32::MAX as u64 + 1).to_exp_type(), None);
    assert_eq!(U128::from(1u128 << 64).to_exp_type(), None);
}

#[test]
fn to_mantissa() {
    assert_eq!(U128::zero().to_mantissa(), 0);
    assert_eq!(U128::from(12345u64).to_mantissa(), 12345);
    assert_eq!(U128::from(u64::MAX).to_mantissa(), u64::MAX);
    assert_eq!(U128::from(1u128 << 64).to_mantissa(), 1 << 63);
    assert_eq!(U128::from(u128::MAX).to_mantissa(), u64::MAX);
    let v = 0x1_2345_6789_abcd_ef01_2345u128;
    assert_eq!(U128::from(v).to_mantissa(), (v >> (128 - v.leading_zeros() - 64)) as u64);
}

#[test]
fn last_digit_index() {
    assert_eq!(BUint::<4>::zero().last_digit_index(), 0);
    assert_eq!(BUint::<4>::from_digits([1, 0, 5, 0]).last_digit_index(), 2);
    assert_eq!(BUint::<4>::from_digits([0, 0, 0, 9]).last_digit_index(), 3);
}

#[test]
fn min_and_max() {
    let a = U128::from(5u64);
    let b = U128::from(1u128 << 64);
    assert_eq!(a.min(&b), a);
    assert_eq!(a.max(&b), b);
    assert_eq!(b.min(&a), a);
    assert_eq!(a.max(&a), a);
    assert!(a < b);
    assert!(a.lt(&b) && a.le(&b) && a.le(&a) && !b.lt(&a));
    assert_eq!(a.cmp(&b), std::cmp::Ordering::Less);
    assert_eq!(b.cmp(&a), std::cmp::Ordering::Greater);
    assert_eq!(b.cmp(&b), std::cmp::Ordering::Equal);
}

#[test]
fn carrying_mul() {
    assert_eq!(bnum::digit::carrying_mul(u64::MAX, u64::MAX, u64::MAX, u64::MAX), (u64::MAX, u64::MAX));
    assert_eq!(bnum::digit::carrying_mul(3, 4, 5, 6), (23, 0));
    assert_eq!(bnum::digit::carrying_mul(1 << 63, 4, 1, 0), (1, 2));
}
