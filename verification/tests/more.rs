use bnum::{BUint, U128, U256};

fn big(v: u128) -> U128 {
    U128::from(v)
}

const A: u128 = 0x0123_4567_89ab_cdef_fedc_ba98_7654_3210;
const B: u128 = 0xdead_beef_0000_ffff_1234_0000_8765_4321;

#[test]
fn bitwise_operations() {
    assert_eq!(big(A).not().to_u128(), Some(!A));
    assert_eq!(big(A).bitand(big(B)).to_u128(), Some(A & B));
    assert_eq!(big(A).bitor(big(B)).to_u128(), Some(A | B));
    assert_eq!(big(A).bitxor(big(B)).to_u128(), Some(A ^ B));
}

#[test]
fn to_u128_fits_or_not() {
    assert_eq!(U256::from(A).to_u128(), Some(A));
    assert_eq!(U256::from_digits([1, 2, 0, 0]).to_u128(), Some(1 + (2u128 << 64)));
    assert_eq!(U256::from_digits([1, 2, 1, 0]).to_u128(), None);
    assert_eq!(U256::from_digits([0, 0, 0, 1]).to_u128(), None);
    assert_eq!(BUint::<1>::from_digit(9).to_u128(), Some(9));
    assert_eq!(BUint::<0>::zero().to_u128(), Some(0));
}

#[test]
fn distance_and_rounded_division() {
    assert_eq!(big(5).abs_diff(big(9)).to_u128(), Some(4));
    assert_eq!(big(9).abs_diff(big(5)).to_u128(), Some(4));
    assert_eq!(big(A).abs_diff(big(A)).to_u128(), Some(0));
    assert_eq!(big(A).div_floor(big(1000)).to_u128(), Some(A / 1000));
    assert_eq!(big(A).div_ceil(big(1000)).to_u128(), Some(A / 1000 + 1));
    assert_eq!(big(9000).div_ceil(big(1000)).to_u128(), Some(9));
    assert_eq!(big(u128::MAX).div_ceil(big(2)).to_u128(), Some(1 << 127));
    assert_eq!(big(16).next_multiple_of(big(8)).to_u128(), Some(16));
    assert_eq!(big(23).next_multiple_of(big(8)).to_u128(), Some(24));
    assert_eq!(big(0).next_multiple_of(big(8)).to_u128(), Some(0));
}

#[test]
fn bytes_least_significant_first() {
    assert_eq!(big(A).to_le_bytes(), A.to_le_bytes().to_vec());
    assert_eq!(U128::from_le_slice(&B.to_le_bytes()), Some(big(B)));
    assert_eq!(U128::from_le_slice(&[1, 2]), Some(big(0x0201)));
    assert_eq!(U128::from_le_slice(&[]), Some(big(0)));
    let mut long = B.to_le_bytes().to_vec();
    long.push(0);
    assert_eq!(U128::from_le_slice(&long), Some(big(B)));
    long.push(1);
    assert_eq!(U128::from_le_slice(&long), None);
}

#[test]
fn bytes_most_significant_first() {
    assert_eq!(big(A).to_be_bytes(), A.to_be_bytes().to_vec());
    assert_eq!(U128::from_be_slice(&B.to_be_bytes()), Some(big(B)));
    assert_eq!(U128::from_be_slice(&[1, 2]), Some(big(0x0102)));
    let mut long = vec![0u8];
    long.extend_from_slice(&B.to_be_bytes());
    assert_eq!(U128::from_be_slice(&long), Some(big(B)));
    long.insert(0, 1);
    assert_eq!(U128::from_be_slice(&long), None);
}

#[test]
fn digit_bytes() {
    assert_eq!(
        bnum::buint::endian::digit_from_bytes([1, 2, 3, 4, 5, 6, 7, 8]),
        u64::from_le_bytes([1, 2, 3, 4, 5, 6, 7, 8])
    );
    assert_eq!(bnum::buint::endian::byte_of_digit(0x0807_0605_0403_0201, 6), 7);
}

#[test]
fn power_of_two_values() {
    assert_eq!(U128::power_of_two(0), big(1));
    assert_eq!(U128::power_of_two(64), big(1 << 64));
    assert_eq!(U128::power_of_two(127), big(1 << 127));
    assert!(!U128::zero().is_power_of_two());
    assert!(U128::one().is_power_of_two());
    assert!(!U128::max_value().is_power_of_two());
}

#[test]
fn padded_right_shift() {
    use_pad_cases();
}

fn use_pad_cases() {
    let v = 0x8123_4567_89ab_cdef_fedc_ba98_7654_3210u128;
    for s in [0u32, 1, 7, 63, 64, 65, 100, 127] {
        let zero = bnum::buint::shift::unchecked_shr_pad::<2, 0>(big(v), s);
        assert_eq!(zero.to_u128(), Some(v >> s));
        let ones = bnum::buint::shift::unchecked_shr_pad::<2, { u64::MAX }>(big(v), s);
        assert_eq!(ones.to_u128(), Some(((v as i128) >> s) as u128));
    }
    let odd = bnum::buint::shift::unchecked_shr_pad::<3, 5>(BUint::<3>::max_value(), 68);
    assert_eq!(*odd.digits(), [u64::MAX, u64::MAX >> 4, 5]);
}

#[test]
fn wrapping_and_overflowing_shifts() {
    for s in [0u32, 1, 64, 127, 128, 129, 300] {
        let (l, lo) = big(A).overflowing_shl(s);
        assert_eq!((l.to_u128().unwrap(), lo), A.overflowing_shl(s));
        let (r, ro) = big(A).overflowing_shr(s);
        assert_eq!((r.to_u128().unwrap(), ro), A.overflowing_shr(s));
        assert_eq!(big(A).wrapping_shl(s).to_u128(), Some(A.wrapping_shl(s)));
        assert_eq!(big(A).wrapping_shr(s).to_u128(), Some(A.wrapping_shr(s)));
    }
}

#[test]
fn largest_value() {
    assert_eq!(U128::max_value().to_u128(), Some(u128::MAX));
    assert_eq!(U128::max_value().count_ones(), 128);
    assert_eq!(U128::min_value().count_zeros(), 128);
}

#[test]
fn from_small_native_integers() {
    assert_eq!(U128::from(200u8), big(200));
    assert_eq!(U128::from(60000u16), big(60000));
    assert_eq!(U128::from(4000000000u32), big(4000000000));
    assert_eq!(U128::from(u64::MAX), big(u64::MAX as u128));
    assert_eq!(BUint::<1>::from(1u128 << 64), BUint::<1>::zero());
}
