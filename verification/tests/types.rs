use bnum::{
    TryFromIntError, I1024, I128, I2048, I256, I4096, I512, I8192, U1024, U128, U2048, U256,
    U4096, U512, U8192,
};

#[test]
fn test_int_bits() {
    assert_eq!(U128::bit_width(), 128);
    assert_eq!(I128::bit_width(), 128);
    assert_eq!(U256::bit_width(), 256);
    assert_eq!(I256::bit_width(), 256);
    assert_eq!(U512::bit_width(), 512);
    assert_eq!(I512::bit_width(), 512);
    assert_eq!(U1024::bit_width(), 1024);
    assert_eq!(I1024::bit_width(), 1024);
    assert_eq!(U2048::bit_width(), 2048);
    assert_eq!(I2048::bit_width(), 2048);
    assert_eq!(U4096::bit_width(), 4096);
    assert_eq!(I4096::bit_width(), 4096);
    assert_eq!(U8192::bit_width(), 8192);
    assert_eq!(I8192::bit_width(), 8192);
}

#[test]
fn test_from_to() {
    let u256 = U256::from(42_u64);
    let u512: U512 = u256.into();
    assert_eq!(u512, U512::from(42_u64));

    let u256: U256 = TryFrom::<U512>::try_from(u512).unwrap();
    assert_eq!(u256, U256::from(42_u64));

    let u256: Result<U256, TryFromIntError> = TryFrom::<U512>::try_from(U512::max_value());
    assert!(u256.is_err());

    let u256 = U256::max_value();
    let mut u512: U512 = u256.into();
    let _: U256 = TryFrom::<U512>::try_from(u512).unwrap();

    u512 = u512 + U512::one();
    assert!(!u512.is_zero());

    let u256: Result<U256, TryFromIntError> = TryFrom::<U512>::try_from(U512::max_value());
    assert!(u256.is_err());
}

#[test]
fn byte_widths() {
    assert_eq!(U128::byte_width(), 16);
    assert_eq!(I8192::byte_width(), 1024);
}

#[test]
fn widen_after_narrow_restores_what_fits() {
    let x = U512::from(u128::MAX);
    let y: U256 = x.narrow::<4>();
    assert_eq!(y.widen::<8>(), x);
    assert_eq!(x.try_narrow::<4>().unwrap(), y);

    let big = U512::from_digits([1, 2, 3, 4, 5, 0, 0, 0]);
    assert!(big.try_narrow::<4>().is_err());
    assert_eq!(*big.narrow::<4>().digits(), [1, 2, 3, 4]);
    assert!(big.narrow::<4>().widen::<8>() != big);
    let edge = U512::from_digits([0, 0, 0, 0, 1, 0, 0, 0]);
    assert!(edge.try_narrow::<4>().is_err());
    let fits = U512::from_digits([u64::MAX, u64::MAX, u64::MAX, u64::MAX, 0, 0, 0, 0]);
    assert_eq!(fits.try_narrow::<4>().unwrap(), U256::max_value());
}

#[test]
fn conversion_error_text() {
    let e = U512::max_value().try_narrow::<4>().unwrap_err();
    assert_eq!(e.description(), "out of range integral type conversion attempted");
}
