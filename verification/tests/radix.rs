use bnum::{BUint, ParseIntError, U128, U256};

#[test]
fn format_255_in_hex() {
    assert_eq!(U256::from(255u64).to_str_radix(16), "ff");
}

#[test]
fn format_matches_native() {
    let samples = [0u128, 1, 9, 10, 35, 36, 255, 1 << 64, u128::MAX, 203583443659837459073490583937485738404];
    for v in samples {
        let u = U128::from(v);
        assert_eq!(u.to_str_radix(10), format!("{}", v));
        assert_eq!(u.to_str_radix(16), format!("{:x}", v));
        assert_eq!(u.to_str_radix(8), format!("{:o}", v));
        assert_eq!(u.to_str_radix(2), format!("{:b}", v));
    }
    assert_eq!(U128::from(35u64).to_str_radix(36), "z");
    assert_eq!(U128::from(36u64 * 36 + 10).to_str_radix(36), "10a");
    assert_eq!(U128::zero().to_radix_bytes(7), vec![b'0']);
}

#[test]
fn parse_matches_native() {
    for radix in [2u32, 3, 8, 10, 16, 36] {
        for text in ["0", "1", "000", "ff", "FF", "zz", "Zz", "1234567890", "340282366920938463463374607431768211455", "340282366920938463463374607431768211456", "ffffffffffffffffffffffffffffffff", "100000000000000000000000000000000"] {
            let got = U128::from_str_radix(text, radix);
            let want = u128::from_str_radix(text, radix);
            match (got, want) {
                (Ok(g), Ok(w)) => assert_eq!(g, U128::from(w)),
                (Err(_), Err(_)) => {}
                _ => panic!("parse of {} in radix {} differs", text, radix),
            }
        }
    }
}

#[test]
fn parse_errors() {
    assert_eq!(U128::from_str_radix("", 10), Err(ParseIntError::Empty));
    assert_eq!(U128::from_str_radix("12a", 10), Err(ParseIntError::InvalidDigit));
    assert_eq!(U128::from_str_radix("+12", 10), Err(ParseIntError::InvalidDigit));
    assert_eq!(U128::from_str_radix("-1", 10), Err(ParseIntError::InvalidDigit));
    assert_eq!(U128::from_str_radix("1 ", 10), Err(ParseIntError::InvalidDigit));
    assert_eq!(U128::from_str_radix("2", 2), Err(ParseIntError::InvalidDigit));
    assert_eq!(
        U128::from_str_radix("340282366920938463463374607431768211456", 10),
        Err(ParseIntError::PosOverflow)
    );
    assert_eq!(
        U128::from_str_radix("3402823669209384634633746074317682114550x", 10),
        Err(ParseIntError::PosOverflow)
    );
    assert_eq!(
        U128::from_str_radix("34x0282366920938463463374607431768211456000", 10),
        Err(ParseIntError::InvalidDigit)
    );
    assert_eq!(U128::from_radix_bytes(b"7f", 16), Ok(U128::from(127u64)));
    assert_eq!(ParseIntError::Empty.description(), "cannot parse integer from empty string");
    assert_eq!(ParseIntError::InvalidDigit.description(), "invalid digit found in string");
    assert_eq!(ParseIntError::PosOverflow.description(), "number too large to fit in target type");
}

#[test]
fn parse_of_format_round_trips() {
    let values = [
        BUint::<3>::zero(),
        BUint::<3>::one(),
        BUint::<3>::max_value(),
        BUint::<3>::from_digits([0x0123_4567_89ab_cdef, 0, 0xfedc_ba98_7654_3210]),
    ];
    for radix in 2..=36u32 {
        for x in values {
            let text = x.to_str_radix(radix);
            assert_eq!(BUint::<3>::from_str_radix(&text, radix), Ok(x));
        }
    }
}

#[test]
fn digit_characters() {
    assert_eq!(bnum::buint::radix::digit_char(0), b'0');
    assert_eq!(bnum::buint::radix::digit_char(9), b'9');
    assert_eq!(bnum::buint::radix::digit_char(10), b'a');
    assert_eq!(bnum::buint::radix::digit_char(35), b'z');
    assert_eq!(bnum::buint::radix::digit_of_char(b'Z', 36), Some(35));
    assert_eq!(bnum::buint::radix::digit_of_char(b'z', 35), None);
    assert_eq!(bnum::buint::radix::digit_of_char(b'/', 10), None);
    assert_eq!(bnum::buint::radix::digit_of_char(b':', 36), None);
}

fn signed(v: i128) -> bnum::I128 {
    bnum::I128::from_i128(v)
}

#[test]
fn signed_text() {
    for v in [0i128, 1, -1, 255, -255, i128::MAX, i128::MIN, -170141183460469231731687303715884105727] {
        for radix in [2u32, 10, 16, 36] {
            let text = signed(v).to_radix_bytes(radix);
            let native = if v < 0 {
                format!("-{}", U128::from(v.unsigned_abs()).to_str_radix(radix))
            } else {
                U128::from(v as u128).to_str_radix(radix)
            };
            assert_eq!(String::from_utf8(text.clone()).unwrap(), native);
            assert_eq!(bnum::I128::from_radix_bytes(&text, radix), Ok(signed(v)));
            assert_eq!(i128::from_str_radix(&native, radix), Ok(v));
        }
    }
    assert_eq!(signed(-255).to_radix_bytes(16), b"-ff".to_vec());
}

#[test]
fn signed_parse_errors() {
    let parse = |s: &str| bnum::I128::from_radix_bytes(s.as_bytes(), 10);
    assert_eq!(parse(""), Err(ParseIntError::Empty));
    assert_eq!(parse("-"), Err(ParseIntError::InvalidDigit));
    assert_eq!(parse("--1"), Err(ParseIntError::InvalidDigit));
    assert_eq!(parse("1-"), Err(ParseIntError::InvalidDigit));
    assert_eq!(parse("-0"), Ok(signed(0)));
    assert_eq!(parse("170141183460469231731687303715884105727"), Ok(signed(i128::MAX)));
    assert_eq!(parse("170141183460469231731687303715884105728"), Err(ParseIntError::PosOverflow));
    assert_eq!(parse("-170141183460469231731687303715884105728"), Ok(signed(i128::MIN)));
    assert_eq!(parse("-170141183460469231731687303715884105729"), Err(ParseIntError::NegOverflow));
    assert_eq!(parse("170141183460469231731687303715884105728x"), Err(ParseIntError::PosOverflow));
    assert_eq!(parse("-1701411834604692317316873037158841057280x"), Err(ParseIntError::NegOverflow));
    assert_eq!(parse("17014118346046923173168730371588410572x8"), Err(ParseIntError::InvalidDigit));
    assert_eq!(ParseIntError::NegOverflow.description(), "number too small to fit in target type");
}

#[test]
fn parse_up_to_a_limit() {
    let max = U128::from(99u64);
    assert_eq!(U128::from_radix_bytes_up_to(b"99", 10, &max), Ok(max));
    assert_eq!(U128::from_radix_bytes_up_to(b"100", 10, &max), Err(ParseIntError::PosOverflow));
    assert_eq!(U128::from_radix_bytes_up_to(b"100x", 10, &max), Err(ParseIntError::PosOverflow));
    assert_eq!(U128::from_radix_bytes_up_to(b"9x", 10, &max), Err(ParseIntError::InvalidDigit));
}
