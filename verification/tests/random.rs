use bnum::buint::shift::{unchecked_shl, unchecked_shr};
use bnum::{BUint, I128, U128};

struct Lcg(u64);

impl Lcg {
    fn next(&mut self) -> u64 {
        self.0 = self.0.wrapping_mul(6364136223846793005).wrapping_add(1442695040888963407);
        let x = self.0;
        // vary the magnitude so that small values and carries both occur
        match (x >> 60) & 7 {
            0 => 0,
            1 => x >> 56 & 0xff,
            2 => u64::MAX,
            3 => x | 0xffff_ffff_0000_0000,
            _ => x.rotate_left(17) ^ (x >> 3),
        }
    }

    fn wide(&mut self) -> u128 {
        ((self.next() as u128) << 64) | self.next() as u128
    }
}

fn big(v: u128) -> U128 {
    U128::from(v)
}

fn native(u: U128) -> u128 {
    u.to_u128().unwrap()
}

#[test]
fn unsigned_operations_agree_with_native() {
    let mut rng = Lcg(0x1234_5678_9abc_def0);
    for _ in 0..400 {
        let a = rng.wide();
        let b = rng.wide();
        let s = (rng.next() % 200) as u32;
        let (x, y) = (big(a), big(b));
        assert_eq!(native(x.wrapping_add(y)), a.wrapping_add(b));
        assert_eq!(native(x.wrapping_sub(y)), a.wrapping_sub(b));
        assert_eq!(native(x.wrapping_mul(y)), a.wrapping_mul(b));
        assert_eq!(x.checked_add(y).map(native), a.checked_add(b));
        assert_eq!(x.checked_sub(y).map(native), a.checked_sub(b));
        assert_eq!(x.checked_mul(y).map(native), a.checked_mul(b));
        assert_eq!(x.checked_div(y).map(native), a.checked_div(b));
        assert_eq!(x.checked_rem(y).map(native), a.checked_rem(b));
        assert_eq!(x.cmp(&y), a.cmp(&b));
        assert_eq!(x == y, a == b);
        assert_eq!(x.count_ones(), a.count_ones());
        assert_eq!(x.leading_zeros(), a.leading_zeros());
        assert_eq!(x.trailing_zeros(), a.trailing_zeros());
        assert_eq!(x.leading_ones(), a.leading_ones());
        assert_eq!(x.trailing_ones(), a.trailing_ones());
        assert_eq!(x.is_power_of_two(), a.is_power_of_two());
        assert_eq!(x.checked_next_power_of_two().map(native), a.checked_next_power_of_two());
        assert_eq!(native(x.rotate_left(s)), a.rotate_left(s));
        assert_eq!(native(x.rotate_right(s)), a.rotate_right(s));
        assert_eq!(x.checked_shl(s).map(native), a.checked_shl(s));
        assert_eq!(x.checked_shr(s).map(native), a.checked_shr(s));
        assert_eq!(native(x.swap_bytes()), a.swap_bytes());
        assert_eq!(native(x.reverse_bits()), a.reverse_bits());
        assert_eq!(x.checked_log2(), a.checked_ilog2());
        assert_eq!(x.checked_log10(), a.checked_ilog10());
        assert_eq!(x.checked_pow(s % 7).map(native), a.checked_pow(s % 7));
        assert_eq!(native(x.wrapping_pow(s)), a.wrapping_pow(s));
        assert_eq!(x.to_str_radix(10), a.to_string());
        assert_eq!(U128::from_str_radix(&a.to_string(), 10), Ok(x));
        assert_eq!(x.to_le_bytes(), a.to_le_bytes().to_vec());
        assert_eq!(x.to_mantissa(), if a == 0 { 0 } else { (a << a.leading_zeros() >> 64) as u64 >> (if a.leading_zeros() > 64 { a.leading_zeros() - 64 } else { 0 }) });
    }
}

#[test]
fn signed_operations_agree_with_native() {
    let mut rng = Lcg(0x0fed_cba9_8765_4321);
    for _ in 0..400 {
        let a = rng.wide() as i128;
        let b = rng.wide() as i128;
        let (x, y) = (I128::from_i128(a), I128::from_i128(b));
        let val = |i: I128| i.to_bits().to_u128().unwrap() as i128;
        assert_eq!(x.checked_add(y).map(val), a.checked_add(b));
        assert_eq!(x.checked_sub(y).map(val), a.checked_sub(b));
        assert_eq!(x.checked_mul(y).map(val), a.checked_mul(b));
        assert_eq!(x.checked_div(y).map(val), a.checked_div(b));
        assert_eq!(x.checked_rem(y).map(val), a.checked_rem(b));
        assert_eq!(x.checked_div_euclid(y).map(val), a.checked_div_euclid(b));
        assert_eq!(x.checked_rem_euclid(y).map(val), a.checked_rem_euclid(b));
        assert_eq!(val(x.saturating_add(y)), a.saturating_add(b));
        assert_eq!(val(x.saturating_sub(y)), a.saturating_sub(b));
        assert_eq!(val(x.saturating_mul(y)), a.saturating_mul(b));
        assert_eq!(x.lt(&y), a < b);
        assert_eq!(String::from_utf8(x.to_radix_bytes(10)).unwrap(), a.to_string());
    }
}

#[test]
fn three_digit_values_are_consistent() {
    let mut rng = Lcg(42);
    for _ in 0..60 {
        let a = BUint::<3>::from_digits([rng.next(), rng.next(), rng.next()]);
        let b = BUint::<3>::from_digits([rng.next(), rng.next(), rng.next() >> 40]);
        let s = (rng.next() % 192) as u32;
        if !b.is_zero() {
            let (q, r) = a.div_rem(b);
            assert!(r < b);
            assert_eq!(q.checked_mul(b).unwrap().checked_add(r).unwrap(), a);
        }
        let g = a.gcd(b);
        assert_eq!(g, b.gcd(a));
        if !g.is_zero() {
            assert!(a.rem_euclid(g).is_zero());
            assert!(b.rem_euclid(g).is_zero());
        }
        assert_eq!(a.rotate_left(s).rotate_right(s), a);
        assert_eq!(a.count_ones() + a.count_zeros(), 192);
        assert_eq!(a.bits() + a.leading_zeros(), 192);
        assert_eq!(unchecked_shr(unchecked_shl(a, s), s), a.bitand(unchecked_shr(BUint::<3>::max_value(), s)));
        assert_eq!(a.not().not(), a);
        assert_eq!(a.bitxor(b).bitxor(b), a);
        assert_eq!(BUint::<3>::from_le_slice(&a.to_le_bytes()), Some(a));
        assert_eq!(BUint::<3>::from_be_slice(&a.to_be_bytes()), Some(a));
        for radix in [2u32, 7, 10, 16, 36] {
            assert_eq!(BUint::<3>::from_str_radix(&a.to_str_radix(radix), radix), Ok(a));
        }
        assert_eq!(a.widen::<5>().try_narrow::<3>().unwrap(), a);
    }
}
