//! The unsigned big integer: storage, construction and the counts of set and
//! clear bits.
use crate::digit::{
    Digit, digit_bit, ExpType, lemma_digit_bit_extremes, lemma_digit_ones_bound,
    lemma_leading_zeros_bits,
};
use crate::model::{
    digits_value, lemma_ones_bound, lemma_ones_take_step, lemma_value_first, lemma_value_high_zero,
    lemma_value_take_ends, lemma_value_zero_iff, seq_bit, seq_ones,
};
use vstd::prelude::*;
use vstd::std_specs::bits::u64_leading_zeros;

pub mod arith;
pub mod bits;
pub mod bitwise;
pub mod compare;
pub mod convert;
pub mod div;
pub mod endian;
pub mod gcd;
pub mod mul;
pub mod ops;
pub mod pow2;
pub mod power;
pub mod radix;
pub mod round;
pub mod shift;

verus! {

/// The largest digit count whose bit width still fits the type of bit counts.
pub const MAX_DIGITS: usize = 0x3ff_ffff;

/// Unsigned integer of `N` digits of 64 bits, least significant digit first.
/// Every digit array is a value: leading zero digits are allowed.
#[derive(Clone, Copy, Debug, Hash)]
pub struct BUint<const N: usize> {
    pub digits: [Digit; N],
}

impl<const N: usize> View for BUint<N> {
    type V = Seq<u64>;

    /// The digits, least significant first.
    open spec fn view(&self) -> Seq<u64> {
        self.digits@
    }
}

/// `r` is the length of the run of bits equal to `v` at the top of `s`.
pub open spec fn is_leading_run(s: Seq<u64>, v: bool, r: int) -> bool {
    &&& 0 <= r <= 64 * s.len()
    &&& forall|i: int| 64 * s.len() - r <= i < 64 * s.len() ==> seq_bit(s, i) == v
    &&& r < 64 * s.len() ==> seq_bit(s, 64 * s.len() - 1 - r) == !v
}

/// `r` is the length of the run of bits equal to `v` at the bottom of `s`.
pub open spec fn is_trailing_run(s: Seq<u64>, v: bool, r: int) -> bool {
    &&& 0 <= r <= 64 * s.len()
    &&& forall|i: int| 0 <= i < r ==> seq_bit(s, i) == v
    &&& r < 64 * s.len() ==> seq_bit(s, r) == !v
}

impl<const N: usize> BUint<N> {
    /// The number that the digits stand for.
    pub open spec fn value(&self) -> nat {
        digits_value(self@)
    }

    /// Whether bit `i` is set.
    pub open spec fn bit_at(&self, i: int) -> bool {
        seq_bit(self@, i)
    }

    /// The width of the type in bits.
    pub open spec fn width() -> nat {
        (64 * N) as nat
    }

    /// Bit counts of this type fit in `ExpType`.
    pub open spec fn width_ok() -> bool {
        N <= MAX_DIGITS
    }

    /// The width of the type in bits.
    pub fn bit_width() -> (r: ExpType)
        requires
            Self::width_ok(),
        ensures
            r == Self::width(),
    {
        64 * (N as u32)
    }

    /// The width of the type in bytes.
    pub fn byte_width() -> (r: ExpType)
        requires
            Self::width_ok(),
        ensures
            r == 8 * N,
    {
        8 * (N as u32)
    }

    /// Creates a value from its digits, least significant first.
    #[inline(always)]
    pub fn from_digits(digits: [Digit; N]) -> (r: Self)
        ensures
            r@ == digits@,
    {
        Self { digits }
    }

    /// The digits of `self`, least significant first.
    #[inline(always)]
    pub fn digits(&self) -> (r: &[Digit; N])
        ensures
            r@ == self@,
    {
        &self.digits
    }

    /// The value whose every digit is `d`.
    fn filled(d: Digit) -> (r: Self)
        ensures
            r@.len() == N,
            forall|i: int| 0 <= i < N ==> r@[i] == d,
    {
        Self { digits: [d; N] }
    }

    /// Zero.
    pub fn zero() -> (r: Self)
        ensures
            r@ == Seq::new(N as nat, |i: int| 0u64),
            r.value() == 0,
    {
        let r = Self::filled(0);
        proof {
            assert(r@ =~= Seq::new(N as nat, |i: int| 0u64));
            lemma_value_zero_iff(r@);
        }
        r
    }

    /// The smallest value, zero.
    pub fn min_value() -> (r: Self)
        ensures
            r@ == Seq::new(N as nat, |i: int| 0u64),
            r.value() == 0,
    {
        Self::zero()
    }

    /// The largest value, `2^width - 1`: every bit set.
    pub fn max_value() -> (r: Self)
        ensures
            r@ == Seq::new(N as nat, |i: int| u64::MAX),
            r.value() + 1 == vstd::arithmetic::power2::pow2((64 * N) as nat),
    {
        let r = Self::filled(u64::MAX);
        proof {
            assert(r@ =~= Seq::new(N as nat, |i: int| u64::MAX));
            crate::model::lemma_value_all_ones(r@);
        }
        r
    }

    /// Creates the value of a single digit, stored as the least significant.
    #[inline(always)]
    pub fn from_digit(digit: Digit) -> (r: Self)
        requires
            N > 0,
        ensures
            r@ == Seq::new(N as nat, |i: int| if i == 0 { digit } else { 0u64 }),
            r.value() == digit,
    {
        let mut out = Self::filled(0);
        out.digits[0] = digit;
        proof {
            assert(out@ =~= Seq::new(N as nat, |i: int| if i == 0 { digit } else { 0u64 }));
            lemma_value_high_zero(out@, 1);
            lemma_value_first(out@);
        }
        out
    }

    /// One.
    pub fn one() -> (r: Self)
        requires
            N > 0,
        ensures
            r@ == Seq::new(N as nat, |i: int| if i == 0 { 1u64 } else { 0u64 }),
            r.value() == 1,
    {
        Self::from_digit(1)
    }

    /// The number of set bits.
    #[inline]
    pub fn count_ones(self) -> (r: ExpType)
        requires
            Self::width_ok(),
        ensures
            r == seq_ones(self@),
    {
        let mut ones: u32 = 0;
        let mut i: usize = 0;
        while i < N
            invariant
                i <= N,
                N <= MAX_DIGITS,
                ones == seq_ones(self@.take(i as int)),
                ones <= 64 * i,
            decreases N - i,
        {
            proof {
                lemma_ones_take_step(self@, i as int);
                lemma_digit_ones_bound(self@[i as int]);
            }
            ones += self.digits[i].count_ones();
            i += 1;
        }
        proof {
            lemma_value_take_ends(self@);
        }
        ones
    }

    /// The number of clear bits: the width less the set bits.
    #[inline]
    pub fn count_zeros(self) -> (r: ExpType)
        requires
            Self::width_ok(),
        ensures
            r == Self::width() - seq_ones(self@),
    {
        let mut zeros: u32 = 0;
        let mut i: usize = 0;
        while i < N
            invariant
                i <= N,
                N <= MAX_DIGITS,
                zeros == 64 * i - seq_ones(self@.take(i as int)),
                zeros <= 64 * i,
            decreases N - i,
        {
            proof {
                lemma_ones_take_step(self@, i as int);
                lemma_digit_ones_bound(self@[i as int]);
                lemma_ones_bound(self@.take(i as int));
            }
            zeros += self.digits[i].count_zeros();
            i += 1;
        }
        proof {
            lemma_value_take_ends(self@);
        }
        zeros
    }

    /// The number of clear bits above the highest set bit.
    #[inline]
    pub fn leading_zeros(self) -> (r: ExpType)
        requires
            Self::width_ok(),
        ensures
            is_leading_run(self@, false, r as int),
    {
        let mut zeros: u32 = 0;
        let mut i: usize = N;
        let mut open: bool = true;
        while i > 0 && open
            invariant
                i <= N,
                N <= MAX_DIGITS,
                open ==> zeros == 64 * (N - i),
                open ==> forall|j: int| i <= j < N ==> self@[j] == 0,
                !open ==> is_leading_run(self@, false, zeros as int),
            decreases i,
        {
            i -= 1;
            let digit = self.digits[i];
            proof {
                lemma_leading_zeros_bits(digit);
            }
            zeros += digit.leading_zeros();
            if digit != 0 {
                open = false;
                proof {
                    let s = self@;
                    assert forall|k: int| 64 * s.len() - zeros <= k < 64 * s.len() implies seq_bit(
                        s,
                        k,
                    ) == false by {
                        lemma_digit_bit_extremes(k % 64);
                    }
                    assert(seq_bit(s, 64 * s.len() - 1 - zeros) == digit_bit(
                        digit,
                        63 - u64_leading_zeros(digit),
                    ));
                }
            }
        }
        proof {
            if open {
                let s = self@;
                assert forall|k: int| 0 <= k < 64 * s.len() implies seq_bit(s, k) == false by {
                    lemma_digit_bit_extremes(k % 64);
                }
            }
        }
        zeros
    }
}

} // verus!
