//! The signed big integer: the two's-complement reading of an unsigned one.
use crate::buint::arith::modulus;
use crate::buint::{BUint, MAX_DIGITS};
use crate::digit::ExpType;
use crate::model::{lemma_top_bit, lemma_value_all_ones, lemma_value_bound, lemma_value_zero_iff};
use vstd::arithmetic::power2::pow2;
use vstd::prelude::*;

pub mod arith;
pub mod compare;
pub mod convert;
pub mod radix;
pub mod saturating;

verus! {

/// Half the number of values of `n` digits, `2^(64 n - 1)`: the number of
/// values that are not negative.
pub open spec fn half_modulus(n: nat) -> nat {
    pow2((64 * n - 1) as nat)
}

/// Signed integer of `N` digits of 64 bits in two's complement. The sign is
/// the top bit of the top digit; it is not stored apart.
#[derive(Clone, Copy, Debug, Hash)]
pub struct BInt<const N: usize> {
    pub bits: BUint<N>,
}

impl<const N: usize> View for BInt<N> {
    type V = int;

    /// The number that the bits stand for in two's complement.
    open spec fn view(&self) -> int {
        if self.bits.value() >= half_modulus(N as nat) {
            self.bits.value() - modulus(N as nat)
        } else {
            self.bits.value() as int
        }
    }
}

impl<const N: usize> BInt<N> {
    /// The smallest value of the type, `-2^(width - 1)`.
    pub open spec fn min_int() -> int {
        -(half_modulus(N as nat) as int)
    }

    /// The largest value of the type, `2^(width - 1) - 1`.
    pub open spec fn max_int() -> int {
        half_modulus(N as nat) - 1
    }

    /// Every value lies between the smallest and the largest.
    pub proof fn lemma_range(self)
        requires
            N > 0,
        ensures
            Self::min_int() <= self@ <= Self::max_int(),
            modulus(N as nat) == 2 * half_modulus(N as nat),
            self.bits.value() < modulus(N as nat),
    {
        lemma_top_bit(self.bits@);
        lemma_value_bound(self.bits@);
    }

    /// The width of the type in bits.
    pub fn bit_width() -> (r: ExpType)
        requires
            N <= MAX_DIGITS,
        ensures
            r == 64 * N,
    {
        BUint::<N>::bit_width()
    }

    /// The width of the type in bytes.
    pub fn byte_width() -> (r: ExpType)
        requires
            N <= MAX_DIGITS,
        ensures
            r == 8 * N,
    {
        BUint::<N>::byte_width()
    }

    /// Reads the bits of an unsigned value as two's complement.
    #[inline]
    pub fn from_bits(bits: BUint<N>) -> (r: Self)
        ensures
            r.bits == bits,
    {
        Self { bits }
    }

    /// The bits of the value.
    #[inline]
    pub fn to_bits(self) -> (r: BUint<N>)
        ensures
            r == self.bits,
    {
        self.bits
    }

    /// Zero.
    pub fn zero() -> (r: Self)
        ensures
            r.bits.value() == 0,
            N > 0 ==> r@ == 0,
    {
        let r = Self::from_bits(BUint::zero());
        proof {
            vstd::arithmetic::power2::lemma_pow2_pos((64 * N - 1) as nat);
        }
        r
    }

    /// One.
    pub fn one() -> (r: Self)
        requires
            N > 0,
        ensures
            r@ == 1,
    {
        let r = Self::from_bits(BUint::one());
        proof {
            lemma_top_bit(r.bits@);
        }
        r
    }

    /// The smallest value, `-2^(width - 1)`: only the sign bit is set.
    pub fn min_value() -> (r: Self)
        requires
            N > 0,
        ensures
            r@ == Self::min_int(),
            r.bits@ == Seq::new(
                N as nat,
                |i: int|
                    if i == N - 1 {
                        0x8000_0000_0000_0000u64
                    } else {
                        0u64
                    },
            ),
    {
        let mut bits = BUint::<N>::zero();
        let ghost before = bits@;
        bits.digits[N - 1] = 0x8000_0000_0000_0000;
        proof {
            assert(bits@ == before.update(N - 1, 0x8000_0000_0000_0000u64));
            let s = bits@;
            assert(s =~= Seq::new(
                N as nat,
                |i: int|
                    if i == N - 1 {
                        0x8000_0000_0000_0000u64
                    } else {
                        0u64
                    },
            ));
            lemma_top_bit(s);
            lemma_value_zero_iff(s.drop_last());
            vstd::arithmetic::power2::lemma2_to64_rest();
            vstd::arithmetic::power2::lemma_pow2_adds((64 * (N - 1)) as nat, 63);
            assert(0x8000_0000_0000_0000 * pow2((64 * (N - 1)) as nat) == pow2(
                (64 * (N - 1)) as nat,
            ) * 0x8000_0000_0000_0000) by (nonlinear_arith);
        }
        Self::from_bits(bits)
    }

    /// The largest value, `2^(width - 1) - 1`: every bit but the sign bit is
    /// set.
    pub fn max_value() -> (r: Self)
        requires
            N > 0,
        ensures
            r@ == Self::max_int(),
            r.bits@ == Seq::new(
                N as nat,
                |i: int|
                    if i == N - 1 {
                        0x7fff_ffff_ffff_ffffu64
                    } else {
                        u64::MAX
                    },
            ),
    {
        let mut bits = BUint::<N>::max_value();
        let ghost before = bits@;
        bits.digits[N - 1] = 0x7fff_ffff_ffff_ffff;
        proof {
            assert(bits@ == before.update(N - 1, 0x7fff_ffff_ffff_ffffu64));
            let s = bits@;
            assert(s =~= Seq::new(
                N as nat,
                |i: int|
                    if i == N - 1 {
                        0x7fff_ffff_ffff_ffffu64
                    } else {
                        u64::MAX
                    },
            ));
            lemma_top_bit(s);
            lemma_value_all_ones(s.drop_last());
            vstd::arithmetic::power2::lemma2_to64_rest();
            vstd::arithmetic::power2::lemma_pow2_adds((64 * (N - 1)) as nat, 63);
            let p = pow2((64 * (N - 1)) as nat);
            assert(0x7fff_ffff_ffff_ffff * p + p == p * 0x8000_0000_0000_0000)
                by (nonlinear_arith);
        }
        Self::from_bits(bits)
    }

    /// Whether the value is below zero: whether the sign bit is set.
    #[inline]
    pub fn is_negative(self) -> (r: bool)
        requires
            N > 0,
        ensures
            r == (self@ < 0),
            r == (self.bits.value() >= half_modulus(N as nat)),
    {
        proof {
            lemma_top_bit(self.bits@);
            lemma_value_bound(self.bits@);
        }
        let top = self.bits.digits[N - 1];
        assert((top >> 63 != 0) == (top >= 0x8000_0000_0000_0000)) by (bit_vector);
        (top >> 63) != 0
    }

    /// Whether the value is above zero.
    #[inline]
    pub fn is_positive(self) -> (r: bool)
        requires
            N > 0,
        ensures
            r == (self@ > 0),
    {
        !self.is_negative() && !self.bits.is_zero()
    }

    /// Adds `rhs`; returns the sum in two's complement at the width, and
    /// whether the sum left the range of the type.
    pub fn overflowing_add(self, rhs: Self) -> (r: (Self, bool))
        requires
            N > 0,
        ensures
            r.1 == !(Self::min_int() <= self@ + rhs@ <= Self::max_int()),
            !r.1 ==> r.0@ == self@ + rhs@,
            r.1 && self@ < 0 ==> r.0@ == self@ + rhs@ + modulus(N as nat),
            r.1 && self@ >= 0 ==> r.0@ == self@ + rhs@ - modulus(N as nat),
    {
        proof {
            self.lemma_range();
            rhs.lemma_range();
        }
        let (bits, _carry) = self.bits.overflowing_add(rhs.bits);
        let sum = Self::from_bits(bits);
        proof {
            sum.lemma_range();
        }
        let a = self.is_negative();
        let overflow = a == rhs.is_negative() && sum.is_negative() != a;
        (sum, overflow)
    }

    /// Adds `rhs`, or returns `None` where the sum is outside the range of
    /// the type.
    pub fn checked_add(self, rhs: Self) -> (r: Option<Self>)
        requires
            N > 0,
        ensures
            r is Some <==> Self::min_int() <= self@ + rhs@ <= Self::max_int(),
            r is Some ==> r->0@ == self@ + rhs@,
    {
        let (sum, overflow) = self.overflowing_add(rhs);
        if overflow {
            None
        } else {
            Some(sum)
        }
    }

    /// Adds `rhs` in two's complement at the width.
    pub fn wrapping_add(self, rhs: Self) -> (r: Self)
        requires
            N > 0,
        ensures
            Self::min_int() <= self@ + rhs@ <= Self::max_int() ==> r@ == self@ + rhs@,
            self@ + rhs@ > Self::max_int() ==> r@ == self@ + rhs@ - modulus(N as nat),
            self@ + rhs@ < Self::min_int() ==> r@ == self@ + rhs@ + modulus(N as nat),
    {
        proof {
            self.lemma_range();
            rhs.lemma_range();
        }
        self.overflowing_add(rhs).0
    }

    /// Subtracts `rhs`; returns the difference in two's complement at the
    /// width, and whether the difference left the range of the type.
    pub fn overflowing_sub(self, rhs: Self) -> (r: (Self, bool))
        requires
            N > 0,
        ensures
            r.1 == !(Self::min_int() <= self@ - rhs@ <= Self::max_int()),
            !r.1 ==> r.0@ == self@ - rhs@,
            r.1 && self@ < 0 ==> r.0@ == self@ - rhs@ + modulus(N as nat),
            r.1 && self@ >= 0 ==> r.0@ == self@ - rhs@ - modulus(N as nat),
    {
        proof {
            self.lemma_range();
            rhs.lemma_range();
        }
        let (bits, _borrow) = self.bits.overflowing_sub(rhs.bits);
        let diff = Self::from_bits(bits);
        proof {
            diff.lemma_range();
        }
        let a = self.is_negative();
        let overflow = a != rhs.is_negative() && diff.is_negative() != a;
        (diff, overflow)
    }

    /// Subtracts `rhs`, or returns `None` where the difference is outside the
    /// range of the type.
    pub fn checked_sub(self, rhs: Self) -> (r: Option<Self>)
        requires
            N > 0,
        ensures
            r is Some <==> Self::min_int() <= self@ - rhs@ <= Self::max_int(),
            r is Some ==> r->0@ == self@ - rhs@,
    {
        let (diff, overflow) = self.overflowing_sub(rhs);
        if overflow {
            None
        } else {
            Some(diff)
        }
    }

    /// Adds an unsigned value, or returns `None` where the sum is above the
    /// largest value of the type.
    pub fn checked_add_unsigned(self, rhs: BUint<N>) -> (r: Option<Self>)
        requires
            N > 0,
        ensures
            r is Some <==> self@ + rhs.value() <= Self::max_int(),
            r is Some ==> r->0@ == self@ + rhs.value(),
    {
        proof {
            self.lemma_range();
            lemma_value_bound(rhs@);
        }
        let (bits, carry) = self.bits.overflowing_add(rhs);
        let sum = Self::from_bits(bits);
        proof {
            sum.lemma_range();
        }
        let overflow = if self.is_negative() {
            carry && sum.is_negative()
        } else {
            carry || sum.is_negative()
        };
        if overflow {
            None
        } else {
            Some(sum)
        }
    }

    /// Subtracts an unsigned value, or returns `None` where the difference is
    /// below the smallest value of the type.
    pub fn checked_sub_unsigned(self, rhs: BUint<N>) -> (r: Option<Self>)
        requires
            N > 0,
        ensures
            r is Some <==> self@ - rhs.value() >= Self::min_int(),
            r is Some ==> r->0@ == self@ - rhs.value(),
    {
        proof {
            self.lemma_range();
            lemma_value_bound(rhs@);
        }
        let (bits, borrow) = self.bits.overflowing_sub(rhs);
        let diff = Self::from_bits(bits);
        proof {
            diff.lemma_range();
        }
        let overflow = if self.is_negative() {
            borrow || !diff.is_negative()
        } else {
            borrow && !diff.is_negative()
        };
        if overflow {
            None
        } else {
            Some(diff)
        }
    }

    /// Subtracts `rhs` in two's complement at the width.
    pub fn wrapping_sub(self, rhs: Self) -> (r: Self)
        requires
            N > 0,
        ensures
            Self::min_int() <= self@ - rhs@ <= Self::max_int() ==> r@ == self@ - rhs@,
            self@ - rhs@ > Self::max_int() ==> r@ == self@ - rhs@ - modulus(N as nat),
            self@ - rhs@ < Self::min_int() ==> r@ == self@ - rhs@ + modulus(N as nat),
    {
        proof {
            self.lemma_range();
            rhs.lemma_range();
        }
        self.overflowing_sub(rhs).0
    }

    /// The negation in two's complement at the width, and whether the
    /// negation is outside the range of the type: the smallest value is its
    /// own negation there.
    pub fn overflowing_neg(self) -> (r: (Self, bool))
        requires
            N > 0,
        ensures
            r.1 == (self@ == Self::min_int()),
            !r.1 ==> r.0@ == -self@,
            r.1 ==> r.0@ == self@,
    {
        proof {
            self.lemma_range();
        }
        let (bits, _borrow) = BUint::<N>::zero().overflowing_sub(self.bits);
        let neg = Self::from_bits(bits);
        proof {
            neg.lemma_range();
        }
        (neg, self.is_negative() && neg.is_negative())
    }

    /// The negation in two's complement at the width: that of the smallest
    /// value is the smallest value.
    pub fn wrapping_neg(self) -> (r: Self)
        requires
            N > 0,
        ensures
            self@ != Self::min_int() ==> r@ == -self@,
            self@ == Self::min_int() ==> r@ == self@,
    {
        self.overflowing_neg().0
    }

    /// The absolute value in two's complement at the width, and whether it is
    /// outside the range of the type: the smallest value is its own absolute
    /// value there.
    pub fn overflowing_abs(self) -> (r: (Self, bool))
        requires
            N > 0,
        ensures
            r.1 == (self@ == Self::min_int()),
            !r.1 ==> r.0@ == (if self@ < 0 {
                -self@
            } else {
                self@
            }),
            r.1 ==> r.0@ == self@,
    {
        proof {
            self.lemma_range();
        }
        if self.is_negative() {
            self.overflowing_neg()
        } else {
            (self, false)
        }
    }

    /// The absolute value in two's complement at the width: that of the
    /// smallest value is the smallest value.
    pub fn wrapping_abs(self) -> (r: Self)
        requires
            N > 0,
        ensures
            self@ != Self::min_int() ==> r@ == (if self@ < 0 {
                -self@
            } else {
                self@
            }),
            self@ == Self::min_int() ==> r@ == self@,
    {
        self.overflowing_abs().0
    }

    /// The value of a signed 128-bit number.
    pub fn from_i128(v: i128) -> (r: Self)
        requires
            N >= 2,
        ensures
            r@ == v,
    {
        let low = BInt::<2>::from_bits(BUint::<2>::from_u128(v as u128));
        proof {
            low.lemma_range();
            vstd::arithmetic::power2::lemma2_to64_rest();
            vstd::arithmetic::power2::lemma_pow2_adds(64, 64);
            vstd::arithmetic::power2::lemma_pow2_adds(64, 63);
            let u = v as u128;
            assert(v >= 0 ==> u == v) by (bit_vector)
                requires
                    u == v as u128,
            ;
            assert(v < 0 ==> u == v + 0x1_0000_0000_0000_0000_0000_0000_0000_0000) by (bit_vector)
                requires
                    u == v as u128,
            ;
            assert(pow2(128) == 0x1_0000_0000_0000_0000_0000_0000_0000_0000) by (nonlinear_arith)
                requires
                    pow2(128) == pow2(64) * pow2(64),
                    pow2(64) == 0x1_0000_0000_0000_0000,
            ;
            assert(pow2(127) == 0x8000_0000_0000_0000_0000_0000_0000_0000) by (nonlinear_arith)
                requires
                    pow2(127) == pow2(64) * pow2(63),
                    pow2(64) == 0x1_0000_0000_0000_0000,
                    pow2(63) == 0x8000_0000_0000_0000,
            ;
        }
        low.widen::<N>()
    }

    /// The negation: the complement plus one. Returns `None` for the smallest
    /// value, whose negation is above the largest.
    pub fn checked_neg(self) -> (r: Option<Self>)
        requires
            N > 0,
        ensures
            r is None <==> self@ == Self::min_int(),
            r is Some ==> r->0@ == -self@,
    {
        proof {
            self.lemma_range();
        }
        let (bits, _borrow) = BUint::<N>::zero().overflowing_sub(self.bits);
        let neg = Self::from_bits(bits);
        proof {
            neg.lemma_range();
        }
        if self.is_negative() && neg.is_negative() {
            None
        } else {
            Some(neg)
        }
    }

    /// The absolute value. Returns `None` for the smallest value, whose
    /// magnitude is above the largest.
    pub fn checked_abs(self) -> (r: Option<Self>)
        requires
            N > 0,
        ensures
            r is None <==> self@ == Self::min_int(),
            r is Some ==> r->0@ == (if self@ < 0 {
                -self@
            } else {
                self@
            }),
    {
        proof {
            self.lemma_range();
        }
        if self.is_negative() {
            self.checked_neg()
        } else {
            Some(self)
        }
    }
}

} // verus!
