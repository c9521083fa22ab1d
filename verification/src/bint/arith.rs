//! Signed order, and signed multiplication and division: the magnitudes go
//! through the unsigned arithmetic, and the sign of the result is put back.
use crate::bint::{BInt, half_modulus};

use crate::buint::compare::Relation;
use crate::buint::{BUint, MAX_DIGITS};
use crate::model::lemma_value_bound;
use crate::digit::lemma_halve;
use vstd::arithmetic::power::{lemma_pow0, lemma_pow1, lemma_pow_adds, lemma_pow_positive, pow};
use vstd::prelude::*;

verus! {

/// The absolute value of `x`.
pub open spec fn magnitude(x: int) -> nat {
    if x < 0 {
        (-x) as nat
    } else {
        x as nat
    }
}

/// The quotient of `a` by `b` rounded towards zero.
pub open spec fn truncated_quotient(a: int, b: int) -> int {
    if (a < 0) != (b < 0) {
        -((magnitude(a) / magnitude(b)) as int)
    } else {
        (magnitude(a) / magnitude(b)) as int
    }
}

/// The remainder that goes with the quotient rounded towards zero; it has
/// the sign of `a`.
pub open spec fn truncated_remainder(a: int, b: int) -> int {
    if a < 0 {
        -((magnitude(a) % magnitude(b)) as int)
    } else {
        (magnitude(a) % magnitude(b)) as int
    }
}

/// How the integer `a` stands to the integer `b`.
pub open spec fn int_relation_of(a: int, b: int) -> Relation {
    if a < b {
        Relation::Less
    } else if a == b {
        Relation::Equal
    } else {
        Relation::Greater
    }
}

/// A power of a negative number is the power of its magnitude, negated
/// where the exponent is odd.
pub proof fn lemma_pow_of_negative(a: int, e: nat)
    requires
        a < 0,
    ensures
        pow(a, e) == (if e % 2 == 1 {
            -pow(-a, e)
        } else {
            pow(-a, e)
        }),
    decreases e,
{
    if e == 0 {
        lemma_pow0(a);
        lemma_pow0(-a);
    } else {
        let f = (e - 1) as nat;
        lemma_pow_of_negative(a, f);
        lemma_pow_adds(a, 1, f);
        lemma_pow_adds(-a, 1, f);
        lemma_pow1(a);
        lemma_pow1(-a);
        let x = pow(-a, f);
        assert(a * x == -((-a) * x)) by (nonlinear_arith);
        assert(a * (-x) == (-a) * x) by (nonlinear_arith);
    }
}

/// Half the number of values of a type of at least one digit is above
/// four.
pub proof fn lemma_half_is_large(n: nat)
    requires
        n > 0,
    ensures
        half_modulus(n) > 4,
{
    vstd::arithmetic::power2::lemma2_to64();
    vstd::arithmetic::power2::lemma_pow2_strictly_increases(2, (64 * n - 1) as nat);
}

impl<const N: usize> BInt<N> {
    /// Raises to the power `exp`, or returns `None` where the power is
    /// outside the range of the type.
    pub fn checked_pow(self, exp: u32) -> (r: Option<Self>)
        requires
            N > 0,
        ensures
            r is Some <==> Self::min_int() <= pow(self@, exp as nat) <= Self::max_int(),
            r is Some ==> r->0@ == pow(self@, exp as nat),
    {
        let ghost a = self@;
        proof {
            self.lemma_range();
            lemma_halve(exp);
            if a < 0 {
                lemma_pow_of_negative(a, exp as nat);
                lemma_pow_positive(-a, exp as nat);
            } else if a > 0 {
                lemma_pow_positive(a, exp as nat);
            } else if exp > 0 {
                lemma_pow_adds(0, 1, (exp - 1) as nat);
                lemma_pow1(0);
                assert(0 * pow(0, (exp - 1) as nat) == 0) by (nonlinear_arith);
            } else {
                lemma_pow0(0);
            }
        }
        let negative = self.is_negative() && (exp & 1 == 1);
        match self.unsigned_abs().checked_pow(exp) {
            Some(mag) => Self::from_magnitude(mag, negative),
            None => None,
        }
    }

    /// Raises to the power `exp`; a power outside the range becomes the
    /// bound on its side.
    pub fn saturating_pow(self, exp: u32) -> (r: Self)
        requires
            N > 0,
        ensures
            r@ == crate::bint::saturating::clamped(
                pow(self@, exp as nat),
                Self::min_int(),
                Self::max_int(),
            ),
    {
        let ghost a = self@;
        proof {
            self.lemma_range();
            lemma_halve(exp);
            if a < 0 {
                lemma_pow_of_negative(a, exp as nat);
                lemma_pow_positive(-a, exp as nat);
            } else if a > 0 {
                lemma_pow_positive(a, exp as nat);
            } else if exp > 0 {
                lemma_pow_adds(0, 1, (exp - 1) as nat);
                lemma_pow1(0);
                assert(0 * pow(0, (exp - 1) as nat) == 0) by (nonlinear_arith);
            } else {
                lemma_pow0(0);
            }
        }
        match self.checked_pow(exp) {
            Some(pow) => pow,
            None => {
                if self.is_negative() && exp & 1 != 0 {
                    Self::min_value()
                } else {
                    Self::max_value()
                }
            },
        }
    }

    /// Compares the values: by sign where the signs differ, else by the
    /// bits, whose order is that of the values within one sign.
    pub fn compare(&self, other: &Self) -> (r: Relation)
        requires
            N > 0,
        ensures
            r == int_relation_of(self@, other@),
            r is Equal <==> self.bits@ == other.bits@,
    {
        proof {
            self.lemma_range();
            other.lemma_range();
        }
        let a = self.is_negative();
        let b = other.is_negative();
        if a && !b {
            Relation::Less
        } else if !a && b {
            Relation::Greater
        } else {
            self.bits.compare(&other.bits)
        }
    }

    /// Whether `self` is below `other`.
    pub fn lt(&self, other: &Self) -> (r: bool)
        requires
            N > 0,
        ensures
            r == (self@ < other@),
    {
        match self.compare(other) {
            Relation::Less => true,
            _ => false,
        }
    }

    /// The magnitude of the value, which always fits the unsigned type.
    pub fn unsigned_abs(self) -> (r: BUint<N>)
        requires
            N > 0,
        ensures
            r.value() == magnitude(self@),
    {
        proof {
            self.lemma_range();
            lemma_value_bound(self.bits@);
        }
        if self.is_negative() {
            BUint::<N>::zero().overflowing_sub(self.bits).0
        } else {
            self.bits
        }
    }

    /// The value with the magnitude `mag` and the sign asked for, or `None`
    /// where that value is outside the range of the type.
    pub fn from_magnitude(mag: BUint<N>, negative: bool) -> (r: Option<Self>)
        requires
            N > 0,
        ensures
            r is Some <==> (if negative {
                mag.value() <= half_modulus(N as nat)
            } else {
                mag.value() < half_modulus(N as nat)
            }),
            r is Some ==> r->0@ == (if negative {
                -(mag.value() as int)
            } else {
                mag.value() as int
            }),
    {
        proof {
            lemma_value_bound(mag@);
        }
        if negative {
            let bits = BUint::<N>::zero().overflowing_sub(mag).0;
            let v = Self::from_bits(bits);
            proof {
                v.lemma_range();
            }
            if mag.is_zero() || v.is_negative() {
                Some(v)
            } else {
                None
            }
        } else {
            let v = Self::from_bits(mag);
            proof {
                v.lemma_range();
            }
            if v.is_negative() {
                None
            } else {
                Some(v)
            }
        }
    }

    /// Multiplies by `rhs`, or returns `None` where the product is outside
    /// the range of the type.
    pub fn checked_mul(self, rhs: Self) -> (r: Option<Self>)
        requires
            N > 0,
        ensures
            r is Some <==> Self::min_int() <= self@ * rhs@ <= Self::max_int(),
            r is Some ==> r->0@ == self@ * rhs@,
    {
        let ghost a = self@;
        let ghost b = rhs@;
        proof {
            self.lemma_range();
            rhs.lemma_range();
            assert(magnitude(a) * magnitude(b) == magnitude(a * b)) by (nonlinear_arith);
            assert((a < 0) != (b < 0) ==> a * b <= 0) by (nonlinear_arith);
            assert((a < 0) == (b < 0) ==> a * b >= 0) by (nonlinear_arith);
        }
        let negative = self.is_negative() != rhs.is_negative();
        match self.unsigned_abs().checked_mul(rhs.unsigned_abs()) {
            Some(mag) => Self::from_magnitude(mag, negative),
            None => None,
        }
    }

    /// Multiplies by `rhs`; a product outside the range becomes the bound on
    /// its side.
    pub fn saturating_mul(self, rhs: Self) -> (r: Self)
        requires
            N > 0,
        ensures
            r@ == crate::bint::saturating::clamped(
                self@ * rhs@,
                Self::min_int(),
                Self::max_int(),
            ),
    {
        let ghost a = self@;
        let ghost b = rhs@;
        proof {
            self.lemma_range();
            assert((a < 0) != (b < 0) ==> a * b <= 0) by (nonlinear_arith);
            assert((a < 0) == (b < 0) ==> a * b >= 0) by (nonlinear_arith);
        }
        match self.checked_mul(rhs) {
            Some(mul) => mul,
            None => {
                if self.is_negative() == rhs.is_negative() {
                    Self::max_value()
                } else {
                    Self::min_value()
                }
            },
        }
    }

    /// The quotient of the division by `rhs`, rounded towards zero, or
    /// `None` where `rhs` is zero or the quotient is outside the range of
    /// the type: the smallest value divided by minus one.
    pub fn checked_div(self, rhs: Self) -> (r: Option<Self>)
        requires
            N > 0,
            N <= MAX_DIGITS,
        ensures
            r is None <==> rhs@ == 0 || (self@ == Self::min_int() && rhs@ == -1),
            r is Some ==> r->0@ == truncated_quotient(self@, rhs@),
    {
        let ghost a = self@;
        let ghost b = rhs@;
        proof {
            self.lemma_range();
            rhs.lemma_range();
        }
        if rhs.bits.is_zero() {
            return None;
        }
        let negative = self.is_negative() != rhs.is_negative();
        let da = self.unsigned_abs();
        let db = rhs.unsigned_abs();
        let q = da.div_rem(db).0;
        proof {
            let x = magnitude(a);
            let y = magnitude(b);
            vstd::arithmetic::div_mod::lemma_div_nonincreasing(x as int, y as int);
            if x == 0 {
                vstd::arithmetic::div_mod::lemma_basic_div(0, y as int);
            } else if y >= 2 {
                vstd::arithmetic::div_mod::lemma_div_decreases(x as int, y as int);
            } else {
                vstd::arithmetic::div_mod::lemma_div_basics(x as int);
            }
        }
        Self::from_magnitude(q, negative)
    }

    /// The remainder of the division by `rhs` that rounds towards zero, which
    /// has the sign of `self`; `rhs` is not zero. Unlike the quotient it is
    /// always a value of the type.
    pub fn wrapping_rem(self, rhs: Self) -> (r: Self)
        requires
            N > 0,
            N <= MAX_DIGITS,
            rhs@ != 0,
        ensures
            r@ == truncated_remainder(self@, rhs@),
    {
        let ghost a = self@;
        let ghost b = rhs@;
        proof {
            self.lemma_range();
            rhs.lemma_range();
        }
        let da = self.unsigned_abs();
        let db = rhs.unsigned_abs();
        let m = da.div_rem(db).1;
        proof {
            let x = magnitude(a);
            let y = magnitude(b);
            vstd::arithmetic::div_mod::lemma_mod_bound(x as int, y as int);
        }
        match Self::from_magnitude(m, self.is_negative()) {
            Some(r) => r,
            None => self,
        }
    }

    /// The remainder of the division by `rhs` that rounds towards zero, or
    /// `None` where `rhs` is zero or the division overflows: the smallest
    /// value divided by minus one. It has the sign of `self`.
    pub fn checked_rem(self, rhs: Self) -> (r: Option<Self>)
        requires
            N > 0,
            N <= MAX_DIGITS,
        ensures
            r is None <==> rhs@ == 0 || (self@ == Self::min_int() && rhs@ == -1),
            r is Some ==> r->0@ == truncated_remainder(self@, rhs@),
    {
        match self.checked_div(rhs) {
            Some(_) => Some(self.wrapping_rem(rhs)),
            None => None,
        }
    }

    /// The quotient and the remainder of the Euclidean division by `rhs`:
    /// the remainder is never negative and is below the magnitude of `rhs`.
    /// `None` where `rhs` is zero or the quotient is outside the range of
    /// the type: the smallest value divided by minus one.
    pub fn checked_div_rem_euclid(self, rhs: Self) -> (r: Option<(Self, Self)>)
        requires
            N > 0,
            N <= MAX_DIGITS,
        ensures
            r is None <==> rhs@ == 0 || (self@ == Self::min_int() && rhs@ == -1),
            match r {
                Some((q, m)) => self@ == q@ * rhs@ + m@ && 0 <= m@ < magnitude(rhs@),
                None => true,
            },
    {
        let ghost a = self@;
        let ghost b = rhs@;
        proof {
            self.lemma_range();
            rhs.lemma_range();
        }
        if rhs.bits.is_zero() {
            return None;
        }
        let da = self.unsigned_abs();
        let db = rhs.unsigned_abs();
        let (q, m) = da.div_rem(db);
        let ghost x = magnitude(a);
        let ghost y = magnitude(b);
        let ghost qv = q.value();
        let ghost mv = m.value();
        proof {
            vstd::arithmetic::div_mod::lemma_mod_bound(x as int, y as int);
            vstd::arithmetic::div_mod::lemma_div_nonincreasing(x as int, y as int);
            lemma_half_is_large(N as nat);
            assert(x == qv * y + mv);
            if mv > 0 {
                assert(2 * qv <= x) by (nonlinear_arith)
                    requires
                        x == qv * y + mv,
                        y >= 2,
                ;
            }
            if x == 0 {
                vstd::arithmetic::div_mod::lemma_basic_div(0, y as int);
            } else if y >= 2 {
                vstd::arithmetic::div_mod::lemma_div_decreases(x as int, y as int);
            } else {
                vstd::arithmetic::div_mod::lemma_div_basics(x as int);
            }
        }
        let rhs_negative = rhs.is_negative();
        if self.is_negative() && !m.is_zero() {
            // the remainder that rounds towards zero is negative: move one
            // step further from zero
            let up = q.overflowing_add(BUint::one()).0;
            let rest = db.overflowing_sub(m).0;
            proof {
                crate::model::lemma_value_bound(q@);
                assert(qv * b == -(qv * y) || qv * b == qv * y) by (nonlinear_arith)
                    requires
                        y == b || y == -b,
                ;
                assert((qv + 1) * b == qv * b + b) by (nonlinear_arith);
                assert(-((qv + 1) as int) * b == -(qv * b) - b) by (nonlinear_arith);
                assert(b > 0 ==> qv * b == qv * y) by (nonlinear_arith)
                    requires
                        b > 0 ==> y == b,
                ;
                assert(b < 0 ==> qv * b == -(qv * y)) by (nonlinear_arith)
                    requires
                        b < 0 ==> y == -b,
                ;
            }
            match (Self::from_magnitude(up, !rhs_negative), Self::from_magnitude(rest, false)) {
                (Some(quotient), Some(remainder)) => Some((quotient, remainder)),
                _ => None,
            }
        } else {
            proof {
                assert(b > 0 ==> qv * b == qv * y) by (nonlinear_arith)
                    requires
                        b > 0 ==> y == b,
                ;
                assert(b < 0 ==> qv * b == -(qv * y)) by (nonlinear_arith)
                    requires
                        b < 0 ==> y == -b,
                ;
                assert(-(qv as int) * b == -(qv * b)) by (nonlinear_arith);
            }
            match (
                Self::from_magnitude(q, self.is_negative() != rhs_negative),
                Self::from_magnitude(m, false),
            ) {
                (Some(quotient), Some(remainder)) => Some((quotient, remainder)),
                _ => None,
            }
        }
    }

    /// The quotient of the Euclidean division by `rhs`, or `None` where
    /// `rhs` is zero or the quotient is outside the range of the type.
    pub fn checked_div_euclid(self, rhs: Self) -> (r: Option<Self>)
        requires
            N > 0,
            N <= MAX_DIGITS,
        ensures
            r is None <==> rhs@ == 0 || (self@ == Self::min_int() && rhs@ == -1),
            r is Some ==> 0 <= self@ - r->0@ * rhs@ < magnitude(rhs@),
    {
        match self.checked_div_rem_euclid(rhs) {
            Some((q, _)) => Some(q),
            None => None,
        }
    }

    /// The remainder of the Euclidean division by `rhs`, which is never
    /// negative, or `None` where `rhs` is zero or the division overflows.
    pub fn checked_rem_euclid(self, rhs: Self) -> (r: Option<Self>)
        requires
            N > 0,
            N <= MAX_DIGITS,
        ensures
            r is None <==> rhs@ == 0 || (self@ == Self::min_int() && rhs@ == -1),
            r is Some ==> 0 <= r->0@ < magnitude(rhs@) && exists|q: int|
                self@ == #[trigger] (q * rhs@) + r->0@,
    {
        match self.checked_div_rem_euclid(rhs) {
            Some((q, m)) => {
                assert(self@ == (q@ * rhs@) + m@);
                Some(m)
            },
            None => None,
        }
    }

    /// The quotient of the division by `rhs`, which is not zero, rounded
    /// towards zero; the smallest value divided by minus one becomes the
    /// largest value.
    pub fn saturating_div(self, rhs: Self) -> (r: Self)
        requires
            N > 0,
            N <= MAX_DIGITS,
            rhs@ != 0,
        ensures
            r@ == (if self@ == Self::min_int() && rhs@ == -1 {
                Self::max_int()
            } else {
                truncated_quotient(self@, rhs@)
            }),
    {
        match self.checked_div(rhs) {
            Some(div) => div,
            None => Self::max_value(),
        }
    }
}

} // verus!
