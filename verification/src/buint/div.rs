//! Division with remainder, by binary long division: from the top bit down,
//! the running remainder is doubled, the next bit of the dividend is brought
//! in, and where the remainder reaches the divisor the divisor is taken off
//! and the bit of the quotient is set. And the logarithms, which count how
//! often the base can be multiplied up without passing the value.
use crate::buint::arith::modulus;
use crate::buint::compare::Relation;
use crate::buint::BUint;
use crate::digit::ExpType;
use crate::model::{lemma_value_bound, lemma_value_zero_iff};
use crate::natbits::lemma_seq_bit_is_nat_bit;
use vstd::arithmetic::div_mod::{lemma_div_denominator, lemma_fundamental_div_mod_converse};
use vstd::arithmetic::power::{lemma_pow0, lemma_pow1, lemma_pow_adds, pow};
use vstd::arithmetic::power2::{
    lemma2_to64, lemma_pow2_pos, lemma_pow2_strictly_increases, lemma_pow2_unfold, pow2,
};
use vstd::prelude::*;

verus! {

/// `r` is the logarithm of `x` to the base `b`, rounded down.
pub open spec fn is_log(b: nat, x: nat, r: nat) -> bool {
    pow(b as int, r) <= x < pow(b as int, r + 1)
}

impl<const N: usize> BUint<N> {
    /// The quotient and the remainder of the division by `rhs`.
    pub fn div_rem(self, rhs: Self) -> (r: (Self, Self))
        requires
            Self::width_ok(),
            rhs.value() != 0,
        ensures
            r.0.value() == self.value() / rhs.value(),
            r.1.value() == self.value() % rhs.value(),
            self.value() == r.0.value() * rhs.value() + r.1.value(),
    {
        proof {
            lemma_value_zero_iff(rhs@);
            assert(rhs@.len() == N);
        }
        let ghost n = self.value();
        let ghost d = rhs.value();
        let ghost m = modulus(N as nat);
        let one = Self::one();
        let mut q = Self::zero();
        let mut rem = Self::zero();
        let mut i: u32 = Self::bit_width();
        proof {
            lemma_value_bound(self@);
            vstd::arithmetic::div_mod::lemma_basic_div(n as int, m as int);
            assert(0 * d == 0) by (nonlinear_arith);
        }
        while i > 0
            invariant
                Self::width_ok(),
                N > 0,
                i <= 64 * N,
                n == self.value(),
                d == rhs.value(),
                d > 0,
                m == modulus(N as nat),
                n < m,
                one.value() == 1,
                n / pow2(i as nat) == q.value() * d + rem.value(),
                rem.value() < d,
            decreases i,
        {
            i -= 1;
            let ghost x = n / pow2((i + 1) as nat);
            let ghost y = n / pow2(i as nat);
            let ghost qv = q.value();
            let ghost rv = rem.value();
            let bit = self.bit(i);
            proof {
                lemma_seq_bit_is_nat_bit(self@, i as int);
                lemma_pow2_pos(i as nat);
                lemma_pow2_unfold((i + 1) as nat);
                lemma_div_denominator(n as int, pow2(i as nat) as int, 2);
                assert(pow2(i as nat) * 2 == pow2((i + 1) as nat));
                assert(y / 2 == x);
                vstd::arithmetic::div_mod::lemma_div_nonincreasing(n as int, pow2(i as nat) as int);
                lemma_value_bound(rhs@);
                lemma_value_bound(rem@);
                lemma_value_bound(q@);
                assert((2 * qv + 1) * d == 2 * (qv * d) + d) by (nonlinear_arith);
                assert((2 * qv) * d == 2 * (qv * d)) by (nonlinear_arith);
                assert(qv * d >= qv) by (nonlinear_arith)
                    requires
                        d >= 1,
                ;
            }
            let (r2, c1) = rem.overflowing_add(rem);
            let (r3, c2) = if bit {
                r2.overflowing_add(one)
            } else {
                (r2, false)
            };
            let (q2, _c3) = q.overflowing_add(q);
            let reached = match r3.compare(&rhs) {
                Relation::Less => false,
                _ => true,
            };
            if c1 || c2 || reached {
                let (r4, _b) = r3.overflowing_sub(rhs);
                let (q3, _c4) = q2.overflowing_add(one);
                proof {
                    lemma_value_bound(r4@);
                    lemma_value_bound(q3@);
                }
                rem = r4;
                q = q3;
            } else {
                rem = r3;
                q = q2;
            }
        }
        proof {
            lemma2_to64();
            assert(q.value() * d == d * q.value()) by (nonlinear_arith);
            lemma_fundamental_div_mod_converse(
                n as int,
                d as int,
                q.value() as int,
                rem.value() as int,
            );
        }
        (q, rem)
    }

    /// The quotient of the division by `rhs`, or `None` where `rhs` is zero.
    pub fn checked_div(self, rhs: Self) -> (r: Option<Self>)
        requires
            Self::width_ok(),
        ensures
            r is None <==> rhs.value() == 0,
            r is Some ==> r->0.value() == self.value() / rhs.value(),
    {
        if rhs.is_zero() {
            None
        } else {
            Some(self.div_rem(rhs).0)
        }
    }

    /// The remainder of the division by `rhs`, or `None` where `rhs` is
    /// zero.
    pub fn checked_rem(self, rhs: Self) -> (r: Option<Self>)
        requires
            Self::width_ok(),
        ensures
            r is None <==> rhs.value() == 0,
            r is Some ==> r->0.value() == self.value() % rhs.value(),
    {
        if rhs.is_zero() {
            None
        } else {
            Some(self.div_rem(rhs).1)
        }
    }

    /// The quotient of the division by `rhs`, which is not zero. The
    /// division of unsigned values never leaves the width.
    pub fn wrapping_div(self, rhs: Self) -> (r: Self)
        requires
            Self::width_ok(),
            rhs.value() != 0,
        ensures
            r.value() == self.value() / rhs.value(),
    {
        self.div_rem(rhs).0
    }

    /// The remainder of the division by `rhs`, which is not zero.
    pub fn wrapping_rem(self, rhs: Self) -> (r: Self)
        requires
            Self::width_ok(),
            rhs.value() != 0,
        ensures
            r.value() == self.value() % rhs.value(),
    {
        self.div_rem(rhs).1
    }

    /// The quotient of the Euclidean division by `rhs`, which is not zero;
    /// for unsigned values the same as the quotient.
    pub fn wrapping_div_euclid(self, rhs: Self) -> (r: Self)
        requires
            Self::width_ok(),
            rhs.value() != 0,
        ensures
            r.value() == self.value() / rhs.value(),
    {
        self.wrapping_div(rhs)
    }

    /// The remainder of the Euclidean division by `rhs`, which is not zero;
    /// for unsigned values the same as the remainder.
    pub fn wrapping_rem_euclid(self, rhs: Self) -> (r: Self)
        requires
            Self::width_ok(),
            rhs.value() != 0,
        ensures
            r.value() == self.value() % rhs.value(),
    {
        self.wrapping_rem(rhs)
    }

    /// The quotient of the Euclidean division by `rhs`, which is not zero.
    /// All common definitions of division agree on values that are not
    /// negative, so this is the quotient.
    pub fn div_euclid(self, rhs: Self) -> (r: Self)
        requires
            Self::width_ok(),
            rhs.value() != 0,
        ensures
            r.value() == self.value() / rhs.value(),
    {
        self.wrapping_div_euclid(rhs)
    }

    /// The least remainder of `self` modulo `rhs`, which is not zero: the
    /// remainder of the division.
    pub fn rem_euclid(self, rhs: Self) -> (r: Self)
        requires
            Self::width_ok(),
            rhs.value() != 0,
        ensures
            r.value() == self.value() % rhs.value(),
    {
        self.wrapping_rem_euclid(rhs)
    }

    /// The logarithm to the base `base`, rounded down, or `None` where
    /// `self` is zero or `base` is below two.
    pub fn checked_log(self, base: Self) -> (r: Option<ExpType>)
        requires
            Self::width_ok(),
        ensures
            r is None <==> self.value() == 0 || base.value() < 2,
            r is Some ==> is_log(base.value(), self.value(), r->0 as nat),
    {
        if self.is_zero() {
            return None;
        }
        if base.is_zero() || base.is_one() {
            return None;
        }
        proof {
            lemma_value_zero_iff(self@);
            assert(self@.len() == N);
        }
        let ghost b = base.value() as int;
        let mut p = Self::one();
        let mut r: u32 = 0;
        proof {
            lemma_pow0(b);
            lemma2_to64();
        }
        loop
            invariant
                Self::width_ok(),
                N > 0,
                b == base.value(),
                b >= 2,
                p.value() == pow(b, r as nat),
                p.value() <= self.value(),
                p.value() >= pow2(r as nat),
            decreases self.value() - p.value(),
        {
            let ghost pv = p.value();
            proof {
                lemma_pow_adds(b, r as nat, 1);
                lemma_pow1(b);
                lemma_pow2_unfold((r + 1) as nat);
                lemma_value_bound(p@);
                if r >= 64 * N {
                    if r > 64 * N {
                        lemma_pow2_strictly_increases((64 * N) as nat, r as nat);
                    }
                }
                assert(pv * b >= 2 * pv) by (nonlinear_arith)
                    requires
                        b >= 2,
                        pv >= 0,
                ;
                lemma_pow2_pos(r as nat);
                lemma_value_bound(self@);
            }
            match p.checked_mul(base) {
                None => {
                    return Some(r);
                },
                Some(next) => {
                    if let Relation::Greater = next.compare(&self) {
                        return Some(r);
                    }
                    p = next;
                    r += 1;
                },
            }
        }
    }

    /// The logarithm to the base ten, rounded down, or `None` for zero.
    pub fn checked_log10(self) -> (r: Option<ExpType>)
        requires
            Self::width_ok(),
            N > 0,
        ensures
            r is None <==> self.value() == 0,
            r is Some ==> is_log(10, self.value(), r->0 as nat),
    {
        self.checked_log(Self::from_digit(10))
    }

    /// The logarithm to the base ten, rounded down, of a value that is not
    /// zero.
    pub fn log10(self) -> (r: ExpType)
        requires
            Self::width_ok(),
            self.value() != 0,
        ensures
            is_log(10, self.value(), r as nat),
    {
        proof {
            lemma_value_zero_iff(self@);
            assert(self@.len() == N);
        }
        match self.checked_log10() {
            Some(n) => n,
            None => 0,
        }
    }

    /// The logarithm to the base `base`, rounded down, of a value that is
    /// not zero, to a base that is at least two.
    pub fn log(self, base: Self) -> (r: ExpType)
        requires
            Self::width_ok(),
            self.value() != 0,
            base.value() >= 2,
        ensures
            is_log(base.value(), self.value(), r as nat),
    {
        match self.checked_log(base) {
            Some(n) => n,
            None => 0,
        }
    }
}

} // verus!
