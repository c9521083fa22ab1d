//! The distance of two values, and division rounded down and up.
use crate::buint::arith::modulus;
use crate::buint::compare::Relation;
use crate::buint::BUint;
use crate::model::lemma_value_bound;
use vstd::prelude::*;

verus! {

impl<const N: usize> BUint<N> {
    /// The distance between `self` and `other`.
    #[inline]
    pub fn abs_diff(self, other: Self) -> (r: Self)
        ensures
            r.value() == (if self.value() < other.value() {
                other.value() - self.value()
            } else {
                self.value() - other.value()
            }),
    {
        if let Relation::Less = self.compare(&other) {
            other.wrapping_sub(self)
        } else {
            self.wrapping_sub(other)
        }
    }

    /// The quotient of the division by `rhs`, which is not zero, rounded
    /// down.
    #[inline]
    pub fn div_floor(self, rhs: Self) -> (r: Self)
        requires
            Self::width_ok(),
            rhs.value() != 0,
        ensures
            r.value() == self.value() / rhs.value(),
    {
        self.wrapping_div(rhs)
    }

    /// The quotient of the division by `rhs`, which is not zero, rounded up.
    #[inline]
    pub fn div_ceil(self, rhs: Self) -> (r: Self)
        requires
            Self::width_ok(),
            rhs.value() != 0,
        ensures
            r.value() == self.value() / rhs.value() + (if self.value() % rhs.value() == 0 {
                0int
            } else {
                1int
            }),
    {
        let (div, rem) = self.div_rem(rhs);
        if rem.is_zero() {
            div
        } else {
            proof {
                lemma_value_bound(self@);
                let q = div.value();
                let d = rhs.value();
                assert(q * d >= 2 * q) by (nonlinear_arith)
                    requires
                        d >= 2,
                ;
            }
            div.overflowing_add(Self::one()).0
        }
    }

    /// The least multiple of `rhs`, which is not zero, that is not below
    /// `self`. The caller sees to it that this multiple fits the width.
    #[inline]
    pub fn next_multiple_of(self, rhs: Self) -> (r: Self)
        requires
            Self::width_ok(),
            rhs.value() != 0,
            self.value() % rhs.value() != 0 ==> self.value() + rhs.value() - self.value()
                % rhs.value() < modulus(N as nat),
        ensures
            r.value() == (if self.value() % rhs.value() == 0 {
                self.value() as int
            } else {
                self.value() + rhs.value() - self.value() % rhs.value()
            }),
    {
        let rem = self.wrapping_rem(rhs);
        if rem.is_zero() {
            self
        } else {
            proof {
                vstd::arithmetic::div_mod::lemma_mod_bound(
                    self.value() as int,
                    rhs.value() as int,
                );
            }
            self.overflowing_add(rhs.wrapping_sub(rem)).0
        }
    }
}

} // verus!
