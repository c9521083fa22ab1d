//! The operators `+`, `-`, `*`, `/` and `%`. Each asks of its operands that
//! the result is a value of the type: no overflow, no division by zero.
use crate::buint::arith::modulus;
use crate::buint::compare::lemma_equal_by_value;
use crate::buint::{BUint, MAX_DIGITS};
use core::ops::{Add, Div, Mul, Rem, Sub};
use vstd::prelude::*;
use vstd::std_specs::ops::{AddSpecImpl, DivSpecImpl, MulSpecImpl, RemSpecImpl, SubSpecImpl};

verus! {

impl<const N: usize> BUint<N> {
    /// The value of the type that stands for the number `v`.
    pub open spec fn of_value(v: int) -> Self {
        choose|r: Self| r.value() == v
    }

    /// A value is the value of the type that stands for its number.
    pub proof fn lemma_of_value(self)
        ensures
            Self::of_value(self.value() as int) == self,
    {
        let c = Self::of_value(self.value() as int);
        assert(c.value() == self.value());
        lemma_equal_by_value(c, self);
    }
}

impl<const N: usize> Add for BUint<N> {
    type Output = Self;

    /// The sum, which the caller knows to fit the width.
    fn add(self, rhs: Self) -> (r: Self) {
        let r = self.wrapping_add(rhs);
        proof {
            vstd::arithmetic::div_mod::lemma_small_mod(
                self.value() + rhs.value(),
                modulus(N as nat),
            );
            r.lemma_of_value();
        }
        r
    }
}

impl<const N: usize> AddSpecImpl for BUint<N> {
    open spec fn obeys_add_spec() -> bool {
        true
    }

    open spec fn add_req(self, rhs: Self) -> bool {
        self.value() + rhs.value() < modulus(N as nat)
    }

    open spec fn add_spec(self, rhs: Self) -> Self {
        Self::of_value((self.value() + rhs.value()) as int)
    }
}

impl<const N: usize> Sub for BUint<N> {
    type Output = Self;

    /// The difference, which the caller knows not to be negative.
    fn sub(self, rhs: Self) -> (r: Self) {
        let r = self.wrapping_sub(rhs);
        proof {
            r.lemma_of_value();
        }
        r
    }
}

impl<const N: usize> SubSpecImpl for BUint<N> {
    open spec fn obeys_sub_spec() -> bool {
        true
    }

    open spec fn sub_req(self, rhs: Self) -> bool {
        self.value() >= rhs.value()
    }

    open spec fn sub_spec(self, rhs: Self) -> Self {
        Self::of_value(self.value() - rhs.value())
    }
}

impl<const N: usize> Mul for BUint<N> {
    type Output = Self;

    /// The product, which the caller knows to fit the width.
    fn mul(self, rhs: Self) -> (r: Self) {
        let r = self.wrapping_mul(rhs);
        proof {
            vstd::arithmetic::div_mod::lemma_small_mod(
                self.value() * rhs.value(),
                modulus(N as nat),
            );
            r.lemma_of_value();
        }
        r
    }
}

impl<const N: usize> MulSpecImpl for BUint<N> {
    open spec fn obeys_mul_spec() -> bool {
        true
    }

    open spec fn mul_req(self, rhs: Self) -> bool {
        self.value() * rhs.value() < modulus(N as nat)
    }

    open spec fn mul_spec(self, rhs: Self) -> Self {
        Self::of_value((self.value() * rhs.value()) as int)
    }
}

impl<const N: usize> Div for BUint<N> {
    type Output = Self;

    /// The quotient of the division by `rhs`, which the caller knows not to
    /// be zero.
    fn div(self, rhs: Self) -> (r: Self) {
        let r = self.wrapping_div(rhs);
        proof {
            r.lemma_of_value();
        }
        r
    }
}

impl<const N: usize> DivSpecImpl for BUint<N> {
    open spec fn obeys_div_spec() -> bool {
        true
    }

    open spec fn div_req(self, rhs: Self) -> bool {
        rhs.value() != 0 && N <= MAX_DIGITS
    }

    open spec fn div_spec(self, rhs: Self) -> Self {
        Self::of_value((self.value() / rhs.value()) as int)
    }
}

impl<const N: usize> Rem for BUint<N> {
    type Output = Self;

    /// The remainder of the division by `rhs`, which the caller knows not to
    /// be zero.
    fn rem(self, rhs: Self) -> (r: Self) {
        let r = self.wrapping_rem(rhs);
        proof {
            r.lemma_of_value();
        }
        r
    }
}

impl<const N: usize> RemSpecImpl for BUint<N> {
    open spec fn obeys_rem_spec() -> bool {
        true
    }

    open spec fn rem_req(self, rhs: Self) -> bool {
        rhs.value() != 0 && N <= MAX_DIGITS
    }

    open spec fn rem_spec(self, rhs: Self) -> Self {
        Self::of_value((self.value() % rhs.value()) as int)
    }
}

} // verus!
