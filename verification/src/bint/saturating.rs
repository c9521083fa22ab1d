//! Saturating arithmetic: a result outside the range of the type is replaced
//! by the bound that it passed.
use crate::bint::BInt;
use crate::buint::BUint;
use vstd::prelude::*;

verus! {

/// `x` held to the range from `lo` to `hi`.
pub open spec fn clamped(x: int, lo: int, hi: int) -> int {
    if x < lo {
        lo
    } else if x > hi {
        hi
    } else {
        x
    }
}

impl<const N: usize> BInt<N> {
    /// Adds `rhs`; a sum outside the range becomes the bound on its side.
    #[inline]
    pub fn saturating_add(self, rhs: Self) -> (r: Self)
        requires
            N > 0,
        ensures
            r@ == clamped(self@ + rhs@, Self::min_int(), Self::max_int()),
    {
        proof {
            self.lemma_range();
            rhs.lemma_range();
        }
        match self.checked_add(rhs) {
            Some(add) => add,
            None => {
                if self.is_negative() {
                    Self::min_value()
                } else {
                    Self::max_value()
                }
            },
        }
    }

    /// Adds an unsigned value; a sum above the range becomes the largest
    /// value.
    #[inline]
    pub fn saturating_add_unsigned(self, rhs: BUint<N>) -> (r: Self)
        requires
            N > 0,
        ensures
            r@ == clamped(self@ + rhs.value(), Self::min_int(), Self::max_int()),
    {
        proof {
            self.lemma_range();
        }
        match self.checked_add_unsigned(rhs) {
            Some(i) => i,
            None => Self::max_value(),
        }
    }

    /// Subtracts `rhs`; a difference outside the range becomes the bound on
    /// its side.
    #[inline]
    pub fn saturating_sub(self, rhs: Self) -> (r: Self)
        requires
            N > 0,
        ensures
            r@ == clamped(self@ - rhs@, Self::min_int(), Self::max_int()),
    {
        proof {
            self.lemma_range();
            rhs.lemma_range();
        }
        match self.checked_sub(rhs) {
            Some(add) => add,
            None => {
                if self.is_negative() {
                    Self::min_value()
                } else {
                    Self::max_value()
                }
            },
        }
    }

    /// Subtracts an unsigned value; a difference below the range becomes the
    /// smallest value.
    #[inline]
    pub fn saturating_sub_unsigned(self, rhs: BUint<N>) -> (r: Self)
        requires
            N > 0,
        ensures
            r@ == clamped(self@ - rhs.value(), Self::min_int(), Self::max_int()),
    {
        proof {
            self.lemma_range();
        }
        match self.checked_sub_unsigned(rhs) {
            Some(i) => i,
            None => Self::min_value(),
        }
    }

    /// The negation; that of the smallest value becomes the largest value.
    #[inline]
    pub fn saturating_neg(self) -> (r: Self)
        requires
            N > 0,
        ensures
            r@ == clamped(-self@, Self::min_int(), Self::max_int()),
    {
        proof {
            self.lemma_range();
        }
        match self.checked_neg() {
            Some(neg) => neg,
            None => Self::max_value(),
        }
    }

    /// The absolute value; that of the smallest value becomes the largest
    /// value.
    #[inline]
    pub fn saturating_abs(self) -> (r: Self)
        requires
            N > 0,
        ensures
            r@ == clamped(
                if self@ < 0 {
                    -self@
                } else {
                    self@
                },
                Self::min_int(),
                Self::max_int(),
            ),
    {
        proof {
            self.lemma_range();
        }
        match self.checked_abs() {
            Some(abs) => abs,
            None => Self::max_value(),
        }
    }
}

} // verus!
