//! Addition and subtraction: a carry or borrow rippling through the digits,
//! and the four ways of treating what leaves the top digit.
use crate::buint::BUint;
use crate::digit::base;
use crate::model::{
    digits_value, lemma_value_bound, lemma_value_take_ends, lemma_value_take_step,
    lemma_weight_step,
};
use vstd::arithmetic::div_mod::lemma_fundamental_div_mod_converse;
use vstd::arithmetic::power2::pow2;
use vstd::prelude::*;

verus! {

/// The number of values of `n` digits: `2^(64 n)`.
pub open spec fn modulus(n: nat) -> nat {
    pow2(64 * n)
}

/// Adds two digits and a carry of 0 or 1; returns the low digit of the sum
/// and the carry out of it.
pub fn carrying_add(a: u64, b: u64, carry: u64) -> (r: (u64, u64))
    requires
        carry <= 1,
    ensures
        r.0 as nat + r.1 as nat * base() == a as nat + b as nat + carry as nat,
        r.1 <= 1,
{
    let sum: u128 = a as u128 + b as u128 + carry as u128;
    let lo: u64 = (sum & 0xffff_ffff_ffff_ffff) as u64;
    let hi: u64 = (sum >> 64) as u64;
    proof {
        crate::digit::lemma_split_double(sum);
    }
    (lo, hi)
}

/// Subtracts a digit and a borrow of 0 or 1 from a digit; returns the low
/// digit of the difference and the borrow out of it.
pub fn borrowing_sub(a: u64, b: u64, borrow: u64) -> (r: (u64, u64))
    requires
        borrow <= 1,
    ensures
        r.0 as nat + b as nat + borrow as nat == a as nat + r.1 as nat * base(),
        r.1 <= 1,
{
    let take: u128 = b as u128 + borrow as u128;
    if a as u128 >= take {
        ((a as u128 - take) as u64, 0)
    } else {
        ((a as u128 + 0x1_0000_0000_0000_0000 - take) as u64, 1)
    }
}

impl<const N: usize> BUint<N> {
    /// Adds `rhs`; returns the sum modulo `2^width`, and whether the sum
    /// left the width.
    pub fn overflowing_add(self, rhs: Self) -> (r: (Self, bool))
        ensures
            r.0.value() == (self.value() + rhs.value()) % modulus(N as nat),
            r.1 == (self.value() + rhs.value() >= modulus(N as nat)),
            r.0.value() + (if r.1 {
                modulus(N as nat)
            } else {
                0
            }) == self.value() + rhs.value(),
    {
        let mut out = Self::zero();
        let mut carry: u64 = 0;
        let mut i: usize = 0;
        proof {
            lemma_value_take_ends(out@);
            lemma_value_take_ends(self@);
            lemma_value_take_ends(rhs@);
        }
        while i < N
            invariant
                i <= N,
                carry <= 1,
                digits_value(out@.take(i as int)) + carry * pow2((64 * i) as nat) == digits_value(
                    self@.take(i as int),
                ) + digits_value(rhs@.take(i as int)),
            decreases N - i,
        {
            let ghost before = out@;
            let (digit, new_carry) = carrying_add(self.digits[i], rhs.digits[i], carry);
            out.digits[i] = digit;
            proof {
                assert(out@ == before.update(i as int, digit));
                assert(out@.take(i as int) =~= before.take(i as int));
                lemma_value_take_step(out@, i as int);
                lemma_value_take_step(self@, i as int);
                lemma_value_take_step(rhs@, i as int);
                lemma_weight_step(i as nat);
                let p = pow2((64 * i) as nat);
                let a = self@[i as int] as nat;
                let b = rhs@[i as int] as nat;
                assert((digit as nat + new_carry as nat * base()) * p == (a + b + carry as nat)
                    * p);
                assert((digit as nat + new_carry as nat * base()) * p == digit as nat * p
                    + new_carry as nat * (p * base())) by (nonlinear_arith);
                assert((a + b + carry as nat) * p == a * p + b * p + carry as nat * p)
                    by (nonlinear_arith);
            }
            carry = new_carry;
            i += 1;
        }
        proof {
            lemma_value_take_ends(out@);
            lemma_value_take_ends(self@);
            lemma_value_take_ends(rhs@);
            lemma_value_bound(out@);
            let m = modulus(N as nat);
            assert(carry as nat * m == carry as int * m);
            lemma_fundamental_div_mod_converse(
                (self.value() + rhs.value()) as int,
                m as int,
                carry as int,
                out.value() as int,
            );
            assert(carry as nat * m == (if carry == 1 {
                m
            } else {
                0
            })) by (nonlinear_arith)
                requires
                    carry <= 1,
            ;
        }
        (out, carry != 0)
    }

    /// Adds `rhs` modulo `2^width`.
    pub fn wrapping_add(self, rhs: Self) -> (r: Self)
        ensures
            r.value() == (self.value() + rhs.value()) % modulus(N as nat),
    {
        self.overflowing_add(rhs).0
    }

    /// Adds `rhs`, or returns `None` where the sum does not fit the width.
    pub fn checked_add(self, rhs: Self) -> (r: Option<Self>)
        ensures
            r is None <==> self.value() + rhs.value() >= modulus(N as nat),
            r is Some ==> r->0.value() == self.value() + rhs.value(),
    {
        let (sum, overflow) = self.overflowing_add(rhs);
        if overflow {
            None
        } else {
            Some(sum)
        }
    }

    /// Adds `rhs`, or returns the largest value where the sum does not fit
    /// the width.
    pub fn saturating_add(self, rhs: Self) -> (r: Self)
        ensures
            self.value() + rhs.value() < modulus(N as nat) ==> r.value() == self.value()
                + rhs.value(),
            self.value() + rhs.value() >= modulus(N as nat) ==> r@ == Seq::new(
                N as nat,
                |i: int| u64::MAX,
            ),
    {
        match self.checked_add(rhs) {
            Some(sum) => sum,
            None => Self::max_value(),
        }
    }

    /// Subtracts `rhs`; returns the difference modulo `2^width`, and whether
    /// `rhs` was the larger.
    pub fn overflowing_sub(self, rhs: Self) -> (r: (Self, bool))
        ensures
            r.0.value() == (self.value() - rhs.value()) % (modulus(N as nat) as int),
            r.1 == (self.value() < rhs.value()),
            r.0.value() + rhs.value() == self.value() + (if r.1 {
                modulus(N as nat)
            } else {
                0
            }),
    {
        let mut out = Self::zero();
        let mut borrow: u64 = 0;
        let mut i: usize = 0;
        proof {
            lemma_value_take_ends(out@);
            lemma_value_take_ends(self@);
            lemma_value_take_ends(rhs@);
        }
        while i < N
            invariant
                i <= N,
                borrow <= 1,
                digits_value(out@.take(i as int)) + digits_value(rhs@.take(i as int))
                    == digits_value(self@.take(i as int)) + borrow * pow2((64 * i) as nat),
            decreases N - i,
        {
            let ghost before = out@;
            let (digit, new_borrow) = borrowing_sub(self.digits[i], rhs.digits[i], borrow);
            out.digits[i] = digit;
            proof {
                assert(out@ == before.update(i as int, digit));
                assert(out@.take(i as int) =~= before.take(i as int));
                lemma_value_take_step(out@, i as int);
                lemma_value_take_step(self@, i as int);
                lemma_value_take_step(rhs@, i as int);
                lemma_weight_step(i as nat);
                let p = pow2((64 * i) as nat);
                let a = self@[i as int] as nat;
                let b = rhs@[i as int] as nat;
                assert((digit as nat + b + borrow as nat) * p == (a + new_borrow as nat * base())
                    * p);
                assert((a + new_borrow as nat * base()) * p == a * p + new_borrow as nat * (p
                    * base())) by (nonlinear_arith);
                assert((digit as nat + b + borrow as nat) * p == digit as nat * p + b * p
                    + borrow as nat * p) by (nonlinear_arith);
            }
            borrow = new_borrow;
            i += 1;
        }
        proof {
            lemma_value_take_ends(out@);
            lemma_value_take_ends(self@);
            lemma_value_take_ends(rhs@);
            lemma_value_bound(out@);
            lemma_value_bound(self@);
            lemma_value_bound(rhs@);
            let m = modulus(N as nat);
            assert(borrow as nat * m == (if borrow == 1 {
                m
            } else {
                0
            })) by (nonlinear_arith)
                requires
                    borrow <= 1,
            ;
            assert((-(borrow as int)) * m == -(borrow as nat * m)) by (nonlinear_arith);
            lemma_fundamental_div_mod_converse(
                self.value() - rhs.value(),
                m as int,
                -(borrow as int),
                out.value() as int,
            );
        }
        (out, borrow != 0)
    }

    /// Subtracts `rhs` modulo `2^width`.
    pub fn wrapping_sub(self, rhs: Self) -> (r: Self)
        ensures
            r.value() == (self.value() - rhs.value()) % (modulus(N as nat) as int),
            self.value() >= rhs.value() ==> r.value() == self.value() - rhs.value(),
    {
        self.overflowing_sub(rhs).0
    }

    /// Subtracts `rhs`, or returns `None` where `rhs` is the larger.
    pub fn checked_sub(self, rhs: Self) -> (r: Option<Self>)
        ensures
            r is None <==> self.value() < rhs.value(),
            r is Some ==> r->0.value() == self.value() - rhs.value(),
    {
        let (diff, overflow) = self.overflowing_sub(rhs);
        if overflow {
            None
        } else {
            Some(diff)
        }
    }

    /// Subtracts `rhs`, or returns zero where `rhs` is the larger.
    pub fn saturating_sub(self, rhs: Self) -> (r: Self)
        ensures
            r.value() == (if self.value() >= rhs.value() {
                self.value() - rhs.value()
            } else {
                0
            }),
    {
        match self.checked_sub(rhs) {
            Some(diff) => diff,
            None => Self::zero(),
        }
    }
}

} // verus!
