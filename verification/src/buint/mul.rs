//! Multiplication, digit by digit: each product of two digits is added into
//! the result at the sum of their places, the high half carried onward. What
//! would land beyond the top digit is not stored; that any of it is nonzero
//! is the overflow.
use crate::buint::arith::modulus;
use crate::buint::BUint;
use crate::digit::{base, carrying_mul};
use crate::model::{
    digits_value, lemma_value_bound, lemma_value_split, lemma_value_take_ends,
    lemma_value_take_step, lemma_value_update, lemma_value_zero_iff, lemma_weight_step,
};
use vstd::arithmetic::div_mod::lemma_fundamental_div_mod_converse;
use vstd::arithmetic::power2::{lemma_pow2_adds, pow2};
use vstd::prelude::*;

verus! {

impl<const N: usize> BUint<N> {
    /// Adds `digit * rhs * 2^(64 i)` into `self`, as far as it falls inside
    /// the width; returns the sum and whether anything fell outside.
    fn add_row(self, digit: u64, rhs: &Self, i: usize) -> (r: (Self, bool, Ghost<nat>))
        requires
            i < N,
        ensures
            r.0.value() + modulus(N as nat) * r.2@ == self.value() + digit as nat * pow2(
                (64 * i) as nat,
            ) * rhs.value(),
            r.1 == (r.2@ > 0),
    {
        let mut out = self;
        let mut carry: u64 = 0;
        let mut j: usize = 0;
        let ghost pi = pow2((64 * i) as nat);
        proof {
            lemma_value_take_ends(rhs@);
            assert(digit as nat * pi * 0 == 0) by (nonlinear_arith);
            assert(carry as nat * pow2((64 * (i + j)) as nat) == 0) by (nonlinear_arith)
                requires
                    carry == 0,
            ;
        }
        while j < N - i
            invariant
                i < N,
                j <= N - i,
                pi == pow2((64 * i) as nat),
                out.value() + carry as nat * pow2((64 * (i + j)) as nat) == self.value()
                    + digit as nat * pi * digits_value(rhs@.take(j as int)),
            decreases N - i - j,
        {
            let ghost before = out@;
            let ghost old_value = out.value();
            let index = i + j;
            let (prod, c) = carrying_mul(digit, rhs.digits[j], carry, out.digits[index]);
            out.digits[index] = prod;
            proof {
                assert(out@ == before.update(index as int, prod));
                lemma_value_update(before, index as int, prod);
                lemma_value_take_step(rhs@, j as int);
                lemma_weight_step((i + j) as nat);
                lemma_pow2_adds((64 * i) as nat, (64 * j) as nat);
                let p = pow2((64 * (i + j)) as nat);
                let pj = pow2((64 * j) as nat);
                let a = digit as nat;
                let b = rhs@[j as int] as nat;
                let old = before[index as int] as nat;
                let lo = prod as nat;
                let hi = c as nat;
                let cy = carry as nat;
                let t = digits_value(rhs@.take(j as int));
                assert((lo + hi * base()) * p == (a * b + cy + old) * p);
                assert((lo + hi * base()) * p == lo * p + hi * (p * base())) by (nonlinear_arith);
                assert((a * b + cy + old) * p == a * b * p + cy * p + old * p)
                    by (nonlinear_arith);
                assert(a * pi * (t + b * pj) == a * pi * t + a * b * p) by (nonlinear_arith)
                    requires
                        p == pi * pj,
                ;
            }
            carry = c;
            j += 1;
        }
        let mut overflow = carry != 0;
        let ghost high = digits_value(rhs@.skip(N - i));
        proof {
            lemma_value_split(rhs@, N - i);
            lemma_pow2_adds((64 * i) as nat, (64 * (N - i)) as nat);
            lemma_value_zero_iff(rhs@.skip(N - i));
        }
        let ghost mut found: int = 0;
        if digit != 0 {
            let mut j: usize = N - i;
            while j < N
                invariant
                    i < N,
                    N - i <= j <= N,
                    overflow || (carry == 0 && forall|m: int| N - i <= m < j ==> rhs@[m] == 0),
                    overflow ==> carry != 0 || (N - i <= found < N && rhs@[found] != 0),
                decreases N - j,
            {
                if rhs.digits[j] != 0 {
                    overflow = true;
                    proof {
                        found = j as int;
                    }
                }
                j += 1;
            }
        }
        proof {
            let m = modulus(N as nat);
            let a = digit as nat;
            let lost = carry as nat + a * high;
            let low = digits_value(rhs@.take(N - i));
            let pr = pow2((64 * (N - i)) as nat);
            assert(a * pi * (low + pr * high) == a * pi * low + m * (a * high))
                by (nonlinear_arith)
                requires
                    m == pi * pr,
            ;
            assert(m * lost == carry as nat * m + m * (a * high)) by (nonlinear_arith)
                requires
                    lost == carry as nat + a * high,
            ;
            assert(a * high > 0 <==> (a > 0 && high > 0)) by (nonlinear_arith);
            let hs = rhs@.skip(N - i);
            if high > 0 {
                let w = choose|w: int| 0 <= w < hs.len() && hs[w] != 0;
                assert(rhs@[w + N - i] != 0);
            }
            if digit != 0 && overflow && carry == 0 {
                assert(hs[found - (N - i)] != 0);
            }
            assert(out.value() + m * lost == self.value() + a * pi * rhs.value() && overflow == (
            lost > 0));
        }
        (out, overflow, Ghost(carry as nat + digit as nat * high))
    }

    /// Multiplies by `rhs`; returns the product modulo `2^width`, and
    /// whether the product left the width.
    pub fn overflowing_mul(self, rhs: Self) -> (r: (Self, bool))
        ensures
            r.0.value() == (self.value() * rhs.value()) % modulus(N as nat),
            r.1 == (self.value() * rhs.value() >= modulus(N as nat)),
    {
        let mut overflow = false;
        let mut out = Self::zero();
        let mut i: usize = 0;
        let ghost mut lost: nat = 0;
        proof {
            lemma_value_take_ends(self@);
            assert(modulus(N as nat) * 0 == 0) by (nonlinear_arith);
            assert(0 * rhs.value() == 0) by (nonlinear_arith);
        }
        while i < N
            invariant
                i <= N,
                out.value() + modulus(N as nat) * lost == digits_value(self@.take(i as int))
                    * rhs.value(),
                overflow == (lost > 0),
            decreases N - i,
        {
            let ghost before = out.value();
            let (sum, over, Ghost(more)) = out.add_row(self.digits[i], &rhs, i);
            proof {
                let a = self@[i as int] as nat;
                let pi = pow2((64 * i) as nat);
                let m = modulus(N as nat);
                lemma_value_take_step(self@, i as int);
                let t = digits_value(self@.take(i as int));
                assert((t + a * pi) * rhs.value() == t * rhs.value() + a * pi * rhs.value())
                    by (nonlinear_arith);
                assert(m * (lost + more) == m * lost + m * more) by (nonlinear_arith);
                lost = lost + more;
            }
            out = sum;
            if over {
                overflow = true;
            }
            i += 1;
        }
        proof {
            lemma_value_take_ends(self@);
            lemma_value_bound(out@);
            let m = modulus(N as nat);
            assert(m * lost == lost * m) by (nonlinear_arith);
            lemma_fundamental_div_mod_converse(
                (self.value() * rhs.value()) as int,
                m as int,
                lost as int,
                out.value() as int,
            );
            assert(lost > 0 ==> lost * m >= m) by (nonlinear_arith);
        }
        (out, overflow)
    }

    /// Multiplies by `rhs` modulo `2^width`.
    pub fn wrapping_mul(self, rhs: Self) -> (r: Self)
        ensures
            r.value() == (self.value() * rhs.value()) % modulus(N as nat),
    {
        self.overflowing_mul(rhs).0
    }

    /// Multiplies by `rhs`, or returns `None` where the product does not fit
    /// the width.
    pub fn checked_mul(self, rhs: Self) -> (r: Option<Self>)
        ensures
            r is None <==> self.value() * rhs.value() >= modulus(N as nat),
            r is Some ==> r->0.value() == self.value() * rhs.value(),
    {
        let (prod, overflow) = self.overflowing_mul(rhs);
        proof {
            if !overflow {
                vstd::arithmetic::div_mod::lemma_small_mod(
                    self.value() * rhs.value(),
                    modulus(N as nat),
                );
            }
        }
        if overflow {
            None
        } else {
            Some(prod)
        }
    }

    /// Multiplies by `rhs`, or returns the largest value where the product
    /// does not fit the width.
    pub fn saturating_mul(self, rhs: Self) -> (r: Self)
        ensures
            self.value() * rhs.value() < modulus(N as nat) ==> r.value() == self.value()
                * rhs.value(),
            self.value() * rhs.value() >= modulus(N as nat) ==> r@ == Seq::new(
                N as nat,
                |i: int| u64::MAX,
            ),
    {
        match self.checked_mul(rhs) {
            Some(prod) => prod,
            None => Self::max_value(),
        }
    }

    /// The square, modulo `2^width`.
    #[inline]
    pub fn square(self) -> (r: Self)
        ensures
            r.value() == (self.value() * self.value()) % modulus(N as nat),
    {
        self.wrapping_mul(self)
    }
}

} // verus!
