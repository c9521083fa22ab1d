//! Exponentiation by squaring.
use crate::buint::arith::modulus;
use crate::buint::BUint;
use crate::digit::ExpType;
use crate::model::lemma_value_bound;
use vstd::arithmetic::div_mod::{lemma_mul_mod_noop_general, lemma_small_mod};
use vstd::arithmetic::power::{
    lemma_pow0, lemma_pow1, lemma_pow_adds, lemma_pow_mod_noop, lemma_pow_multiplies,
    lemma_pow_positive, lemma_square_is_pow2, pow,
};
use vstd::arithmetic::power2::lemma_pow2_pos;
use vstd::prelude::*;

verus! {

/// A power is the power of the square with half the exponent, times the
/// base where the exponent is odd.
pub proof fn lemma_pow_halve(b: int, e: nat)
    ensures
        pow(b, e) == (if e % 2 == 1 {
            b
        } else {
            1
        }) * pow(b * b, e / 2),
{
    let h = e / 2;
    lemma_pow_multiplies(b, 2, h);
    lemma_square_is_pow2(b);
    if e % 2 == 1 {
        lemma_pow_adds(b, 1, 2 * h);
        lemma_pow1(b);
    }
}

/// A power of a number that is at least one is at least one, and with a
/// positive exponent at least the number.
pub proof fn lemma_pow_at_least(b: int, e: nat)
    requires
        b >= 1,
    ensures
        pow(b, e) >= 1,
        e > 0 ==> pow(b, e) >= b,
{
    lemma_pow_positive(b, e);
    if e > 0 {
        lemma_pow_adds(b, 1, (e - 1) as nat);
        lemma_pow1(b);
        lemma_pow_positive(b, (e - 1) as nat);
        let r = pow(b, (e - 1) as nat);
        assert(b * r >= b) by (nonlinear_arith)
            requires
                b >= 1,
                r >= 1,
        ;
    }
}

impl<const N: usize> BUint<N> {
    /// Raises to the power `exp`, or returns `None` where the power does not
    /// fit the width.
    pub fn checked_pow(self, exp: ExpType) -> (r: Option<Self>)
        requires
            N > 0,
        ensures
            r is None <==> pow(self.value() as int, exp as nat) >= modulus(N as nat),
            r is Some ==> r->0.value() == pow(self.value() as int, exp as nat),
    {
        let ghost a = self.value() as int;
        let ghost m = modulus(N as nat) as int;
        proof {
            lemma_pow0(a);
            lemma_pow2_pos((64 * N) as nat);
            lemma_value_bound(self@);
            lemma_value_bound(Seq::new(N as nat, |i: int| if i == 0 { 1u64 } else { 0u64 }));
        }
        if exp == 0 {
            return Some(Self::one());
        }
        if self.is_zero() {
            proof {
                lemma_pow_adds(0, 1, (exp - 1) as nat);
                lemma_pow1(0);
                assert(0 * pow(0, (exp - 1) as nat) == 0) by (nonlinear_arith);
            }
            return Some(self);
        }
        let mut result = Self::one();
        let mut b = self;
        let mut e: u32 = exp;
        while e > 0
            invariant
                N > 0,
                a == self.value(),
                m == modulus(N as nat),
                result.value() * pow(b.value() as int, e as nat) == pow(a, exp as nat),
                result.value() >= 1,
                b.value() >= 1,
                m > 0,
            decreases e,
        {
            let ghost bv = b.value() as int;
            let ghost rv = result.value() as int;
            let ghost h = (e / 2) as nat;
            let ghost t = pow(bv * bv, h);
            proof {
                lemma_pow_halve(bv, e as nat);
                assert(bv * bv >= 1) by (nonlinear_arith)
                    requires
                        bv >= 1,
                ;
                lemma_pow_at_least(bv * bv, h);
                crate::digit::lemma_halve(e);
                assert(rv * (bv * t) == (rv * bv) * t) by (nonlinear_arith);
                assert(rv * bv >= 1) by (nonlinear_arith)
                    requires
                        rv >= 1,
                        bv >= 1,
                ;
            }
            if e & 1 == 1 {
                match result.checked_mul(b) {
                    Some(p) => {
                        result = p;
                    },
                    None => {
                        proof {
                            assert((rv * bv) * t >= m) by (nonlinear_arith)
                                requires
                                    rv * bv >= m,
                                    t >= 1,
                                    m > 0,
                            ;
                        }
                        return None;
                    },
                }
            }
            e = e >> 1;
            if e > 0 {
                match b.checked_mul(b) {
                    Some(p) => {
                        b = p;
                    },
                    None => {
                        proof {
                            let r2 = result.value() as int;
                            assert(r2 * t >= m) by (nonlinear_arith)
                                requires
                                    r2 >= 1,
                                    t >= bv * bv,
                                    bv * bv >= m,
                                    m > 0,
                            ;
                        }
                        return None;
                    },
                }
            } else {
                proof {
                    lemma_pow0(bv * bv);
                    lemma_pow0(bv);
                }
            }
        }
        proof {
            lemma_pow0(b.value() as int);
            lemma_value_bound(result@);
        }
        Some(result)
    }

    /// Raises to the power `exp` modulo `2^width`.
    pub fn wrapping_pow(self, exp: ExpType) -> (r: Self)
        requires
            N > 0,
        ensures
            r.value() == pow(self.value() as int, exp as nat) % (modulus(N as nat) as int),
    {
        let ghost a = self.value() as int;
        let ghost m = modulus(N as nat) as int;
        let mut result = Self::one();
        let mut b = self;
        let mut e: u32 = exp;
        proof {
            lemma_pow2_pos((64 * N) as nat);
        }
        while e > 0
            invariant
                N > 0,
                m == modulus(N as nat),
                m > 0,
                (result.value() * pow(b.value() as int, e as nat)) % m == pow(a, exp as nat) % m,
            decreases e,
        {
            let ghost bv = b.value() as int;
            let ghost rv = result.value() as int;
            let ghost h = (e / 2) as nat;
            let ghost t = pow(bv * bv, h);
            proof {
                lemma_pow_halve(bv, e as nat);
                crate::digit::lemma_halve(e);
                assert(rv * (bv * t) == (rv * bv) * t) by (nonlinear_arith);
                lemma_mul_mod_noop_general(rv * bv, t, m);
                lemma_mul_mod_noop_general(rv, t, m);
                lemma_pow_mod_noop(bv * bv, h, m);
            }
            if e & 1 == 1 {
                result = result.wrapping_mul(b);
            }
            b = b.wrapping_mul(b);
            e = e >> 1;
            proof {
                let r2 = result.value() as int;
                let t2 = pow(b.value() as int, h);
                lemma_mul_mod_noop_general(r2, t2, m);
                lemma_mul_mod_noop_general(r2, t, m);
            }
        }
        proof {
            lemma_pow0(b.value() as int);
            lemma_value_bound(result@);
            lemma_small_mod(result.value(), modulus(N as nat));
        }
        result
    }

    /// Raises to the power `exp`, or returns the largest value where the
    /// power does not fit the width.
    pub fn saturating_pow(self, exp: ExpType) -> (r: Self)
        requires
            N > 0,
        ensures
            pow(self.value() as int, exp as nat) < modulus(N as nat) ==> r.value() == pow(
                self.value() as int,
                exp as nat,
            ),
            pow(self.value() as int, exp as nat) >= modulus(N as nat) ==> r@ == Seq::new(
                N as nat,
                |i: int| u64::MAX,
            ),
    {
        match self.checked_pow(exp) {
            Some(p) => p,
            None => Self::max_value(),
        }
    }

    /// Raises to the power `exp`. The caller sees to it that the power fits
    /// the width.
    #[inline]
    pub fn pow(self, exp: ExpType) -> (r: Self)
        requires
            N > 0,
            pow(self.value() as int, exp as nat) < modulus(N as nat),
        ensures
            r.value() == pow(self.value() as int, exp as nat),
    {
        proof {
            lemma_value_bound(self@);
            if self.value() > 0 {
                lemma_pow_positive(self.value() as int, exp as nat);
            } else if exp > 0 {
                lemma_pow_adds(0, 1, (exp - 1) as nat);
                lemma_pow1(0);
                assert(0 * pow(0, (exp - 1) as nat) == 0) by (nonlinear_arith);
            } else {
                lemma_pow0(0);
            }
            lemma_small_mod(pow(self.value() as int, exp as nat) as nat, modulus(N as nat));
        }
        self.wrapping_pow(exp)
    }
}

} // verus!
