//! Signed values at another width: widening repeats the sign bit in the new
//! digits, narrowing keeps the low digits where that keeps the value.
use crate::bint::BInt;
use crate::buint::arith::modulus;
use crate::buint::compare::lemma_equal_by_value;
use crate::buint::BUint;
use crate::errors::TryFromIntError;
use crate::model::{digits_value, lemma_value_all_ones, lemma_value_split, lemma_value_zero_iff};
use vstd::arithmetic::power2::{lemma_pow2_adds, lemma_pow2_pos, pow2};
use vstd::prelude::*;

verus! {

/// Signed values of one width that stand for the same number have the same
/// bits.
pub proof fn lemma_signed_equal<const N: usize>(a: BInt<N>, b: BInt<N>)
    requires
        N > 0,
        a@ == b@,
    ensures
        a.bits == b.bits,
        a == b,
{
    a.lemma_range();
    b.lemma_range();
    lemma_equal_by_value(a.bits, b.bits);
}

impl<const N: usize> BInt<N> {
    /// The same value at a width that is not smaller: the new digits repeat
    /// the sign bit.
    pub fn widen<const M: usize>(self) -> (r: BInt<M>)
        requires
            N > 0,
            M >= N,
        ensures
            r@ == self@,
    {
        let negative = self.is_negative();
        let fill: u64 = if negative {
            u64::MAX
        } else {
            0
        };
        let mut bits = BUint::<M>::zero();
        let mut i: usize = 0;
        while i < M
            invariant
                i <= M,
                N <= M,
                forall|j: int| 0 <= j < i && j < N ==> bits@[j] == self.bits@[j],
                forall|j: int| N <= j < i ==> bits@[j] == fill,
            decreases M - i,
        {
            let ghost before = bits@;
            let d = if i < N {
                self.bits.digits[i]
            } else {
                fill
            };
            bits.digits[i] = d;
            assert(bits@ == before.update(i as int, d));
            i += 1;
        }
        let r = BInt::<M>::from_bits(bits);
        proof {
            let s = bits@;
            let low = s.take(N as int);
            let high = s.skip(N as int);
            assert(low =~= self.bits@);
            lemma_value_split(s, N as int);
            self.lemma_range();
            r.lemma_range();
            lemma_pow2_adds((64 * N) as nat, (64 * (M - N)) as nat);
            let pn = pow2((64 * N) as nat);
            let pd = pow2((64 * (M - N)) as nat);
            lemma_pow2_pos((64 * N) as nat);
            lemma_pow2_pos((64 * (M - N)) as nat);
            if negative {
                assert forall|j: int| 0 <= j < high.len() implies high[j] == u64::MAX by {
                    assert(high[j] == s[j + N]);
                }
                lemma_value_all_ones(high);
                let hv = digits_value(high);
                assert(pn * hv == pn * pd - pn) by (nonlinear_arith)
                    requires
                        hv + 1 == pd,
                ;
                assert(pn * pd - pn + self.bits.value() >= pn * pd - (pn * pd) / 2)
                    by (nonlinear_arith)
                    requires
                        pd >= 1,
                        pn >= 1,
                        2 * self.bits.value() >= pn,
                        self.bits.value() < pn,
                ;
            } else {
                assert forall|j: int| 0 <= j < high.len() implies high[j] == 0 by {
                    assert(high[j] == s[j + N]);
                }
                lemma_value_zero_iff(high);
                assert(pn * 0 == 0) by (nonlinear_arith);
                assert(pn * pd >= pn) by (nonlinear_arith)
                    requires
                        pd >= 1,
                        pn >= 1,
                ;
            }
        }
        r
    }

    /// The same value at a width that is not larger, or an error where the
    /// value is outside the range of that width.
    pub fn try_narrow<const M: usize>(self) -> (r: Result<BInt<M>, TryFromIntError>)
        requires
            0 < M <= N,
        ensures
            r is Ok <==> BInt::<M>::min_int() <= self@ <= BInt::<M>::max_int(),
            r is Ok ==> r->Ok_0@ == self@,
    {
        let low = BInt::<M>::from_bits(self.bits.cast::<M>());
        let back = low.widen::<N>();
        proof {
            low.lemma_range();
            self.lemma_range();
            if BInt::<M>::min_int() <= self@ <= BInt::<M>::max_int() {
                // both numbers lie in the range of the narrow width and differ
                // by a multiple of its modulus, so they are the same number
                let pm = modulus(M as nat) as int;
                let pd = pow2((64 * (N - M)) as nat) as int;
                lemma_pow2_adds((64 * M) as nat, (64 * (N - M)) as nat);
                let ua = self.bits.value() as int;
                let um = low.bits.value() as int;
                let q = ua / pm;
                lemma_pow2_pos((64 * M) as nat);
                vstd::arithmetic::div_mod::lemma_fundamental_div_mod(ua, pm);
                let ka = if self@ < 0 {
                    q - pd
                } else {
                    q
                };
                let kl: int = if low@ < 0 {
                    -1
                } else {
                    0
                };
                assert(self@ == um + pm * ka) by (nonlinear_arith)
                    requires
                        ua == pm * q + um,
                        self@ == ua - (if self@ < 0 {
                            pm * pd
                        } else {
                            0
                        }),
                        ka == (if self@ < 0 {
                            q - pd
                        } else {
                            q
                        }),
                ;
                assert(pm * kl == (if low@ < 0 {
                    -pm
                } else {
                    0
                })) by (nonlinear_arith)
                    requires
                        kl == (if low@ < 0 {
                            -1int
                        } else {
                            0int
                        }),
                ;
                assert(low@ == um + pm * kl);
                let k = ka - kl;
                assert(self@ - low@ == pm * k) by (nonlinear_arith)
                    requires
                        self@ == um + pm * ka,
                        low@ == um + pm * kl,
                        k == ka - kl,
                ;
                assert(k == 0) by (nonlinear_arith)
                    requires
                        self@ - low@ == pm * k,
                        -pm < self@ - low@ < pm,
                        pm > 0,
                ;
                lemma_signed_equal(back, self);
            }
        }
        if back == self {
            Ok(low)
        } else {
            Err(TryFromIntError)
        }
    }
}

} // verus!
