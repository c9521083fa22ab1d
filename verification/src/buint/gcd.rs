//! The greatest common divisor, by the binary algorithm: common factors of
//! two are shifted out, the smaller odd number is subtracted from the larger,
//! and the factors of two are put back at the end.
use crate::buint::arith::modulus;
use crate::buint::compare::Relation;
use crate::buint::shift::{unchecked_shl, unchecked_shr};
use crate::buint::{BUint, is_trailing_run};
use crate::divisibility::{
    divides, is_gcd, lemma_divides_bound, lemma_divides_difference, lemma_divides_multiple,
    lemma_gcd_odd_ignores_power, lemma_gcd_scales, lemma_gcd_unique, lemma_gcd_zero,
    lemma_low_bits_clear, lemma_no_bits_zero,
};
use crate::model::lemma_value_bound;
use crate::natbits::{lemma_seq_bit_is_nat_bit, nat_bit};
use vstd::arithmetic::power2::{lemma_pow2_adds, pow2};
use vstd::prelude::*;

verus! {

/// What is left of a nonzero value once its `t` trailing zero bits are
/// shifted out is odd, and times `2^t` it is the value.
pub proof fn lemma_strip_zeros<const N: usize>(x: BUint<N>, t: int)
    requires
        is_trailing_run(x@, false, t),
        x.value() != 0,
    ensures
        0 <= t < 64 * N,
        (x.value() / pow2(t as nat)) % 2 == 1,
        x.value() == (x.value() / pow2(t as nat)) * pow2(t as nat),
{
    let v = x.value();
    lemma_value_bound(x@);
    assert(x@.len() == N);
    assert forall|i: nat| i < t implies !nat_bit(v, i) by {
        lemma_seq_bit_is_nat_bit(x@, i as int);
    }
    if t == 64 * N {
        lemma_no_bits_zero(v, (64 * N) as nat);
    }
    lemma_seq_bit_is_nat_bit(x@, t);
    lemma_low_bits_clear(v, t as nat);
}

/// The greatest common divisor of two odd numbers, times the smaller of two
/// powers of two, is that of the numbers times those powers.
pub proof fn lemma_gcd_restore(u: nat, v: nat, g: nat, i: nat, j: nat)
    requires
        u % 2 == 1,
        v % 2 == 1,
        is_gcd(u, v, g),
    ensures
        is_gcd(
            u * pow2(i),
            v * pow2(j),
            g * pow2(
                if i <= j {
                    i
                } else {
                    j
                },
            ),
        ),
{
    if i <= j {
        let d = (j - i) as nat;
        lemma_gcd_odd_ignores_power(u, v, g, d);
        lemma_gcd_scales(u, v * pow2(d), g, i);
        lemma_pow2_adds(d, i);
        assert(v * pow2(d) * pow2(i) == v * pow2(j)) by (nonlinear_arith)
            requires
                pow2(j) == pow2(d) * pow2(i),
        ;
    } else {
        let d = (i - j) as nat;
        lemma_gcd_odd_ignores_power(v, u, g, d);
        lemma_gcd_scales(u * pow2(d), v, g, j);
        lemma_pow2_adds(d, j);
        assert(u * pow2(d) * pow2(j) == u * pow2(i)) by (nonlinear_arith)
            requires
                pow2(i) == pow2(d) * pow2(j),
        ;
    }
}

impl<const N: usize> BUint<N> {
    /// The greatest common divisor of `self` and `other`: the number that
    /// divides both and that every common divisor divides. With zero it is
    /// the other value.
    pub fn gcd(self, other: Self) -> (r: Self)
        requires
            Self::width_ok(),
        ensures
            is_gcd(self.value(), other.value(), r.value()),
            self.value() == 0 ==> r == other,
            other.value() == 0 ==> r == self,
    {
        let mut u = self;
        let mut v = other;
        proof {
            lemma_gcd_zero(self.value());
            lemma_gcd_zero(other.value());
            lemma_value_bound(self@);
            crate::buint::compare::lemma_equal_by_value(self, other);
        }
        if u.is_zero() {
            return v;
        } else if v.is_zero() {
            return u;
        }
        let ghost a0 = self.value();
        let ghost b0 = other.value();
        let i = u.trailing_zeros();
        proof {
            lemma_strip_zeros(u, i as int);
        }
        u = unchecked_shr(u, i);
        let j = v.trailing_zeros();
        proof {
            lemma_strip_zeros(v, j as int);
        }
        v = unchecked_shr(v, j);
        let k = if i > j {
            j
        } else {
            i
        };
        proof {
            let u0 = u.value();
            let v0 = v.value();
            assert forall|g: nat| is_gcd(u0, v0, g) implies is_gcd(a0, b0, g * pow2(k as nat)) by {
                lemma_gcd_restore(u0, v0, g, i as nat, j as nat);
            }
        }

        loop
            invariant
                Self::width_ok(),
                k < 64 * N,
                a0 == self.value(),
                b0 == other.value(),
                a0 != 0,
                b0 != 0,
                a0 < modulus(N as nat),
                u.value() % 2 == 1,
                v.value() % 2 == 1,
                forall|g: nat|
                    is_gcd(u.value(), v.value(), g) ==> is_gcd(a0, b0, #[trigger] (g * pow2(k as nat))),
            decreases u.value() + v.value(),
        {
            let ghost u1 = u.value();
            let ghost v1 = v.value();
            if let Relation::Greater = u.compare(&v) {
                let t = u;
                u = v;
                v = t;
            }
            let ghost u2 = u.value();
            let ghost v2 = v.value();
            v = v.wrapping_sub(u);
            let ghost v3 = v.value();
            proof {
                assert forall|g: nat| is_gcd(u2, v3, g) implies is_gcd(u1, v1, g) by {
                    lemma_divides_difference(g, u2, v2);
                    assert forall|c: nat| divides(c, u2) && divides(c, v2) implies divides(
                        c,
                        g,
                    ) by {
                        lemma_divides_difference(c, u2, v2);
                    }
                }
            }
            if v.is_zero() {
                proof {
                    lemma_divides_multiple(u2, 1);
                    assert(is_gcd(u2, v3, u2)) by {
                        lemma_divides_multiple(u2, 0);
                    }
                    let g = u2 * pow2(k as nat);
                    assert(is_gcd(a0, b0, g));
                    lemma_divides_bound(g, a0);
                    vstd::arithmetic::div_mod::lemma_small_mod(g, modulus(N as nat));
                }
                return unchecked_shl(u, k);
            }
            let t = v.trailing_zeros();
            proof {
                lemma_strip_zeros(v, t as int);
            }
            v = unchecked_shr(v, t);
            proof {
                let v4 = v.value();
                assert forall|g: nat| is_gcd(u2, v4, g) implies is_gcd(u2, v3, g) by {
                    lemma_gcd_odd_ignores_power(u2, v4, g, t as nat);
                }
                assert(v4 <= v3) by (nonlinear_arith)
                    requires
                        v3 == v4 * pow2(t as nat),
                        v3 > 0,
                ;
            }
        }
    }
}

/// The greatest common divisor does not depend on the order of the two
/// values.
pub proof fn lemma_gcd_commutative<const N: usize>(
    a: BUint<N>,
    b: BUint<N>,
    g: BUint<N>,
    h: BUint<N>,
)
    requires
        is_gcd(a.value(), b.value(), g.value()),
        is_gcd(b.value(), a.value(), h.value()),
    ensures
        g == h,
{
    lemma_gcd_unique(a.value(), b.value(), g.value(), h.value());
    crate::buint::compare::lemma_equal_by_value(g, h);
}

/// The greatest common divisor of a value and zero is the value, on either
/// side.
pub proof fn lemma_gcd_with_zero<const N: usize>(a: BUint<N>, z: BUint<N>, g: BUint<N>)
    requires
        z.value() == 0,
        is_gcd(a.value(), z.value(), g.value()) || is_gcd(z.value(), a.value(), g.value()),
    ensures
        g == a,
{
    lemma_gcd_zero(a.value());
    lemma_gcd_unique(a.value(), 0, g.value(), a.value());
    crate::buint::compare::lemma_equal_by_value(g, a);
}

/// The greatest common divisor divides both values: unless it is zero, and
/// then both values are zero, the division leaves no remainder.
pub proof fn lemma_gcd_divides_both<const N: usize>(a: BUint<N>, b: BUint<N>, g: BUint<N>)
    requires
        is_gcd(a.value(), b.value(), g.value()),
    ensures
        g.value() == 0 ==> a.value() == 0 && b.value() == 0,
        g.value() != 0 ==> a.value() % g.value() == 0 && b.value() % g.value() == 0,
{
    let gv = g.value();
    let ka = crate::divisibility::lemma_divides_witness(gv, a.value());
    let kb = crate::divisibility::lemma_divides_witness(gv, b.value());
    if gv == 0 {
        assert(gv * ka == 0 && gv * kb == 0) by (nonlinear_arith)
            requires
                gv == 0,
        ;
    } else {
        vstd::arithmetic::div_mod::lemma_mod_multiples_basic(ka as int, gv as int);
        vstd::arithmetic::div_mod::lemma_mod_multiples_basic(kb as int, gv as int);
        assert(gv * ka == ka * gv && gv * kb == kb * gv) by (nonlinear_arith);
    }
}

} // verus!
