//! Conversion from native integers and between widths.
use crate::buint::arith::modulus;
use crate::buint::BUint;

use crate::errors::TryFromIntError;
use crate::model::{
    digits_value, lemma_value_bound, lemma_value_first, lemma_value_high_zero, lemma_value_split,
    lemma_value_split_div_mod, lemma_value_take_ends, lemma_value_take_step, lemma_value_zero_iff,
};
use vstd::arithmetic::power2::{lemma2_to64_rest, lemma_pow2_pos, pow2};
use vstd::prelude::*;
use vstd::std_specs::convert::FromSpecImpl;

verus! {

/// The digits of `s` at a width of `m` digits: digits beyond the width are
/// dropped, digits that `s` lacks are zero.
pub open spec fn resized(s: Seq<u64>, m: nat) -> Seq<u64> {
    Seq::new(
        m,
        |i: int|
            if i < s.len() {
                s[i]
            } else {
                0u64
            },
    )
}

/// The digits of a 128-bit number, least significant first.
pub open spec fn u128_digits(v: u128) -> Seq<u64> {
    seq![(v & 0xffff_ffff_ffff_ffff) as u64, (v >> 64) as u64]
}

/// The two digits of a 128-bit number stand for that number.
pub proof fn lemma_u128_digits_value(v: u128)
    ensures
        digits_value(u128_digits(v)) == v,
{
    let s = u128_digits(v);
    lemma_value_take_ends(s);
    lemma_value_take_step(s, 1);
    lemma_value_first(s);
    lemma2_to64_rest();
    crate::digit::lemma_split_double(v);
}

/// Zero digits added at the top leave the value, and digits dropped at the
/// top leave the value modulo the new width.
pub proof fn lemma_resized_value(s: Seq<u64>, m: nat)
    ensures
        m >= s.len() ==> digits_value(resized(s, m)) == digits_value(s),
        m <= s.len() ==> digits_value(resized(s, m)) == digits_value(s) % pow2(64 * m),
        m <= s.len() ==> (digits_value(s) < pow2(64 * m) <==> forall|j: int|
            m <= j < s.len() ==> s[j] == 0),
{
    let r = resized(s, m);
    if m >= s.len() {
        lemma_value_high_zero(r, s.len() as int);
        assert(r.take(s.len() as int) =~= s);
    }
    if m <= s.len() {
        assert(r =~= s.take(m as int));
        lemma_value_split_div_mod(s, m as int);
        lemma_value_split(s, m as int);
        lemma_value_bound(s.take(m as int));
        lemma_value_zero_iff(s.skip(m as int));
        lemma_pow2_pos(64 * m);
        let p = pow2(64 * m);
        let q = digits_value(s.skip(m as int));
        assert(q == 0 <==> p * q == 0) by (nonlinear_arith)
            requires
                p > 0,
        ;
        assert(q > 0 ==> p * q >= p) by (nonlinear_arith)
            requires
                p > 0,
        ;
        if forall|j: int| m <= j < s.len() ==> s[j] == 0 {
            assert forall|j: int| 0 <= j < s.skip(m as int).len() implies s.skip(m as int)[j]
                == 0 by {
                assert(s.skip(m as int)[j] == s[j + m]);
            }
        }
        if digits_value(s) < p {
            assert forall|j: int| m <= j < s.len() implies s[j] == 0 by {
                assert(s.skip(m as int)[j - m] == s[j]);
            }
        }
    }
}

impl<const N: usize> BUint<N> {
    /// The value with the digits `s`.
    pub open spec fn of_digits(s: Seq<u64>) -> Self {
        choose|r: Self| r@ == s
    }

    /// A value is the value with its digits.
    pub proof fn lemma_of_digits(self)
        ensures
            Self::of_digits(self@) == self,
    {
        let c = Self::of_digits(self@);
        assert(c@ == self@);
        assert(c.digits =~= self.digits);
    }

    /// The value at a width of `M` digits: digits beyond the new width are
    /// dropped, digits that `self` lacks are zero.
    pub fn cast<const M: usize>(self) -> (r: BUint<M>)
        ensures
            r@ == resized(self@, M as nat),
            M >= N ==> r.value() == self.value(),
            M <= N ==> r.value() == self.value() % modulus(M as nat),
    {
        let mut out = BUint::<M>::zero();
        let mut i: usize = 0;
        while i < N && i < M
            invariant
                i <= N,
                i <= M,
                forall|j: int| 0 <= j < i ==> out@[j] == self@[j],
                forall|j: int| i <= j < M ==> out@[j] == 0,
            decreases N - i,
        {
            let ghost before = out@;
            out.digits[i] = self.digits[i];
            assert(out@ == before.update(i as int, self@[i as int]));
            i += 1;
        }
        proof {
            assert(out@ =~= resized(self@, M as nat));
            lemma_resized_value(self@, M as nat);
        }
        out
    }

    /// The same value at a width that is not smaller.
    pub fn widen<const M: usize>(self) -> (r: BUint<M>)
        requires
            M >= N,
        ensures
            r@ == resized(self@, M as nat),
            r.value() == self.value(),
    {
        self.cast::<M>()
    }

    /// The value modulo `2^(64 M)`, at a width that is not larger.
    pub fn narrow<const M: usize>(self) -> (r: BUint<M>)
        requires
            M <= N,
        ensures
            r@ == resized(self@, M as nat),
            r.value() == self.value() % modulus(M as nat),
    {
        self.cast::<M>()
    }

    /// The same value at a width that is not larger, or an error where the
    /// value does not fit that width.
    pub fn try_narrow<const M: usize>(self) -> (r: Result<BUint<M>, TryFromIntError>)
        requires
            M <= N,
        ensures
            r is Ok <==> self.value() < modulus(M as nat),
            r is Ok ==> r->Ok_0.value() == self.value() && r->Ok_0@ == resized(self@, M as nat),
    {
        proof {
            lemma_resized_value(self@, M as nat);
            lemma_value_bound(resized(self@, M as nat));
        }
        let mut i: usize = M;
        while i < N
            invariant
                M <= i <= N,
                forall|j: int| M <= j < i ==> self@[j] == 0,
                digits_value(self@) < pow2(64 * (M as nat)) <==> forall|j: int|
                    M <= j < self@.len() ==> self@[j] == 0,
            decreases N - i,
        {
            if self.digits[i] != 0 {
                assert(self@[i as int] != 0);
                return Err(TryFromIntError);
            }
            i += 1;
        }
        proof {
            vstd::arithmetic::div_mod::lemma_small_mod(self.value(), modulus(M as nat));
        }
        Ok(self.cast::<M>())
    }

    /// The value of a 64-bit number.
    pub fn from_u64(v: u64) -> (r: Self)
        requires
            N >= 1,
        ensures
            r.value() == v,
    {
        Self::from_digit(v)
    }

    /// The value of a 128-bit number.
    pub fn from_u128(v: u128) -> (r: Self)
        requires
            N >= 2,
        ensures
            r.value() == v,
            r@ == resized(u128_digits(v), N as nat),
    {
        proof {
            lemma_u128_digits_value(v);
        }
        Self::low_digits(v)
    }

    /// The value as a 128-bit number, or `None` where it does not fit one.
    pub fn to_u128(&self) -> (r: Option<u128>)
        ensures
            r is Some <==> self.value() <= u128::MAX,
            r is Some ==> r->0 == self.value(),
    {
        let low = self.cast::<2>();
        let lo = low.digits[0] as u128;
        let hi = low.digits[1] as u128;
        let v: u128 = (hi << 64) | lo;
        proof {
            assert(v & 0xffff_ffff_ffff_ffff == lo && v >> 64 == hi) by (bit_vector)
                requires
                    v == (hi << 64) | lo,
                    hi <= 0xffff_ffff_ffff_ffff,
                    lo <= 0xffff_ffff_ffff_ffff,
            ;
            assert(u128_digits(v) =~= low@);
            lemma_u128_digits_value(v);
            lemma_value_bound(low@);
            lemma_resized_value(self@, 2);
            lemma2_to64_rest();
            vstd::arithmetic::power2::lemma_pow2_adds(64, 64);
            assert(pow2(128) == 0x1_0000_0000_0000_0000_0000_0000_0000_0000) by (nonlinear_arith)
                requires
                    pow2(128) == pow2(64) * pow2(64),
                    pow2(64) == 0x1_0000_0000_0000_0000,
            ;
            if N < 2 {
                lemma_value_bound(self@);
                if N == 1 {
                    vstd::arithmetic::power2::lemma_pow2_strictly_increases(64, 128);
                } else {
                    vstd::arithmetic::power2::lemma_pow2_strictly_increases(0, 128);
                }
            }
        }
        match self.fits_two_digits() {
            true => Some(v),
            false => None,
        }
    }

    /// Whether the value fits 128 bits: whether every digit above the second
    /// is zero.
    fn fits_two_digits(&self) -> (r: bool)
        ensures
            r == (forall|j: int| 2 <= j < N ==> self@[j] == 0),
    {
        let mut i: usize = 2;
        while i < N
            invariant
                2 <= i,
                forall|j: int| 2 <= j < i && j < N ==> self@[j] == 0,
            decreases N - i,
        {
            if self.digits[i] != 0 {
                assert(self@[i as int] != 0);
                return false;
            }
            i += 1;
        }
        true
    }

    /// The low digits of `v`, as many of the two as the width holds.
    fn low_digits(v: u128) -> (r: Self)
        ensures
            r@ == resized(u128_digits(v), N as nat),
            N >= 2 ==> r.value() == digits_value(u128_digits(v)),
    {
        let mut out = Self::zero();
        if N > 0 {
            let ghost before = out@;
            let lo = (v & 0xffff_ffff_ffff_ffff) as u64;
            out.digits[0] = lo;
            assert(out@ == before.update(0, lo));
        }
        if N > 1 {
            let ghost before = out@;
            let hi = (v >> 64) as u64;
            out.digits[1] = hi;
            assert(out@ == before.update(1, hi));
        }
        proof {
            assert(out@ =~= resized(u128_digits(v), N as nat));
            lemma_resized_value(u128_digits(v), N as nat);
        }
        out
    }
}

impl<const N: usize> From<u8> for BUint<N> {
    /// The value of `v`. A type of no digits has the value zero only.
    fn from(v: u8) -> (r: Self) {
        let r = Self::low_digits(v as u128);
        proof {
            r.lemma_of_digits();
        }
        r
    }
}

impl<const N: usize> FromSpecImpl<u8> for BUint<N> {
    open spec fn obeys_from_spec() -> bool {
        true
    }

    open spec fn from_spec(v: u8) -> Self {
        Self::of_digits(resized(u128_digits(v as u128), N as nat))
    }
}

impl<const N: usize> From<u16> for BUint<N> {
    /// The value of `v`. A type of no digits has the value zero only.
    fn from(v: u16) -> (r: Self) {
        let r = Self::low_digits(v as u128);
        proof {
            r.lemma_of_digits();
        }
        r
    }
}

impl<const N: usize> FromSpecImpl<u16> for BUint<N> {
    open spec fn obeys_from_spec() -> bool {
        true
    }

    open spec fn from_spec(v: u16) -> Self {
        Self::of_digits(resized(u128_digits(v as u128), N as nat))
    }
}

impl<const N: usize> From<u32> for BUint<N> {
    /// The value of `v`. A type of no digits has the value zero only.
    fn from(v: u32) -> (r: Self) {
        let r = Self::low_digits(v as u128);
        proof {
            r.lemma_of_digits();
        }
        r
    }
}

impl<const N: usize> FromSpecImpl<u32> for BUint<N> {
    open spec fn obeys_from_spec() -> bool {
        true
    }

    open spec fn from_spec(v: u32) -> Self {
        Self::of_digits(resized(u128_digits(v as u128), N as nat))
    }
}

impl<const N: usize> From<u64> for BUint<N> {
    /// The value of `v`. A type of no digits has the value zero only.
    fn from(v: u64) -> (r: Self) {
        let r = Self::low_digits(v as u128);
        proof {
            r.lemma_of_digits();
        }
        r
    }
}

impl<const N: usize> FromSpecImpl<u64> for BUint<N> {
    open spec fn obeys_from_spec() -> bool {
        true
    }

    open spec fn from_spec(v: u64) -> Self {
        Self::of_digits(resized(u128_digits(v as u128), N as nat))
    }
}

impl<const N: usize> From<u128> for BUint<N> {
    /// The value of `v`. A width below two digits keeps the low digits that
    /// it holds.
    fn from(v: u128) -> (r: Self) {
        let r = Self::low_digits(v);
        proof {
            r.lemma_of_digits();
        }
        r
    }
}

impl<const N: usize> FromSpecImpl<u128> for BUint<N> {
    open spec fn obeys_from_spec() -> bool {
        true
    }

    open spec fn from_spec(v: u128) -> Self {
        Self::of_digits(resized(u128_digits(v), N as nat))
    }
}

impl<const N: usize> Default for BUint<N> {
    /// Zero.
    fn default() -> (r: Self)
        ensures
            r.value() == 0,
            r@ == Seq::new(N as nat, |i: int| 0u64),
    {
        Self::zero()
    }
}

/// Narrowing after widening, and widening after a narrowing that lost
/// nothing, both give the value back.
pub proof fn lemma_widen_narrow_restores<const N: usize, const M: usize>(
    x: BUint<N>,
    y: BUint<M>,
    z: BUint<N>,
)
    requires
        M <= N,
        x.value() < modulus(M as nat),
        y@ == resized(x@, M as nat),
        z@ == resized(y@, N as nat),
    ensures
        y.value() == x.value(),
        z == x,
{
    lemma_resized_value(x@, M as nat);
    vstd::arithmetic::div_mod::lemma_small_mod(x.value(), modulus(M as nat));
    assert(z@ =~= x@);
    assert(z.digits =~= x.digits);
}

} // verus!
