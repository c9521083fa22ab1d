//! The tests on single values (zero, one, a power of two) and what is read off
//! the highest set bit: the next power of two, the binary logarithm, the
//! leading 64 bits.
use crate::buint::bits::{is_bit_length, is_single_bit, lemma_bit_length_unique, seq_bit_length};
use crate::buint::BUint;
use crate::digit::{
    digit_bit, digit_ones, ExpType, lemma_digit_bit_extremes, lemma_digit_ones_bound,
    lemma_leading_zeros_bits, lemma_shl_carry_bits,
};
use crate::model::{
    digits_value, lemma_ones_take_step, lemma_value_first, lemma_value_high_zero,
    lemma_value_take_ends, lemma_value_zero_iff, seq_bit, seq_ones,
};
use vstd::arithmetic::power2::pow2;
use vstd::prelude::*;
use vstd::std_specs::bits::u64_leading_zeros;

verus! {

/// The ones of a prefix are no more than those of the whole sequence.
proof fn lemma_ones_prefix_le(s: Seq<u64>, i: int)
    requires
        0 <= i <= s.len(),
    ensures
        seq_ones(s.take(i)) <= seq_ones(s),
    decreases s.len() - i,
{
    if i == s.len() {
        lemma_value_take_ends(s);
    } else {
        lemma_ones_take_step(s, i);
        lemma_ones_prefix_le(s, i + 1);
    }
}

/// A digit without set bits is zero.
pub proof fn lemma_digit_ones_zero(d: u64)
    ensures
        digit_ones(d) == 0 <==> d == 0,
    decreases d,
{
    if d != 0 {
        lemma_digit_ones_zero(d / 2);
    }
}

/// A digit with one set bit is a power of two.
pub proof fn lemma_digit_single_one(d: u64) -> (j: nat)
    requires
        digit_ones(d) == 1,
    ensures
        j < 64,
        d == pow2(j),
    decreases d,
{
    vstd::arithmetic::power2::lemma2_to64();
    vstd::arithmetic::power2::lemma2_to64_rest();
    if d % 2 == 1 {
        lemma_digit_ones_zero(d / 2);
        0
    } else {
        let h = lemma_digit_single_one(d / 2);
        vstd::arithmetic::power2::lemma_pow2_unfold(h + 1);
        if h + 1 >= 64 {
            if h + 1 > 64 {
                vstd::arithmetic::power2::lemma_pow2_strictly_increases(64, h + 1);
            }
        }
        h + 1
    }
}

/// A digit that is a power of two has one set bit.
pub proof fn lemma_digit_ones_of_power(d: u64, j: nat)
    requires
        d == pow2(j),
    ensures
        digit_ones(d) == 1,
    decreases j,
{
    vstd::arithmetic::power2::lemma2_to64();
    if j == 0 {
        assert(digit_ones(1) == 1) by {
            assert(digit_ones(0) == 0);
            assert(1u64 / 2 == 0);
        }
    } else {
        vstd::arithmetic::power2::lemma_pow2_unfold(j);
        lemma_digit_ones_of_power(d / 2, (j - 1) as nat);
    }
}

/// A sequence without set bits stands for zero.
pub proof fn lemma_seq_ones_zero(s: Seq<u64>)
    ensures
        seq_ones(s) == 0 <==> (forall|i: int| 0 <= i < s.len() ==> s[i] == 0),
    decreases s.len(),
{
    if s.len() > 0 {
        lemma_seq_ones_zero(s.drop_last());
        lemma_digit_ones_zero(s.last());
        if seq_ones(s) == 0 {
            assert forall|i: int| 0 <= i < s.len() implies s[i] == 0 by {
                if i < s.len() - 1 {
                    assert(s.drop_last()[i] == s[i]);
                }
            }
        }
        if forall|i: int| 0 <= i < s.len() ==> s[i] == 0 {
            assert forall|i: int| 0 <= i < s.drop_last().len() implies s.drop_last()[i] == 0 by {
                assert(s.drop_last()[i] == s[i]);
            }
        }
    }
}

/// A sequence with one set bit stands for a power of two.
pub proof fn lemma_seq_single_one(s: Seq<u64>) -> (k: nat)
    requires
        seq_ones(s) == 1,
    ensures
        digits_value(s) == pow2(k),
    decreases s.len(),
{
    let n = (s.len() - 1) as nat;
    let t = s.drop_last();
    if digit_ones(s.last()) == 0 {
        lemma_digit_ones_zero(s.last());
        assert(0 * pow2(64 * n) == 0) by (nonlinear_arith);
        lemma_seq_single_one(t)
    } else {
        lemma_seq_ones_zero(t);
        lemma_value_zero_iff(t);
        let j = lemma_digit_single_one(s.last());
        vstd::arithmetic::power2::lemma_pow2_adds(j, 64 * n);
        j + 64 * n
    }
}

/// A sequence that stands for a power of two has one set bit.
pub proof fn lemma_seq_ones_of_power(s: Seq<u64>, k: nat)
    requires
        digits_value(s) == pow2(k),
    ensures
        seq_ones(s) == 1,
    decreases s.len(),
{
    vstd::arithmetic::power2::lemma_pow2_pos(k);
    let n = (s.len() - 1) as nat;
    let t = s.drop_last();
    let p = pow2(64 * n);
    if s.last() == 0 {
        assert(0 * p == 0) by (nonlinear_arith);
        lemma_seq_ones_of_power(t, k);
        lemma_digit_ones_zero(s.last());
    } else {
        // the value is the top digit's share alone: a power of two at or above
        // the weight of the top digit has no part below it
        crate::model::lemma_value_bound(t);
        crate::model::lemma_weight_step(n);
        let d = s.last() as nat;
        let low = digits_value(t);
        assert(d * p >= p) by (nonlinear_arith)
            requires
                d >= 1,
                p >= 0,
        ;
        if k < 64 * n {
            vstd::arithmetic::power2::lemma_pow2_strictly_increases(k, 64 * n);
        }
        let r = (k - 64 * n) as nat;
        vstd::arithmetic::power2::lemma_pow2_adds(r, 64 * n);
        let q = pow2(r);
        assert(low == 0 && d == q) by (nonlinear_arith)
            requires
                low + d * p == q * p,
                low < p,
        ;
        lemma_value_zero_iff(t);
        lemma_seq_ones_zero(t);
        lemma_digit_ones_of_power(s.last(), r);
    }
}

/// The bit length, read off the highest nonzero digit `idx`.
pub proof fn lemma_bit_length_from_top(s: Seq<u64>, idx: int)
    requires
        0 <= idx < s.len(),
        forall|j: int| idx < j < s.len() ==> s[j] == 0,
        idx > 0 ==> s[idx] != 0,
    ensures
        is_bit_length(s, 64 * idx + 64 - u64_leading_zeros(s[idx])),
        seq_bit_length(s) == 64 * idx + 64 - u64_leading_zeros(s[idx]),
        s[idx] != 0 ==> seq_bit_length(s) > 0,
        s[idx] == 0 ==> seq_bit_length(s) == 0,
{
    let d = s[idx];
    let lz = u64_leading_zeros(d);
    lemma_leading_zeros_bits(d);
    let len = 64 * idx + 64 - lz;
    assert forall|i: int| len <= i < 64 * s.len() implies !seq_bit(s, i) by {
        lemma_digit_bit_extremes(i % 64);
    }
    if len > 0 {
        assert(seq_bit(s, len - 1) == digit_bit(d, 63 - lz));
    }
    lemma_bit_length_unique(s, len, len);
}

/// The bit length lies between zero and the width.
pub proof fn lemma_bit_length_range(s: Seq<u64>)
    ensures
        is_bit_length(s, seq_bit_length(s)),
        0 <= seq_bit_length(s) <= 64 * s.len(),
    decreases s.len(),
{
    if s.len() == 0 {
        assert(is_bit_length(s, 0));
    } else {
        let top = s.len() - 1;
        if s[top] != 0 || top == 0 {
            lemma_bit_length_from_top(s, top);
        } else {
            let t = s.drop_last();
            lemma_bit_length_range(t);
            let l = seq_bit_length(t);
            assert forall|i: int| l <= i < 64 * s.len() implies !seq_bit(s, i) by {
                lemma_digit_bit_extremes(i % 64);
                if i < 64 * t.len() {
                    assert(seq_bit(t, i) == seq_bit(s, i));
                }
            }
            if l > 0 {
                assert(seq_bit(t, l - 1) == seq_bit(s, l - 1));
            }
            assert(is_bit_length(s, l));
        }
    }
}

/// A sequence with a nonzero digit has a set bit, so its bit length is not
/// zero.
pub proof fn lemma_bit_set_in_digit(s: Seq<u64>, idx: int)
    requires
        0 <= idx < s.len(),
        s[idx] != 0,
    ensures
        seq_bit_length(s) > 0,
{
    lemma_bit_length_range(s);
    if seq_bit_length(s) == 0 {
        assert forall|j: int| 0 <= j < 64 implies digit_bit(s[idx], j) == digit_bit(0, j) by {
            lemma_digit_bit_extremes(j);
            assert(!seq_bit(s, 64 * idx + j));
        }
        crate::digit::lemma_digit_bits_equal(s[idx], 0);
    }
}

impl<const N: usize> BUint<N> {
    /// Whether the value is zero.
    #[inline]
    pub fn is_zero(&self) -> (r: bool)
        ensures
            r == (self.value() == 0),
            r == (forall|j: int| 0 <= j < N ==> self@[j] == 0),
    {
        proof {
            assert(self@.len() == N);
            lemma_value_zero_iff(self@);
        }
        let mut i: usize = 0;
        while i < N
            invariant
                i <= N,
                forall|j: int| 0 <= j < i ==> self@[j] == 0,
            decreases N - i,
        {
            if self.digits[i] != 0 {
                proof {
                    assert(self@[i as int] != 0);
                    lemma_value_zero_iff(self@);
                }
                return false;
            }
            i += 1;
        }
        true
    }

    /// Whether the value is one.
    #[inline]
    pub fn is_one(&self) -> (r: bool)
        ensures
            r == (self.value() == 1),
    {
        if N == 0 {
            return false;
        }
        proof {
            lemma_value_first(self@);
        }
        let mut i: usize = 1;
        while i < N
            invariant
                1 <= i <= N,
                forall|j: int| 1 <= j < i ==> self@[j] == 0,
            decreases N - i,
        {
            if self.digits[i] != 0 {
                proof {
                    crate::model::lemma_value_ge_digit(self@, i as int);
                }
                return false;
            }
            i += 1;
        }
        proof {
            lemma_value_high_zero(self@, 1);
        }
        self.digits[0] == 1
    }

    /// Whether the value is `2^k` for some `k`: whether exactly one bit is
    /// set.
    #[inline]
    pub fn is_power_of_two(&self) -> (r: bool)
        ensures
            r == (seq_ones(self@) == 1),
            r == (exists|k: nat| self.value() == pow2(k)),
    {
        proof {
            if seq_ones(self@) == 1 {
                let k = lemma_seq_single_one(self@);
                assert(self.value() == pow2(k));
            }
            if exists|k: nat| self.value() == pow2(k) {
                let k = choose|k: nat| self.value() == pow2(k);
                lemma_seq_ones_of_power(self@, k);
            }
        }
        let mut i: usize = 0;
        let mut ones: u32 = 0;
        while i < N
            invariant
                i <= N,
                ones == seq_ones(self@.take(i as int)),
                ones <= 1,
                (seq_ones(self@) == 1) == (exists|k: nat| self.value() == pow2(k)),
            decreases N - i,
        {
            proof {
                lemma_ones_take_step(self@, i as int);
                lemma_digit_ones_bound(self@[i as int]);
                lemma_ones_prefix_le(self@, i + 1);
            }
            ones += self.digits[i].count_ones();
            if ones > 1 {
                return false;
            }
            i += 1;
        }
        proof {
            lemma_value_take_ends(self@);
        }
        ones == 1
    }

    /// The value as a bit count, or `None` where it does not fit one.
    #[inline]
    pub fn to_exp_type(self) -> (r: Option<ExpType>)
        ensures
            r is Some <==> self.value() <= u32::MAX,
            r is Some ==> r->0 == self.value(),
    {
        if N == 0 {
            return Some(0);
        }
        let last_index = self.last_digit_index();
        if last_index > 0 {
            proof {
                crate::model::lemma_value_ge_digit(self@, last_index as int);
            }
            return None;
        }
        proof {
            lemma_value_high_zero(self@, 1);
            lemma_value_first(self@);
        }
        let d = self.digits[0];
        if d > 0xffff_ffff {
            None
        } else {
            Some(d as u32)
        }
    }

    /// The smallest power of two that is not below `self`, or `None` where
    /// that power does not fit the width. A power of two is its own answer;
    /// any other value is followed by the power at its bit length.
    pub fn checked_next_power_of_two(self) -> (r: Option<Self>)
        requires
            N > 0,
        ensures
            seq_ones(self@) == 1 ==> r == Some(self),
            seq_ones(self@) != 1 ==> (r is None <==> self.bit_length() == 64 * N),
            seq_ones(self@) != 1 && r is Some ==> is_single_bit(r->0@, self.bit_length()),
            seq_ones(self@) != 1 && r is Some ==> r->0.value() == pow2(self.bit_length() as nat)
                && self.value() < r->0.value(),
            seq_ones(self@) != 1 && self.value() != 0 ==> self.value() >= pow2(
                (self.bit_length() - 1) as nat,
            ),
    {
        proof {
            lemma_bit_length_range(self@);
            crate::buint::bits::lemma_bit_length_value(self@, self.bit_length());
            if self.value() != 0 && self.bit_length() == 0 {
                vstd::arithmetic::power2::lemma2_to64();
            }
        }
        if self.is_power_of_two() {
            return Some(self);
        }
        let last_set_digit_index = self.last_digit_index();
        let leading_zeros = self.digits[last_set_digit_index].leading_zeros();
        proof {
            lemma_bit_length_from_top(self@, last_set_digit_index as int);
            lemma_leading_zeros_bits(self@[last_set_digit_index as int]);
        }

        if leading_zeros == 0 {
            if last_set_digit_index == N - 1 {
                None
            } else {
                let mut out = Self::zero();
                out.digits[last_set_digit_index + 1] = 1;
                proof {
                    assert(out@.len() == N);
                    assert forall|i: int| 0 <= i < 64 * out@.len() implies seq_bit(out@, i) == (i
                        == 64 * (last_set_digit_index + 1)) by {
                        let k = (i % 64) as u64;
                        lemma_digit_bit_extremes(i % 64);
                        assert((1u64 >> k) & 1 == 1 <==> k == 0) by (bit_vector)
                            requires
                                k < 64,
                        ;
                    }
                    crate::buint::bits::lemma_single_bit_value(
                        out@,
                        64 * (last_set_digit_index + 1),
                    );
                }
                Some(out)
            }
        } else {
            let mut out = Self::zero();
            let j: u32 = 64 - leading_zeros;
            out.digits[last_set_digit_index] = 1u64 << j;
            proof {
                assert(out@.len() == N);
                assert forall|i: int| 0 <= i < 64 * out@.len() implies seq_bit(out@, i) == (i
                    == 64 * last_set_digit_index + j) by {
                    let k = (i % 64) as u64;
                    lemma_digit_bit_extremes(i % 64);
                    crate::digit::lemma_one_shifted_bits(j as u64, k);
                }
                crate::buint::bits::lemma_single_bit_value(out@, 64 * last_set_digit_index + j);
            }
            Some(out)
        }
    }

    /// The smallest power of two that is not below `self`, or zero where
    /// that power does not fit the width.
    pub fn wrapping_next_power_of_two(self) -> (r: Self)
        requires
            N > 0,
        ensures
            seq_ones(self@) == 1 ==> r == self,
            seq_ones(self@) != 1 && self.bit_length() == 64 * N ==> r.value() == 0,
            seq_ones(self@) != 1 && self.bit_length() < 64 * N ==> is_single_bit(
                r@,
                self.bit_length(),
            ),
    {
        proof {
            lemma_bit_length_range(self@);
        }
        match self.checked_next_power_of_two() {
            Some(p) => p,
            None => Self::zero(),
        }
    }

    /// The smallest power of two that is not below `self`. The caller sees
    /// to it that this power fits the width.
    pub fn next_power_of_two(self) -> (r: Self)
        requires
            N > 0,
            seq_ones(self@) == 1 || self.bit_length() < 64 * N,
        ensures
            seq_ones(self@) == 1 ==> r == self,
            seq_ones(self@) != 1 ==> is_single_bit(r@, self.bit_length()),
    {
        self.wrapping_next_power_of_two()
    }

    /// The binary logarithm rounded down: the index of the highest set bit,
    /// or `None` for zero.
    pub fn checked_log2(self) -> (r: Option<ExpType>)
        requires
            Self::width_ok(),
        ensures
            r is None <==> self.value() == 0,
            r is Some ==> r->0 == self.bit_length() - 1,
            r is Some ==> pow2(r->0 as nat) <= self.value() < pow2((r->0 + 1) as nat),
    {
        if self.is_zero() {
            None
        } else {
            proof {
                let idx = choose|j: int| 0 <= j < N && self@[j] != 0;
                lemma_bit_set_in_digit(self@, idx);
            }
            Some(self.bits() - 1)
        }
    }

    /// The binary logarithm rounded down, of a value that is not zero.
    #[inline]
    pub fn log2(self) -> (r: ExpType)
        requires
            Self::width_ok(),
            self.value() != 0,
        ensures
            r == self.bit_length() - 1,
            pow2(r as nat) <= self.value() < pow2((r + 1) as nat),
    {
        match self.checked_log2() {
            Some(n) => n,
            None => 0,
        }
    }

    /// The leading 64 bits of the value: the value itself where its bit
    /// length is at most 64, else bits `len - 64` to `len - 1`.
    pub fn to_mantissa(&self) -> (r: u64)
        requires
            Self::width_ok(),
        ensures
            N == 0 ==> r == 0,
            N > 0 && self.bit_length() <= 64 ==> r == self@[0],
            N > 0 && self.bit_length() > 64 ==> forall|j: int|
                0 <= j < 64 ==> digit_bit(r, j) == self.bit_at(self.bit_length() - 64 + j),
    {
        if N == 0 {
            return 0;
        }
        let bits = self.bits();
        if bits <= crate::digit::BITS {
            return self.digits[0];
        }
        let i = self.last_digit_index();
        proof {
            lemma_bit_length_from_top(self@, i as int);
            lemma_leading_zeros_bits(self@[i as int]);
        }
        proof {
            crate::digit::lemma_split_index((bits - 1) as u32);
        }
        let digit_bits: u32 = ((bits - 1) & crate::digit::BITS_MINUS_1) + 1;
        let high = self.digits[i];
        if digit_bits == 64 {
            proof {
                assert forall|j: int| 0 <= j < 64 implies digit_bit(high, j) == self.bit_at(
                    self.bit_length() - 64 + j,
                ) by {}
            }
            return high;
        }
        let low = self.digits[i - 1];
        let bits_want: u32 = 64 - digit_bits;
        let out = (high << bits_want) | (low >> digit_bits);
        proof {
            assert forall|j: int| 0 <= j < 64 implies digit_bit(out, j) == self.bit_at(
                self.bit_length() - 64 + j,
            ) by {
                lemma_shl_carry_bits(high, low, bits_want as u64, j);
            }
        }
        out
    }
}

} // verus!
