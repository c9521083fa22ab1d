//! Bit runs at either end, bit length, single bits, and byte and bit reversal.
use crate::buint::{BUint, is_leading_run, is_trailing_run, MAX_DIGITS};
use crate::digit::{
    digit_bit, digit_byte, ExpType, lemma_digit_bit_extremes, lemma_leading_ones_bits,
    lemma_trailing_ones_bits, lemma_trailing_zeros_bits,
};
use crate::model::{digits_value, lemma_value_bound, seq_bit, seq_ones};
use crate::natbits::{
    lemma_bit_above, lemma_bit_of_multiple, lemma_bit_of_remainder, lemma_equal_by_bits,
    lemma_seq_bit_is_nat_bit, nat_bit,
};
use vstd::arithmetic::power2::{lemma_pow2_pos, lemma_pow2_strictly_increases, pow2};
use vstd::prelude::*;
use vstd::std_specs::bits::{u64_leading_ones, u64_trailing_ones, u64_trailing_zeros};

verus! {

/// Byte `k` of the number that `s` stands for, counted from the least
/// significant.
pub open spec fn seq_byte(s: Seq<u64>, k: int) -> u64 {
    digit_byte(s[k / 8], k % 8)
}

/// `r` is the bit length of `s`: no bit at or above `r` is set, and bit
/// `r - 1` is, unless `r` is zero.
pub open spec fn is_bit_length(s: Seq<u64>, r: int) -> bool {
    &&& 0 <= r <= 64 * s.len()
    &&& forall|i: int| r <= i < 64 * s.len() ==> !seq_bit(s, i)
    &&& r > 0 ==> seq_bit(s, r - 1)
}

/// The bit length of `s`.
pub open spec fn seq_bit_length(s: Seq<u64>) -> int {
    choose|r: int| is_bit_length(s, r)
}

/// A sequence has one bit length only.
pub proof fn lemma_bit_length_unique(s: Seq<u64>, a: int, b: int)
    requires
        is_bit_length(s, a),
        is_bit_length(s, b),
    ensures
        a == b,
        seq_bit_length(s) == a,
{
    if a < b {
        assert(!seq_bit(s, b - 1));
    }
    if b < a {
        assert(!seq_bit(s, a - 1));
    }
    let c = seq_bit_length(s);
    if a < c {
        assert(!seq_bit(s, c - 1));
    }
    if c < a {
        assert(!seq_bit(s, a - 1));
    }
}

/// Digit sequences of one length with the same bits are equal.
pub proof fn lemma_equal_by_seq_bits(a: Seq<u64>, b: Seq<u64>)
    requires
        a.len() == b.len(),
        forall|i: int| 0 <= i < 64 * a.len() ==> seq_bit(a, i) == seq_bit(b, i),
    ensures
        a == b,
{
    assert forall|d: int| 0 <= d < a.len() implies a[d] == b[d] by {
        assert forall|j: int| 0 <= j < 64 implies digit_bit(a[d], j) == digit_bit(b[d], j) by {
            assert(seq_bit(a, 64 * d + j) == seq_bit(b, 64 * d + j));
        }
        crate::digit::lemma_digit_bits_equal(a[d], b[d]);
    }
    assert(a =~= b);
}

/// The leading zeros and the bit length of a value together make up the
/// width.
pub proof fn lemma_leading_zeros_and_bits<const N: usize>(
    x: BUint<N>,
    zeros: ExpType,
    bits: ExpType,
)
    requires
        is_leading_run(x@, false, zeros as int),
        is_bit_length(x@, bits as int),
    ensures
        zeros + bits == BUint::<N>::width(),
{
    assert(x@.len() == N);
    let w = 64 * N as int;
    if zeros + bits < w {
        assert(!seq_bit(x@, w - 1 - zeros));
    }
    if zeros + bits > w {
        assert(!seq_bit(x@, bits - 1));
    }
}

/// The set bits and the clear bits of a value together make up the width.
pub proof fn lemma_ones_and_zeros<const N: usize>(x: BUint<N>, ones: ExpType, zeros: ExpType)
    requires
        ones == seq_ones(x@),
        zeros == BUint::<N>::width() - seq_ones(x@),
    ensures
        ones + zeros == BUint::<N>::width(),
{
}

/// A sequence of bit length `len` stands for a number below `2^len`, and
/// for one that is at least `2^(len - 1)` unless `len` is zero.
pub proof fn lemma_bit_length_value(s: Seq<u64>, len: int)
    requires
        is_bit_length(s, len),
    ensures
        digits_value(s) < pow2(len as nat),
        len > 0 ==> digits_value(s) >= pow2((len - 1) as nat),
{
    let v = digits_value(s);
    let w = (64 * s.len()) as nat;
    let low = v % pow2(len as nat);
    lemma_value_bound(s);
    lemma_pow2_pos(len as nat);
    vstd::arithmetic::div_mod::lemma_mod_bound(v as int, pow2(len as nat) as int);
    vstd::arithmetic::div_mod::lemma_mod_decreases(v, pow2(len as nat));
    assert forall|i: nat| i < w implies nat_bit(v, i) == nat_bit(low, i) by {
        lemma_seq_bit_is_nat_bit(s, i as int);
        if i < len {
            lemma_bit_of_remainder(v, len as nat, i);
        } else {
            lemma_bit_above(low, len as nat, i);
        }
    }
    lemma_equal_by_bits(v, low, w);
    if len > 0 {
        lemma_seq_bit_is_nat_bit(s, len - 1);
        if v < pow2((len - 1) as nat) {
            lemma_bit_above(v, (len - 1) as nat, (len - 1) as nat);
        }
    }
}

/// A sequence whose only set bit is bit `k` stands for `2^k`.
pub proof fn lemma_single_bit_value(s: Seq<u64>, k: int)
    requires
        is_single_bit(s, k),
    ensures
        digits_value(s) == pow2(k as nat),
{
    let v = digits_value(s);
    let w = (64 * s.len()) as nat;
    let p = pow2(k as nat);
    lemma_value_bound(s);
    lemma_pow2_strictly_increases(k as nat, w);
    assert(1 * p == p);
    assert forall|i: nat| i < w implies nat_bit(v, i) == nat_bit(p, i) by {
        lemma_seq_bit_is_nat_bit(s, i as int);
        lemma_bit_of_multiple(1, k as nat, i);
        assert(seq_bit(s, i as int) == (i == k));
        vstd::arithmetic::power2::lemma2_to64();
        if i >= k {
            let j = (i - k) as nat;
            if j > 0 {
                lemma_pow2_strictly_increases(0, j);
                lemma_bit_above(1, j, j);
                assert(!nat_bit(1, j));
            } else {
                let unit = pow2(0);
                assert(1nat / unit == 1) by (nonlinear_arith)
                    requires
                        unit == 1,
                ;
            }
        }
        assert(nat_bit(1 * p, i) == (i == k));
    }
    lemma_equal_by_bits(v, p, w);
}

/// `k` is the only set bit of `s`.
pub open spec fn is_single_bit(s: Seq<u64>, k: int) -> bool {
    &&& 0 <= k < 64 * s.len()
    &&& forall|i: int| 0 <= i < 64 * s.len() ==> seq_bit(s, i) == (i == k)
}

impl<const N: usize> BUint<N> {
    /// The least number of bits that hold the value.
    pub open spec fn bit_length(&self) -> int {
        seq_bit_length(self@)
    }

    /// The number of clear bits below the lowest set bit.
    #[inline]
    pub fn trailing_zeros(self) -> (r: ExpType)
        requires
            Self::width_ok(),
        ensures
            is_trailing_run(self@, false, r as int),
    {
        let mut zeros: u32 = 0;
        let mut i: usize = 0;
        let mut open: bool = true;
        while i < N && open
            invariant
                i <= N,
                N <= MAX_DIGITS,
                open ==> zeros == 64 * i,
                open ==> forall|j: int| 0 <= j < i ==> self@[j] == 0,
                !open ==> is_trailing_run(self@, false, zeros as int),
            decreases N - i + if open { 1int } else { 0int },
        {
            let digit = self.digits[i];
            proof {
                lemma_trailing_zeros_bits(digit);
            }
            zeros += digit.trailing_zeros();
            if digit != 0 {
                open = false;
                proof {
                    let s = self@;
                    assert forall|k: int| 0 <= k < zeros implies seq_bit(s, k) == false by {
                        lemma_digit_bit_extremes(k % 64);
                    }
                    assert(seq_bit(s, zeros as int) == digit_bit(
                        digit,
                        u64_trailing_zeros(digit) as int,
                    ));
                }
            } else {
                i += 1;
            }
        }
        proof {
            if open {
                let s = self@;
                assert forall|k: int| 0 <= k < 64 * s.len() implies seq_bit(s, k) == false by {
                    lemma_digit_bit_extremes(k % 64);
                }
            }
        }
        zeros
    }

    /// The number of set bits above the highest clear bit.
    #[inline]
    pub fn leading_ones(self) -> (r: ExpType)
        requires
            Self::width_ok(),
        ensures
            is_leading_run(self@, true, r as int),
    {
        let mut ones: u32 = 0;
        let mut i: usize = N;
        let mut open: bool = true;
        while i > 0 && open
            invariant
                i <= N,
                N <= MAX_DIGITS,
                open ==> ones == 64 * (N - i),
                open ==> forall|j: int| i <= j < N ==> self@[j] == u64::MAX,
                !open ==> is_leading_run(self@, true, ones as int),
            decreases i,
        {
            i -= 1;
            let digit = self.digits[i];
            proof {
                lemma_leading_ones_bits(digit);
            }
            ones += digit.leading_ones();
            if digit != u64::MAX {
                open = false;
                proof {
                    let s = self@;
                    assert forall|k: int| 64 * s.len() - ones <= k < 64 * s.len() implies seq_bit(
                        s,
                        k,
                    ) == true by {
                        lemma_digit_bit_extremes(k % 64);
                    }
                    assert(seq_bit(s, 64 * s.len() - 1 - ones) == digit_bit(
                        digit,
                        63 - u64_leading_ones(digit),
                    ));
                }
            }
        }
        proof {
            if open {
                let s = self@;
                assert forall|k: int| 0 <= k < 64 * s.len() implies seq_bit(s, k) == true by {
                    lemma_digit_bit_extremes(k % 64);
                }
            }
        }
        ones
    }

    /// The number of set bits below the lowest clear bit.
    #[inline]
    pub fn trailing_ones(self) -> (r: ExpType)
        requires
            Self::width_ok(),
        ensures
            is_trailing_run(self@, true, r as int),
    {
        let mut ones: u32 = 0;
        let mut i: usize = 0;
        let mut open: bool = true;
        while i < N && open
            invariant
                i <= N,
                N <= MAX_DIGITS,
                open ==> ones == 64 * i,
                open ==> forall|j: int| 0 <= j < i ==> self@[j] == u64::MAX,
                !open ==> is_trailing_run(self@, true, ones as int),
            decreases N - i + if open { 1int } else { 0int },
        {
            let digit = self.digits[i];
            proof {
                lemma_trailing_ones_bits(digit);
            }
            ones += digit.trailing_ones();
            if digit != u64::MAX {
                open = false;
                proof {
                    let s = self@;
                    assert forall|k: int| 0 <= k < ones implies seq_bit(s, k) == true by {
                        lemma_digit_bit_extremes(k % 64);
                    }
                    assert(seq_bit(s, ones as int) == digit_bit(
                        digit,
                        u64_trailing_ones(digit) as int,
                    ));
                }
            } else {
                i += 1;
            }
        }
        proof {
            if open {
                let s = self@;
                assert forall|k: int| 0 <= k < 64 * s.len() implies seq_bit(s, k) == true by {
                    lemma_digit_bit_extremes(k % 64);
                }
            }
        }
        ones
    }

    /// The bit length: the least number of bits that hold the value.
    #[inline]
    pub fn bits(&self) -> (r: ExpType)
        requires
            Self::width_ok(),
        ensures
            is_bit_length(self@, r as int),
            r == self.bit_length(),
            is_leading_run(self@, false, Self::width() - r),
            self.value() < pow2(r as nat),
            r > 0 ==> self.value() >= pow2((r - 1) as nat),
    {
        let r = Self::bit_width() - self.leading_zeros();
        proof {
            assert(self@.len() == N);
            lemma_bit_length_unique(self@, r as int, r as int);
            lemma_bit_length_value(self@, r as int);
        }
        r
    }

    /// Whether the bit at `index` is set.
    #[inline]
    pub fn bit(&self, index: ExpType) -> (r: bool)
        requires
            index < Self::width(),
        ensures
            r == self.bit_at(index as int),
    {
        proof {
            crate::digit::lemma_split_index(index);
        }
        let digit = self.digits[(index >> crate::digit::BIT_SHIFT) as usize];
        let j: u32 = index & crate::digit::BITS_MINUS_1;
        assert(((digit & (1u64 << j)) != 0) == ((digit >> (j as u64)) & 1 == 1)) by (bit_vector)
            requires
                j < 64,
        ;
        digit & (1u64 << j) != 0
    }

    /// The value `2^power`: the one whose only set bit is bit `power`.
    #[inline]
    pub fn power_of_two(power: ExpType) -> (r: Self)
        requires
            power < Self::width(),
        ensures
            is_single_bit(r@, power as int),
            r.value() == pow2(power as nat),
    {
        proof {
            crate::digit::lemma_split_index(power);
        }
        let mut out = Self::zero();
        let j: u32 = power & (crate::digit::BITS - 1);
        let d: u64 = 1u64 << j;
        out.digits[(power >> crate::digit::BIT_SHIFT) as usize] = d;
        proof {
            assert(out@.len() == N);
            assert forall|i: int| 0 <= i < 64 * out@.len() implies seq_bit(out@, i) == (i
                == power) by {
                let k = (i % 64) as u64;
                lemma_digit_bit_extremes(i % 64);
                crate::digit::lemma_one_shifted_bits(j as u64, k);
            }
            lemma_single_bit_value(out@, power as int);
        }
        out
    }

    /// The index of the highest nonzero digit, or zero where there is none.
    #[inline]
    pub fn last_digit_index(&self) -> (r: usize)
        ensures
            N > 0 ==> r < N,
            N == 0 ==> r == 0,
            forall|j: int| r < j < N ==> self@[j] == 0,
            0 < r < N ==> self@[r as int] != 0,
    {
        let mut index: usize = 0;
        let mut i: usize = 1;
        while i < N
            invariant
                1 <= i,
                N > 0 ==> i <= N,
                index < i,
                index < N || index == 0,
                forall|j: int| index < j < i && j < N ==> self@[j] == 0,
                index > 0 ==> self@[index as int] != 0,
            decreases N - i,
        {
            if self.digits[i] != 0 {
                index = i;
            }
            i += 1;
        }
        index
    }

    /// Reverses the order of the bytes.
    #[inline]
    pub fn swap_bytes(self) -> (r: Self)
        ensures
            forall|k: int| 0 <= k < 8 * N ==> seq_byte(r@, k) == seq_byte(self@, 8 * N - 1 - k),
    {
        let mut uint = Self::zero();
        let mut i: usize = 0;
        while i < N
            invariant
                i <= N,
                forall|k: int| 0 <= k < 8 * i ==> seq_byte(uint@, k) == seq_byte(self@, 8 * N - 1 - k),
            decreases N - i,
        {
            let ghost before = uint@;
            uint.digits[i] = self.digits[N - 1 - i].swap_bytes();
            proof {
                assert forall|k: int| 0 <= k < 8 * (i + 1) implies seq_byte(uint@, k) == seq_byte(
                    self@,
                    8 * N - 1 - k,
                ) by {
                    if k < 8 * i {
                        assert(seq_byte(uint@, k) == seq_byte(before, k));
                    } else {
                        assert(digit_byte(uint@[i as int], k % 8) == digit_byte(
                            self@[N - 1 - i],
                            7 - k % 8,
                        ));
                    }
                }
            }
            i += 1;
        }
        uint
    }

    /// Reverses the order of the bits.
    #[inline]
    pub fn reverse_bits(self) -> (r: Self)
        ensures
            forall|k: int| 0 <= k < 64 * N ==> r.bit_at(k) == self.bit_at(64 * N - 1 - k),
    {
        let mut uint = Self::zero();
        let mut i: usize = 0;
        while i < N
            invariant
                i <= N,
                forall|k: int| 0 <= k < 64 * i ==> seq_bit(uint@, k) == seq_bit(self@, 64 * N - 1 - k),
            decreases N - i,
        {
            let ghost before = uint@;
            uint.digits[i] = self.digits[N - 1 - i].reverse_bits();
            proof {
                assert forall|k: int| 0 <= k < 64 * (i + 1) implies seq_bit(uint@, k) == seq_bit(
                    self@,
                    64 * N - 1 - k,
                ) by {
                    if k < 64 * i {
                        assert(seq_bit(uint@, k) == seq_bit(before, k));
                    } else {
                        assert(digit_bit(uint@[i as int], k % 64) == digit_bit(
                            self@[N - 1 - i],
                            63 - k % 64,
                        ));
                    }
                }
            }
            i += 1;
        }
        uint
    }
}

} // verus!
