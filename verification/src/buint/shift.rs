//! Shifts and rotations: a move of whole digits, then a shift inside the
//! digits that carries bits from each digit to its neighbour.
use crate::buint::BUint;
use crate::digit::{
    digit_bit, ExpType, lemma_digit_bit_extremes, lemma_shl_carry_bits, lemma_shr_carry_bits,
};
use crate::buint::arith::modulus;
use crate::model::{lemma_value_bound, seq_bit};
use crate::natbits::{
    lemma_bit_above, lemma_bit_of_multiple, lemma_bit_of_quotient, lemma_bit_of_remainder,
    lemma_equal_by_bits, lemma_seq_bit_is_nat_bit, nat_bit,
};
use vstd::arithmetic::power2::pow2;
use vstd::prelude::*;

verus! {

/// A left shift at the level of bits multiplies the value by `2^rhs`,
/// modulo `2^width`.
pub proof fn lemma_shl_value<const N: usize>(u: BUint<N>, rhs: nat, r: BUint<N>)
    requires
        forall|i: int| 0 <= i < 64 * N ==> r.bit_at(i) == (i >= rhs && u.bit_at(i - rhs)),
    ensures
        r.value() == (u.value() * pow2(rhs)) % modulus(N as nat),
{
    let w = (64 * N) as nat;
    let x = r.value();
    let full = u.value() * pow2(rhs);
    let y = full % pow2(w);
    lemma_value_bound(r@);
    lemma_value_bound(u@);
    vstd::arithmetic::power2::lemma_pow2_pos(w);
    assert forall|i: nat| i < w implies nat_bit(x, i) == nat_bit(y, i) by {
        lemma_seq_bit_is_nat_bit(r@, i as int);
        lemma_bit_of_remainder(full, w, i);
        lemma_bit_of_multiple(u.value(), rhs, i);
        assert(r.bit_at(i as int) == (i >= rhs && u.bit_at(i - rhs)));
        if i >= rhs {
            lemma_seq_bit_is_nat_bit(u@, i - rhs);
        }
    }
    lemma_equal_by_bits(x, y, w);
}

/// A right shift at the level of bits divides the value by `2^rhs`.
pub proof fn lemma_shr_value<const N: usize>(u: BUint<N>, rhs: nat, r: BUint<N>)
    requires
        forall|i: int| 0 <= i < 64 * N ==> r.bit_at(i) == (i + rhs < 64 * N && u.bit_at(i + rhs)),
    ensures
        r.value() == u.value() / pow2(rhs),
{
    let w = (64 * N) as nat;
    let x = r.value();
    let y = u.value() / pow2(rhs);
    lemma_value_bound(r@);
    lemma_value_bound(u@);
    vstd::arithmetic::power2::lemma_pow2_pos(rhs);
    vstd::arithmetic::div_mod::lemma_div_nonincreasing(u.value() as int, pow2(rhs) as int);
    assert forall|i: nat| i < w implies nat_bit(x, i) == nat_bit(y, i) by {
        lemma_seq_bit_is_nat_bit(r@, i as int);
        lemma_bit_of_quotient(u.value(), rhs, i);
        assert(r.bit_at(i as int) == (i + rhs < 64 * N && u.bit_at((i + rhs) as int)));
        if i + rhs < w {
            lemma_seq_bit_is_nat_bit(u@, (i + rhs) as int);
        } else {
            lemma_bit_above(u.value(), w, i + rhs);
        }
    }
    lemma_equal_by_bits(x, y, w);
}

/// Shifts `u` left by `rhs` bits: bit `i` of the result is bit `i - rhs` of
/// `u`, and clear where there is no such bit. Bits shifted out at the top are
/// lost.
pub fn unchecked_shl<const N: usize>(u: BUint<N>, rhs: ExpType) -> (r: BUint<N>)
    requires
        rhs < BUint::<N>::width(),
    ensures
        forall|i: int|
            0 <= i < 64 * N ==> r.bit_at(i) == (i >= rhs && u.bit_at(i - rhs)),
        rhs == 0 ==> r == u,
        r.value() == (u.value() * pow2(rhs as nat)) % modulus(N as nat),
{
    let r = if rhs == 0 {
        u
    } else {
        proof {
            crate::digit::lemma_split_index(rhs);
        }
        let digit_shift: usize = (rhs >> crate::digit::BIT_SHIFT) as usize;
        let shift: u32 = rhs & crate::digit::BITS_MINUS_1;

        let mut out = BUint::<N>::zero();
        let mut i: usize = digit_shift;
        while i < N
            invariant
                digit_shift <= i <= N,
                forall|j: int| 0 <= j < digit_shift ==> out@[j] == 0,
                forall|j: int| digit_shift <= j < i ==> out@[j] == u@[j - digit_shift],
            decreases N - i,
        {
            let ghost before = out@;
            out.digits[i] = u.digits[i - digit_shift];
            assert(out@ == before.update(i as int, u@[i - digit_shift]));
            i += 1;
        }

        if shift > 0 {
            let carry_shift: u32 = 64 - shift;
            let mut carry: u64 = 0;
            let ghost moved = out@;
            let mut i: usize = digit_shift;
            while i < N
                invariant
                    digit_shift <= i <= N,
                    0 < shift < 64,
                    carry_shift == 64 - shift,
                    moved.len() == N,
                    forall|j: int| 0 <= j < digit_shift ==> out@[j] == 0,
                    forall|j: int| i <= j < N ==> out@[j] == moved[j],
                    carry == (if i > digit_shift {
                        moved[i - 1] >> (carry_shift as u64)
                    } else {
                        0
                    }),
                    forall|j: int|
                        digit_shift <= j < i ==> out@[j] == (moved[j] << (shift as u64)) | (if j
                            > digit_shift {
                            moved[j - 1] >> (carry_shift as u64)
                        } else {
                            0
                        }),
                decreases N - i,
            {
                let ghost before = out@;
                let digit = out.digits[i];
                let new_carry = digit >> carry_shift;
                out.digits[i] = (digit << shift) | carry;
                assert(out@ == before.update(i as int, (digit << shift) | carry));
                carry = new_carry;
                i += 1;
            }
            proof {
                assert forall|k: int| 0 <= k < 64 * N implies out.bit_at(k) == (k >= rhs
                    && u.bit_at(k - rhs)) by {
                    let j = k / 64;
                    let b = k % 64;
                    lemma_digit_bit_extremes(b);
                    if j >= digit_shift {
                        let low = if j > digit_shift {
                            moved[j - 1]
                        } else {
                            0u64
                        };
                        assert(0u64 >> (carry_shift as u64) == 0) by (bit_vector);
                        assert(out@[j] == (moved[j] << (shift as u64)) | (low >> (
                        carry_shift as u64)));
                        lemma_shl_carry_bits(moved[j], low, shift as u64, b);
                        if b < shift {
                            lemma_digit_bit_extremes(b + 64 - shift);
                        }
                    }
                }
            }
        } else {
            proof {
                assert forall|k: int| 0 <= k < 64 * N implies out.bit_at(k) == (k >= rhs
                    && u.bit_at(k - rhs)) by {
                    lemma_digit_bit_extremes(k % 64);
                }
            }
        }

        out
    };
    proof {
        lemma_shl_value(u, rhs as nat, r);
    }
    r
}

/// Shifts `u` right by `rhs` bits: bit `i` of the result is bit `i + rhs` of
/// `u`, and clear where there is no such bit.
pub fn unchecked_shr<const N: usize>(u: BUint<N>, rhs: ExpType) -> (r: BUint<N>)
    requires
        rhs < BUint::<N>::width(),
    ensures
        forall|i: int|
            0 <= i < 64 * N ==> r.bit_at(i) == (i + rhs < 64 * N && u.bit_at(i + rhs)),
        rhs == 0 ==> r == u,
        r.value() == u.value() / pow2(rhs as nat),
{
    let r = if rhs == 0 {
        u
    } else {
        proof {
            crate::digit::lemma_split_index(rhs);
        }
        let digit_shift: usize = (rhs >> crate::digit::BIT_SHIFT) as usize;
        let shift: u32 = rhs & crate::digit::BITS_MINUS_1;
        let num_copies: usize = N - digit_shift;

        let mut out = BUint::<N>::zero();
        let mut i: usize = 0;
        while i < num_copies
            invariant
                i <= num_copies,
                num_copies == N - digit_shift,
                digit_shift < N,
                forall|j: int| i <= j < N ==> out@[j] == 0,
                forall|j: int| 0 <= j < i ==> out@[j] == u@[j + digit_shift],
            decreases num_copies - i,
        {
            let ghost before = out@;
            out.digits[i] = u.digits[i + digit_shift];
            assert(out@ == before.update(i as int, u@[i + digit_shift]));
            i += 1;
        }

        if shift > 0 {
            let borrow_shift: u32 = 64 - shift;
            let mut borrow: u64 = 0;
            let ghost moved = out@;
            let mut i: usize = num_copies;
            while i > 0
                invariant
                    i <= num_copies,
                    num_copies == N - digit_shift,
                    digit_shift < N,
                    0 < shift < 64,
                    borrow_shift == 64 - shift,
                    moved.len() == N,
                    forall|j: int| num_copies <= j < N ==> out@[j] == 0,
                    forall|j: int| 0 <= j < i ==> out@[j] == moved[j],
                    borrow == (if i < num_copies {
                        moved[i as int] << (borrow_shift as u64)
                    } else {
                        0
                    }),
                    forall|j: int|
                        i <= j < num_copies ==> out@[j] == (moved[j] >> (shift as u64)) | (if j
                            + 1 < num_copies {
                            moved[j + 1] << (borrow_shift as u64)
                        } else {
                            0
                        }),
                decreases i,
            {
                i -= 1;
                let ghost before = out@;
                let digit = out.digits[i];
                let new_borrow = digit << borrow_shift;
                out.digits[i] = (digit >> shift) | borrow;
                assert(out@ == before.update(i as int, (digit >> shift) | borrow));
                borrow = new_borrow;
            }
            proof {
                assert forall|k: int| 0 <= k < 64 * N implies out.bit_at(k) == (k + rhs < 64 * N
                    && u.bit_at(k + rhs)) by {
                    let j = k / 64;
                    let b = k % 64;
                    lemma_digit_bit_extremes(b);
                    if j < num_copies {
                        let high = if j + 1 < num_copies {
                            moved[j + 1]
                        } else {
                            0u64
                        };
                        assert(0u64 << (borrow_shift as u64) == 0) by (bit_vector);
                        assert(out@[j] == (moved[j] >> (shift as u64)) | (high << (
                        borrow_shift as u64)));
                        lemma_shr_carry_bits(moved[j], high, shift as u64, b);
                        if b + shift >= 64 {
                            lemma_digit_bit_extremes(b + shift - 64);
                        }
                    }
                }
            }
        } else {
            proof {
                assert forall|k: int| 0 <= k < 64 * N implies out.bit_at(k) == (k + rhs < 64 * N
                    && u.bit_at(k + rhs)) by {
                    lemma_digit_bit_extremes(k % 64);
                }
            }
        }

        out
    };
    proof {
        lemma_shr_value(u, rhs as nat, r);
    }
    r
}

/// The bit that a right shift by `rhs` with the pad digit `pad` puts at place
/// `i` of a value of `n` digits, where no bit of the value comes to stand
/// there: in the digits that the shift vacates whole, the bit of `pad` at
/// that place of the digit; in the digit that it vacates in part, a set bit
/// where `pad` is all ones and a clear bit else.
pub open spec fn pad_bit(pad: u64, n: int, rhs: int, i: int) -> bool {
    if i / 64 >= n - rhs / 64 {
        digit_bit(pad, i % 64)
    } else {
        pad == u64::MAX
    }
}

/// Shifts `u` right by `rhs` bits and pads at the top: bit `i` of the result
/// is bit `i + rhs` of `u`, and the pad bit where there is no such bit. With
/// a pad of zero this is the plain right shift; with one of all ones, set
/// bits come in at the top.
pub fn unchecked_shr_pad<const N: usize, const PAD: u64>(u: BUint<N>, rhs: ExpType) -> (r: BUint<
    N,
>)
    requires
        rhs < BUint::<N>::width(),
    ensures
        forall|i: int|
            0 <= i < 64 * N ==> r.bit_at(i) == (if i + rhs < 64 * N {
                u.bit_at(i + rhs)
            } else {
                pad_bit(PAD, N as int, rhs as int, i)
            }),
{
    proof {
        crate::digit::lemma_split_index(rhs);
    }
    let digit_shift: usize = (rhs >> crate::digit::BIT_SHIFT) as usize;
    let shift: u32 = rhs & crate::digit::BITS_MINUS_1;
    let num_copies: usize = N - digit_shift;
    let shifted = unchecked_shr(u, rhs);
    let mut out = shifted;
    let mut i: usize = num_copies;
    while i < N
        invariant
            num_copies <= i <= N,
            forall|j: int| 0 <= j < num_copies ==> out@[j] == shifted@[j],
            forall|j: int| num_copies <= j < i ==> out@[j] == PAD,
        decreases N - i,
    {
        let ghost before = out@;
        out.digits[i] = PAD;
        assert(out@ == before.update(i as int, PAD));
        i += 1;
    }
    let ghost filled = out@;
    if shift != 0 && PAD == u64::MAX {
        let top = out.digits[num_copies - 1] | (u64::MAX << (64 - shift));
        out.digits[num_copies - 1] = top;
        assert(out@ == filled.update(num_copies - 1, top));
    }
    proof {
        assert forall|k: int| 0 <= k < 64 * N implies out.bit_at(k) == (if k + rhs < 64 * N {
            u.bit_at(k + rhs)
        } else {
            pad_bit(PAD, N as int, rhs as int, k)
        }) by {
            let j = k / 64;
            let b = k % 64;
            assert(shifted.bit_at(k) == (k + rhs < 64 * N && u.bit_at(k + rhs)));
            if j == num_copies - 1 && shift != 0 && PAD == u64::MAX {
                crate::digit::lemma_fill_top_bits(filled[j], (64 - shift) as u64, b);
            }
        }
    }
    out
}

/// Where bit `i` of a value of `w` bits comes from when the value is rotated
/// left by `m` bits, `m < w`.
pub open spec fn rotated_from(i: int, m: int, w: int) -> int {
    if i >= m {
        i - m
    } else {
        i + w - m
    }
}

/// `r` is `x` rotated left by `n` bits, the amount taken modulo the width.
pub open spec fn is_rotated_left(x: Seq<u64>, n: int, r: Seq<u64>) -> bool {
    &&& r.len() == x.len()
    &&& forall|i: int|
        0 <= i < 64 * x.len() ==> seq_bit(r, i) == seq_bit(
            x,
            rotated_from(i, n % (64 * x.len() as int), 64 * x.len() as int),
        )
}

/// `r` is `x` rotated right by `n` bits, the amount taken modulo the width.
pub open spec fn is_rotated_right(x: Seq<u64>, n: int, r: Seq<u64>) -> bool {
    is_rotated_left(r, n, x)
}

/// Rotating left and then right by the same amount gives the value back.
pub proof fn lemma_rotate_left_right<const N: usize>(
    x: BUint<N>,
    k: ExpType,
    y: BUint<N>,
    z: BUint<N>,
)
    requires
        N > 0,
        is_rotated_left(x@, k as int, y@),
        is_rotated_right(y@, k as int, z@),
    ensures
        z == x,
{
    let w = 64 * N as int;
    assert(x@.len() == N && z@.len() == N);
    let m = k as int % w;
    assert(0 <= m < w) by (nonlinear_arith)
        requires
            m == k as int % w,
            w > 0,
    ;
    assert forall|j: int| 0 <= j < 64 * z@.len() implies seq_bit(z@, j) == seq_bit(x@, j) by {
        let i = if j + m < w {
            j + m
        } else {
            j + m - w
        };
        assert(rotated_from(i, m, w) == j);
        assert(seq_bit(y@, i) == seq_bit(x@, rotated_from(i, m, w)));
        assert(seq_bit(y@, i) == seq_bit(z@, rotated_from(i, m, w)));
    }
    crate::buint::bits::lemma_equal_by_seq_bits(z@, x@);
    assert(z.digits =~= x.digits);
}

impl<const N: usize> BUint<N> {
    /// Moves every digit `n` places up, the top `n` digits wrapping round to
    /// the bottom.
    #[inline]
    fn rotate_digits_left(self, n: usize) -> (r: Self)
        requires
            n < N,
        ensures
            forall|j: int| n <= j < N ==> r@[j] == self@[j - n],
            forall|j: int| 0 <= j < n ==> r@[j] == self@[j + N - n],
    {
        let mut out = Self::zero();
        let mut i: usize = 0;
        while i < N
            invariant
                i <= N,
                n < N,
                forall|j: int| n <= j < i ==> out@[j] == self@[j - n],
                forall|j: int| 0 <= j < n && j < i ==> out@[j] == self@[j + N - n],
            decreases N - i,
        {
            let ghost before = out@;
            let d = if i >= n {
                self.digits[i - n]
            } else {
                self.digits[i + (N - n)]
            };
            out.digits[i] = d;
            assert(out@ == before.update(i as int, d));
            i += 1;
        }
        out
    }

    /// Rotates left by `n` bits, `n` below the width.
    #[inline]
    fn unchecked_rotate_left(self, n: ExpType) -> (r: Self)
        requires
            n < Self::width(),
        ensures
            forall|i: int|
                0 <= i < 64 * N ==> r.bit_at(i) == self.bit_at(
                    rotated_from(i, n as int, 64 * N),
                ),
    {
        if n == 0 {
            self
        } else {
            proof {
                crate::digit::lemma_split_index(n);
            }
            let digit_shift: usize = (n >> crate::digit::BIT_SHIFT) as usize;
            let shift: u32 = n & crate::digit::BITS_MINUS_1;

            let mut out = self.rotate_digits_left(digit_shift);

            if shift > 0 {
                let carry_shift: u32 = 64 - shift;
                let mut carry: u64 = 0;
                let ghost moved = out@;
                let mut i: usize = 0;
                while i < N
                    invariant
                        i <= N,
                        0 < shift < 64,
                        carry_shift == 64 - shift,
                        moved.len() == N,
                        forall|j: int| i <= j < N ==> out@[j] == moved[j],
                        carry == (if i > 0 {
                            moved[i - 1] >> (carry_shift as u64)
                        } else {
                            0
                        }),
                        i > 0 ==> out@[0] == moved[0] << (shift as u64),
                        forall|j: int|
                            1 <= j < i ==> out@[j] == (moved[j] << (shift as u64)) | (moved[j
                                - 1] >> (carry_shift as u64)),
                    decreases N - i,
                {
                    let ghost before = out@;
                    let digit = out.digits[i];
                    let new_carry = digit >> carry_shift;
                    out.digits[i] = (digit << shift) | carry;
                    assert(out@ == before.update(i as int, (digit << shift) | carry));
                    assert(digit << (shift as u64) | 0 == digit << (shift as u64))
                        by (bit_vector);
                    carry = new_carry;
                    i += 1;
                }
                let ghost before = out@;
                let first = out.digits[0] | carry;
                out.digits[0] = first;
                assert(out@ == before.update(0, first));
                proof {
                    assert forall|k: int| 0 <= k < 64 * N implies out.bit_at(k) == self.bit_at(
                        rotated_from(k, n as int, 64 * N),
                    ) by {
                        let j = k / 64;
                        let b = k % 64;
                        let low = if j > 0 {
                            moved[j - 1]
                        } else {
                            moved[N - 1]
                        };
                        assert(out@[j] == (moved[j] << (shift as u64)) | (low >> (
                        carry_shift as u64)));
                        lemma_shl_carry_bits(moved[j], low, shift as u64, b);
                    }
                }
            }
            out
        }
    }

    /// Rotates left by `n` bits, taken modulo the width: the bits shifted out
    /// at the top come back in at the bottom.
    pub fn rotate_left(self, n: ExpType) -> (r: Self)
        requires
            N > 0,
            Self::width_ok(),
        ensures
            is_rotated_left(self@, n as int, r@),
    {
        let r = self.unchecked_rotate_left(n % Self::bit_width());
        proof {
            assert(self@.len() == N && r@.len() == N);
            assert forall|i: int| 0 <= i < 64 * self@.len() implies seq_bit(r@, i) == seq_bit(
                self@,
                rotated_from(i, n as int % (64 * self@.len() as int), 64 * self@.len() as int),
            ) by {
                assert(r.bit_at(i) == self.bit_at(rotated_from(i, n as int % (64 * N), 64 * N)));
            }
        }
        r
    }

    /// Rotates right by `n` bits, taken modulo the width: the bits shifted
    /// out at the bottom come back in at the top.
    pub fn rotate_right(self, n: ExpType) -> (r: Self)
        requires
            N > 0,
            Self::width_ok(),
        ensures
            is_rotated_right(self@, n as int, r@),
    {
        let m = n % Self::bit_width();
        let r = if m == 0 {
            self
        } else {
            self.unchecked_rotate_left(Self::bit_width() - m)
        };
        proof {
            assert(self@.len() == N && r@.len() == N);
            let w = 64 * N as int;
            assert forall|i: int| 0 <= i < 64 * r@.len() implies seq_bit(self@, i) == seq_bit(
                r@,
                rotated_from(i, n as int % (64 * r@.len() as int), 64 * r@.len() as int),
            ) by {
                let k = rotated_from(i, m as int, w);
                if m != 0 {
                    assert(r.bit_at(k) == self.bit_at(rotated_from(k, w - m, w)));
                }
            }
        }
        r
    }

    /// Shifts left by `rhs` bits, or returns `None` where `rhs` is not below
    /// the width.
    pub fn checked_shl(self, rhs: ExpType) -> (r: Option<Self>)
        requires
            Self::width_ok(),
        ensures
            r is Some <==> rhs < Self::width(),
            rhs == 0 && N > 0 ==> r == Some(self),
            r is Some ==> forall|i: int|
                0 <= i < 64 * N ==> r->0.bit_at(i) == (i >= rhs && self.bit_at(i - rhs)),
    {
        if rhs < Self::bit_width() {
            Some(unchecked_shl(self, rhs))
        } else {
            None
        }
    }

    /// A shift amount taken modulo the width.
    pub open spec fn reduced(rhs: ExpType) -> int {
        rhs as int % (64 * N as int)
    }

    /// Shifts left by `rhs` bits, the amount taken modulo the width; says
    /// whether `rhs` was not below the width.
    pub fn overflowing_shl(self, rhs: ExpType) -> (r: (Self, bool))
        requires
            N > 0,
            Self::width_ok(),
        ensures
            r.1 == (rhs >= Self::width()),
            forall|i: int|
                0 <= i < 64 * N ==> r.0.bit_at(i) == (i >= Self::reduced(rhs) && self.bit_at(
                    i - Self::reduced(rhs),
                )),
    {
        let w = Self::bit_width();
        (unchecked_shl(self, rhs % w), rhs >= w)
    }

    /// Shifts right by `rhs` bits, the amount taken modulo the width; says
    /// whether `rhs` was not below the width.
    pub fn overflowing_shr(self, rhs: ExpType) -> (r: (Self, bool))
        requires
            N > 0,
            Self::width_ok(),
        ensures
            r.1 == (rhs >= Self::width()),
            forall|i: int|
                0 <= i < 64 * N ==> r.0.bit_at(i) == (i + Self::reduced(rhs) < 64 * N
                    && self.bit_at(i + Self::reduced(rhs))),
    {
        let w = Self::bit_width();
        (unchecked_shr(self, rhs % w), rhs >= w)
    }

    /// Shifts left by `rhs` bits, the amount taken modulo the width.
    pub fn wrapping_shl(self, rhs: ExpType) -> (r: Self)
        requires
            N > 0,
            Self::width_ok(),
        ensures
            forall|i: int|
                0 <= i < 64 * N ==> r.bit_at(i) == (i >= Self::reduced(rhs) && self.bit_at(
                    i - Self::reduced(rhs),
                )),
    {
        self.overflowing_shl(rhs).0
    }

    /// Shifts right by `rhs` bits, the amount taken modulo the width.
    pub fn wrapping_shr(self, rhs: ExpType) -> (r: Self)
        requires
            N > 0,
            Self::width_ok(),
        ensures
            forall|i: int|
                0 <= i < 64 * N ==> r.bit_at(i) == (i + Self::reduced(rhs) < 64 * N
                    && self.bit_at(i + Self::reduced(rhs))),
    {
        self.overflowing_shr(rhs).0
    }

    /// Shifts right by `rhs` bits, or returns `None` where `rhs` is not below
    /// the width.
    pub fn checked_shr(self, rhs: ExpType) -> (r: Option<Self>)
        requires
            Self::width_ok(),
        ensures
            r is Some <==> rhs < Self::width(),
            rhs == 0 && N > 0 ==> r == Some(self),
            r is Some ==> forall|i: int|
                0 <= i < 64 * N ==> r->0.bit_at(i) == (i + rhs < 64 * N && self.bit_at(i + rhs)),
    {
        if rhs < Self::bit_width() {
            Some(unchecked_shr(self, rhs))
        } else {
            None
        }
    }
}

} // verus!
