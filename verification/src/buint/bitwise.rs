//! The bitwise operations, digit by digit.
use crate::buint::BUint;
use crate::digit::digit_bit;

use vstd::prelude::*;

verus! {

/// The bits of the complement of a digit.
pub proof fn lemma_not_bits(d: u64, j: int)
    requires
        0 <= j < 64,
    ensures
        digit_bit(!d, j) == !digit_bit(d, j),
{
    let k = j as u64;
    assert(((!d) >> k) & 1 == 1 <==> !((d >> k) & 1 == 1)) by (bit_vector)
        requires
            k < 64,
    ;
}

/// The bits of the conjunction, the disjunction and the exclusive
/// disjunction of two digits.
pub proof fn lemma_binary_bits(a: u64, b: u64, j: int)
    requires
        0 <= j < 64,
    ensures
        digit_bit(a & b, j) == (digit_bit(a, j) && digit_bit(b, j)),
        digit_bit(a | b, j) == (digit_bit(a, j) || digit_bit(b, j)),
        digit_bit(a ^ b, j) == (digit_bit(a, j) != digit_bit(b, j)),
{
    let k = j as u64;
    assert(((a & b) >> k) & 1 == 1 <==> ((a >> k) & 1 == 1 && (b >> k) & 1 == 1)) by (bit_vector)
        requires
            k < 64,
    ;
    assert(((a | b) >> k) & 1 == 1 <==> ((a >> k) & 1 == 1 || (b >> k) & 1 == 1)) by (bit_vector)
        requires
            k < 64,
    ;
    assert(((a ^ b) >> k) & 1 == 1 <==> ((a >> k) & 1 == 1) != ((b >> k) & 1 == 1))
        by (bit_vector)
        requires
            k < 64,
    ;
}

impl<const N: usize> BUint<N> {
    /// The complement: every bit flipped.
    pub fn not(self) -> (r: Self)
        ensures
            forall|i: int| 0 <= i < 64 * N ==> r.bit_at(i) == !self.bit_at(i),
    {
        let mut out = Self::zero();
        let mut i: usize = 0;
        while i < N
            invariant
                i <= N,
                forall|j: int| 0 <= j < i ==> out@[j] == !self@[j],
            decreases N - i,
        {
            let ghost before = out@;
            out.digits[i] = !self.digits[i];
            assert(out@ == before.update(i as int, !self@[i as int]));
            i += 1;
        }
        proof {
            assert forall|k: int| 0 <= k < 64 * N implies out.bit_at(k) == !self.bit_at(k) by {
                lemma_not_bits(self@[k / 64], k % 64);
            }
        }
        out
    }

    /// The conjunction: the bits set in both.
    pub fn bitand(self, rhs: Self) -> (r: Self)
        ensures
            forall|i: int| 0 <= i < 64 * N ==> r.bit_at(i) == (self.bit_at(i) && rhs.bit_at(i)),
    {
        let mut out = Self::zero();
        let mut i: usize = 0;
        while i < N
            invariant
                i <= N,
                forall|j: int| 0 <= j < i ==> out@[j] == self@[j] & rhs@[j],
            decreases N - i,
        {
            let ghost before = out@;
            out.digits[i] = self.digits[i] & rhs.digits[i];
            assert(out@ == before.update(i as int, self@[i as int] & rhs@[i as int]));
            i += 1;
        }
        proof {
            assert forall|k: int| 0 <= k < 64 * N implies out.bit_at(k) == (self.bit_at(k)
                && rhs.bit_at(k)) by {
                lemma_binary_bits(self@[k / 64], rhs@[k / 64], k % 64);
            }
        }
        out
    }

    /// The disjunction: the bits set in either.
    pub fn bitor(self, rhs: Self) -> (r: Self)
        ensures
            forall|i: int| 0 <= i < 64 * N ==> r.bit_at(i) == (self.bit_at(i) || rhs.bit_at(i)),
    {
        let mut out = Self::zero();
        let mut i: usize = 0;
        while i < N
            invariant
                i <= N,
                forall|j: int| 0 <= j < i ==> out@[j] == self@[j] | rhs@[j],
            decreases N - i,
        {
            let ghost before = out@;
            out.digits[i] = self.digits[i] | rhs.digits[i];
            assert(out@ == before.update(i as int, self@[i as int] | rhs@[i as int]));
            i += 1;
        }
        proof {
            assert forall|k: int| 0 <= k < 64 * N implies out.bit_at(k) == (self.bit_at(k)
                || rhs.bit_at(k)) by {
                lemma_binary_bits(self@[k / 64], rhs@[k / 64], k % 64);
            }
        }
        out
    }

    /// The exclusive disjunction: the bits set in exactly one.
    pub fn bitxor(self, rhs: Self) -> (r: Self)
        ensures
            forall|i: int| 0 <= i < 64 * N ==> r.bit_at(i) == (self.bit_at(i) != rhs.bit_at(i)),
    {
        let mut out = Self::zero();
        let mut i: usize = 0;
        while i < N
            invariant
                i <= N,
                forall|j: int| 0 <= j < i ==> out@[j] == self@[j] ^ rhs@[j],
            decreases N - i,
        {
            let ghost before = out@;
            out.digits[i] = self.digits[i] ^ rhs.digits[i];
            assert(out@ == before.update(i as int, self@[i as int] ^ rhs@[i as int]));
            i += 1;
        }
        proof {
            assert forall|k: int| 0 <= k < 64 * N implies out.bit_at(k) == (self.bit_at(k)
                != rhs.bit_at(k)) by {
                lemma_binary_bits(self@[k / 64], rhs@[k / 64], k % 64);
            }
        }
        out
    }
}

} // verus!
