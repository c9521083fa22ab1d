//! The mathematical model of a digit sequence: its value as a natural number
//! and its bits, with the facts about them that the proofs share.
use crate::digit::{base, digit_bit, digit_ones};
use vstd::arithmetic::power2::{lemma2_to64_rest, lemma_pow2_adds, lemma_pow2_pos, pow2};
use vstd::prelude::*;

verus! {

/// The number that the little-endian digit sequence `s` stands for:
/// the sum of `s[i] * 2^(64 i)`.
pub open spec fn digits_value(s: Seq<u64>) -> nat
    decreases s.len(),
{
    if s.len() == 0 {
        0
    } else {
        digits_value(s.drop_last()) + s.last() as nat * pow2((64 * (s.len() - 1)) as nat)
    }
}

/// Whether bit `i` of the number that `s` stands for is set.
pub open spec fn seq_bit(s: Seq<u64>, i: int) -> bool {
    digit_bit(s[i / 64], i % 64)
}

/// The number of set bits in all the digits of `s`.
pub open spec fn seq_ones(s: Seq<u64>) -> nat
    decreases s.len(),
{
    if s.len() == 0 {
        0
    } else {
        seq_ones(s.drop_last()) + digit_ones(s.last())
    }
}

/// `2^(64 (i + 1))` is `2^(64 i)` times the base.
pub proof fn lemma_weight_step(i: nat)
    ensures
        pow2(64 * (i + 1)) == pow2(64 * i) * base(),
        pow2(64 * i) > 0,
{
    lemma2_to64_rest();
    lemma_pow2_adds(64 * i, 64);
    lemma_pow2_pos(64 * i);
}

/// Adding digit `i` to the prefix of length `i` adds `s[i] * 2^(64 i)`.
pub proof fn lemma_value_take_step(s: Seq<u64>, i: int)
    requires
        0 <= i < s.len(),
    ensures
        digits_value(s.take(i + 1)) == digits_value(s.take(i)) + s[i] as nat * pow2(
            (64 * i) as nat,
        ),
{
    assert(s.take(i + 1).drop_last() =~= s.take(i));
}

/// The value of an empty prefix is zero, and the full prefix is the sequence.
pub proof fn lemma_value_take_ends(s: Seq<u64>)
    ensures
        digits_value(s.take(0)) == 0,
        s.take(s.len() as int) == s,
{
    assert(s.take(s.len() as int) =~= s);
}

/// A sequence of `n` digits stands for a number below `2^(64 n)`.
pub proof fn lemma_value_bound(s: Seq<u64>)
    ensures
        digits_value(s) < pow2((64 * s.len()) as nat),
    decreases s.len(),
{
    if s.len() == 0 {
        lemma_pow2_pos(0);
    } else {
        let n = (s.len() - 1) as nat;
        lemma_value_bound(s.drop_last());
        lemma_weight_step(n);
        let p = pow2(64 * n);
        let d = s.last() as nat;
        assert(d * p + p <= base() * p) by (nonlinear_arith)
            requires
                d + 1 <= base(),
        ;
        assert(base() * p == p * base()) by (nonlinear_arith);
    }
}

/// A prefix stands for the whole sequence when all digits behind it are zero.
pub proof fn lemma_value_high_zero(s: Seq<u64>, k: int)
    requires
        0 <= k <= s.len(),
        forall|j: int| k <= j < s.len() ==> s[j] == 0,
    ensures
        digits_value(s) == digits_value(s.take(k)),
    decreases s.len() - k,
{
    if k == s.len() {
        lemma_value_take_ends(s);
    } else {
        lemma_value_high_zero(s, k + 1);
        lemma_value_take_step(s, k);
    }
}

/// A sequence stands for zero exactly when all its digits are zero.
pub proof fn lemma_value_zero_iff(s: Seq<u64>)
    ensures
        digits_value(s) == 0 <==> (forall|j: int| 0 <= j < s.len() ==> s[j] == 0),
    decreases s.len(),
{
    if s.len() > 0 {
        let n = (s.len() - 1) as nat;
        lemma_value_zero_iff(s.drop_last());
        lemma_pow2_pos(64 * n);
        let p = pow2(64 * n);
        let d = s.last() as nat;
        assert(d * p == 0 <==> d == 0) by (nonlinear_arith)
            requires
                p > 0,
        ;
        if digits_value(s) == 0 {
            assert forall|j: int| 0 <= j < s.len() implies s[j] == 0 by {
                if j < s.len() - 1 {
                    assert(s.drop_last()[j] == s[j]);
                }
            }
        }
        if forall|j: int| 0 <= j < s.len() ==> s[j] == 0 {
            assert forall|j: int| 0 <= j < s.drop_last().len() implies s.drop_last()[j] == 0 by {
                assert(s.drop_last()[j] == s[j]);
            }
        }
    }
}

/// A sequence stands for at least what its digit `i` contributes; a nonzero
/// digit above the lowest makes that `2^64` or more.
pub proof fn lemma_value_ge_digit(s: Seq<u64>, i: int)
    requires
        0 <= i < s.len(),
    ensures
        digits_value(s) >= s[i] as nat * pow2((64 * i) as nat),
        i > 0 && s[i] != 0 ==> digits_value(s) >= base(),
    decreases s.len(),
{
    let n = (s.len() - 1) as nat;
    if i < n {
        lemma_value_ge_digit(s.drop_last(), i);
    } else {
        assert(s.last() == s[i]);
    }
    if i > 0 && s[i] != 0 {
        lemma_weight_step((i - 1) as nat);
        let p = pow2((64 * (i - 1)) as nat);
        let d = s[i] as nat;
        assert(d * (p * base()) >= base()) by (nonlinear_arith)
            requires
                d >= 1,
                p >= 1,
        ;
    }
}

/// A one-digit prefix stands for its digit.
pub proof fn lemma_value_first(s: Seq<u64>)
    requires
        s.len() > 0,
    ensures
        digits_value(s.take(1)) == s[0],
{
    lemma_value_take_step(s, 0);
    lemma_value_take_ends(s);
    lemma2_to64_rest();
    vstd::arithmetic::power2::lemma2_to64();
}

/// Sequences of one length that stand for the same number are equal.
pub proof fn lemma_value_injective(a: Seq<u64>, b: Seq<u64>)
    requires
        a.len() == b.len(),
        digits_value(a) == digits_value(b),
    ensures
        a == b,
    decreases a.len(),
{
    if a.len() > 0 {
        let n = (a.len() - 1) as nat;
        let p = pow2(64 * n);
        lemma_pow2_pos(64 * n);
        lemma_value_bound(a.drop_last());
        lemma_value_bound(b.drop_last());
        let x = digits_value(a.drop_last());
        let y = digits_value(b.drop_last());
        let c = a.last() as nat;
        let d = b.last() as nat;
        assert(c == d) by (nonlinear_arith)
            requires
                x < p,
                y < p,
                x + c * p == y + d * p,
        ;
        lemma_value_injective(a.drop_last(), b.drop_last());
        assert(a =~= a.drop_last().push(a.last()));
        assert(b =~= b.drop_last().push(b.last()));
    } else {
        assert(a =~= b);
    }
}

/// Of two sequences that agree above digit `i`, the one with the smaller
/// digit `i` stands for the smaller number.
pub proof fn lemma_value_less(a: Seq<u64>, b: Seq<u64>, i: int)
    requires
        a.len() == b.len(),
        0 <= i < a.len(),
        forall|j: int| i < j < a.len() ==> a[j] == b[j],
        a[i] < b[i],
    ensures
        digits_value(a) < digits_value(b),
    decreases a.len(),
{
    let n = (a.len() - 1) as nat;
    let p = pow2(64 * n);
    if i == n {
        lemma_value_bound(a.drop_last());
        let x = a.last() as nat;
        let y = b.last() as nat;
        assert(x * p + p <= y * p) by (nonlinear_arith)
            requires
                x + 1 <= y,
        ;
    } else {
        lemma_value_less(a.drop_last(), b.drop_last(), i);
    }
}

/// A sequence stands for its low `k` digits plus `2^(64 k)` times its
/// remaining digits.
pub proof fn lemma_value_split(s: Seq<u64>, k: int)
    requires
        0 <= k <= s.len(),
    ensures
        digits_value(s) == digits_value(s.take(k)) + pow2((64 * k) as nat) * digits_value(
            s.skip(k),
        ),
    decreases s.len(),
{
    if k == s.len() {
        lemma_value_take_ends(s);
        assert(s.skip(k).len() == 0);
        assert(pow2((64 * k) as nat) * 0 == 0) by (nonlinear_arith);
    } else {
        let n = (s.len() - 1) as nat;
        let t = s.drop_last();
        lemma_value_split(t, k);
        assert(t.take(k) =~= s.take(k));
        assert(t.skip(k) =~= s.skip(k).drop_last());
        assert(s.skip(k).last() == s.last());
        lemma_pow2_adds((64 * k) as nat, (64 * (n - k)) as nat);
        let pk = pow2((64 * k) as nat);
        let pr = pow2((64 * (n - k)) as nat);
        let d = s.last() as nat;
        let x = digits_value(t.skip(k));
        assert(pk * (x + d * pr) == pk * x + d * (pk * pr)) by (nonlinear_arith);
    }
}

/// The low `k` digits stand for the value modulo `2^(64 k)`, the remaining
/// digits for the quotient.
pub proof fn lemma_value_split_div_mod(s: Seq<u64>, k: int)
    requires
        0 <= k <= s.len(),
    ensures
        digits_value(s.take(k)) == digits_value(s) % pow2((64 * k) as nat),
        digits_value(s.skip(k)) == digits_value(s) / pow2((64 * k) as nat),
{
    lemma_value_split(s, k);
    lemma_value_bound(s.take(k));
    let p = pow2((64 * k) as nat);
    let q = digits_value(s.skip(k));
    assert(p * q == q * p) by (nonlinear_arith);
    vstd::arithmetic::div_mod::lemma_fundamental_div_mod_converse(
        digits_value(s) as int,
        p as int,
        q as int,
        digits_value(s.take(k)) as int,
    );
}

/// The upper half of the range of `n` digits begins at `2^(64 n - 1)`, and a
/// sequence stands for a number in it exactly when its top bit is set.
pub proof fn lemma_top_bit(s: Seq<u64>)
    requires
        s.len() > 0,
    ensures
        pow2((64 * s.len()) as nat) == 2 * pow2((64 * s.len() - 1) as nat),
        s.last() >= 0x8000_0000_0000_0000 <==> digits_value(s) >= pow2(
            (64 * s.len() - 1) as nat,
        ),
{
    let n = (s.len() - 1) as nat;
    let p = pow2(64 * n);
    lemma_weight_step(n);
    lemma_value_bound(s.drop_last());
    vstd::arithmetic::power2::lemma2_to64_rest();
    lemma_pow2_adds(64 * n, 63);
    vstd::arithmetic::power2::lemma_pow2_unfold((64 * s.len()) as nat);
    let d = s.last() as nat;
    let x = digits_value(s.drop_last());
    assert(d >= 0x8000_0000_0000_0000 ==> d * p >= p * 0x8000_0000_0000_0000)
        by (nonlinear_arith);
    assert(d < 0x8000_0000_0000_0000 ==> d * p + p <= p * 0x8000_0000_0000_0000)
        by (nonlinear_arith);
}

/// A sequence of all-ones digits stands for the largest number of its
/// length.
pub proof fn lemma_value_all_ones(s: Seq<u64>)
    requires
        forall|j: int| 0 <= j < s.len() ==> s[j] == u64::MAX,
    ensures
        digits_value(s) + 1 == pow2((64 * s.len()) as nat),
    decreases s.len(),
{
    if s.len() == 0 {
        vstd::arithmetic::power2::lemma2_to64();
    } else {
        let n = (s.len() - 1) as nat;
        lemma_value_all_ones(s.drop_last());
        lemma_weight_step(n);
        let p = pow2(64 * n);
        assert(0xffff_ffff_ffff_ffff * p + p == p * base()) by (nonlinear_arith);
    }
}

/// Replacing digit `k` changes the value by the difference of the old and
/// the new digit, times `2^(64 k)`.
pub proof fn lemma_value_update(s: Seq<u64>, k: int, d: u64)
    requires
        0 <= k < s.len(),
    ensures
        digits_value(s.update(k, d)) + s[k] as nat * pow2((64 * k) as nat) == digits_value(s)
            + d as nat * pow2((64 * k) as nat),
    decreases s.len(),
{
    let t = s.update(k, d);
    if k == s.len() - 1 {
        assert(t.drop_last() =~= s.drop_last());
    } else {
        assert(t.drop_last() =~= s.drop_last().update(k, d));
        lemma_value_update(s.drop_last(), k, d);
    }
}

/// The ones of a prefix grow by the ones of the digit added.
pub proof fn lemma_ones_take_step(s: Seq<u64>, i: int)
    requires
        0 <= i < s.len(),
    ensures
        seq_ones(s.take(i + 1)) == seq_ones(s.take(i)) + digit_ones(s[i]),
{
    assert(s.take(i + 1).drop_last() =~= s.take(i));
}

/// A sequence of `n` digits has at most `64 n` set bits.
pub proof fn lemma_ones_bound(s: Seq<u64>)
    ensures
        seq_ones(s) <= 64 * s.len(),
    decreases s.len(),
{
    if s.len() > 0 {
        lemma_ones_bound(s.drop_last());
        crate::digit::lemma_digit_ones_bound(s.last());
    }
}

} // verus!
