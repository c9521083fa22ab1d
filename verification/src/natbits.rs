//! The bits of a natural number, and how they tie the bits of a digit
//! sequence to the number that it stands for.
use crate::model::{
    digits_value, lemma_value_first, lemma_value_split, lemma_value_split_div_mod, seq_bit,
};
use vstd::arithmetic::div_mod::{
    lemma_basic_div, lemma_div_by_multiple, lemma_div_denominator, lemma_fundamental_div_mod,
    lemma_hoist_over_denominator, lemma_mod_multiples_vanish,
};
use vstd::arithmetic::power2::{
    lemma2_to64, lemma_pow2_adds, lemma_pow2_pos, lemma_pow2_strictly_increases, lemma_pow2_unfold,
    pow2,
};
use vstd::prelude::*;

verus! {

/// Whether bit `i` of the number `x` is set.
pub open spec fn nat_bit(x: nat, i: nat) -> bool {
    (x / pow2(i)) % 2 == 1
}

/// Bit `i` of `x / 2^k` is bit `i + k` of `x`.
pub proof fn lemma_bit_of_quotient(x: nat, k: nat, i: nat)
    ensures
        nat_bit(x / pow2(k), i) == nat_bit(x, i + k),
{
    lemma_pow2_pos(k);
    lemma_pow2_pos(i);
    lemma_pow2_adds(k, i);
    lemma_div_denominator(x as int, pow2(k) as int, pow2(i) as int);
}

/// Bit `i` of `x * 2^k` is bit `i - k` of `x`, and clear below `k`.
pub proof fn lemma_bit_of_multiple(x: nat, k: nat, i: nat)
    ensures
        nat_bit(x * pow2(k), i) == (i >= k && nat_bit(x, (i - k) as nat)),
{
    lemma_pow2_pos(k);
    lemma_pow2_pos(i);
    if i >= k {
        let r = (i - k) as nat;
        lemma_pow2_pos(r);
        lemma_pow2_adds(k, r);
        lemma_div_denominator((x * pow2(k)) as int, pow2(k) as int, pow2(r) as int);
        lemma_div_by_multiple(x as int, pow2(k) as int);
    } else {
        let r = (k - i) as nat;
        lemma_pow2_adds(i, r);
        lemma_pow2_unfold(r);
        let h = pow2((r - 1) as nat);
        assert(x * pow2(k) == (2 * (x * h)) * pow2(i)) by (nonlinear_arith)
            requires
                pow2(k) == pow2(i) * pow2(r),
                pow2(r) == 2 * h,
        ;
        lemma_div_by_multiple((2 * (x * h)) as int, pow2(i) as int);
    }
}

/// A number below `2^w` has no bit set at or above `w`.
pub proof fn lemma_bit_above(x: nat, w: nat, i: nat)
    requires
        x < pow2(w),
        i >= w,
    ensures
        !nat_bit(x, i),
{
    if i > w {
        lemma_pow2_strictly_increases(w, i);
    }
    lemma_basic_div(x as int, pow2(i) as int);
}

/// Below `w`, the bits of `x mod 2^w` are those of `x`.
pub proof fn lemma_bit_of_remainder(x: nat, w: nat, i: nat)
    requires
        i < w,
    ensures
        nat_bit(x % pow2(w), i) == nat_bit(x, i),
{
    let pw = pow2(w);
    let pi = pow2(i);
    let r = (w - i) as nat;
    lemma_pow2_pos(w);
    lemma_pow2_pos(i);
    lemma_pow2_adds(i, r);
    lemma_pow2_unfold(r);
    let h = pow2((r - 1) as nat);
    let q = x / pw;
    let m = x % pw;
    lemma_fundamental_div_mod(x as int, pw as int);
    assert(x == m + (2 * (q * h)) * pi) by (nonlinear_arith)
        requires
            x == pw * q + m,
            pw == pi * pow2(r),
            pow2(r) == 2 * h,
    ;
    lemma_hoist_over_denominator(m as int, (2 * (q * h)) as int, pi);
    lemma_mod_multiples_vanish((q * h) as int, (m / pi) as int, 2);
}

/// Two numbers below `2^w` with the same bits below `w` are equal.
pub proof fn lemma_equal_by_bits(x: nat, y: nat, w: nat)
    requires
        x < pow2(w),
        y < pow2(w),
        forall|i: nat| i < w ==> nat_bit(x, i) == nat_bit(y, i),
    ensures
        x == y,
    decreases w,
{
    lemma2_to64();
    if w > 0 {
        lemma_pow2_unfold(w);
        assert(nat_bit(x, 0) == nat_bit(y, 0));
        let hx = x / 2;
        let hy = y / 2;
        assert forall|i: nat| i < w - 1 implies nat_bit(hx, i) == nat_bit(hy, i) by {
            lemma_bit_of_quotient(x, 1, i);
            lemma_bit_of_quotient(y, 1, i);
            assert(nat_bit(x, i + 1) == nat_bit(y, i + 1));
        }
        lemma_equal_by_bits(hx, hy, (w - 1) as nat);
    }
}

/// Bit `i` of a digit sequence is bit `i` of the number it stands for.
pub proof fn lemma_seq_bit_is_nat_bit(s: Seq<u64>, i: int)
    requires
        0 <= i < 64 * s.len(),
    ensures
        seq_bit(s, i) == nat_bit(digits_value(s), i as nat),
{
    let d = i / 64;
    let j = (i % 64) as nat;
    let t = s.skip(d);
    lemma_value_split_div_mod(s, d);
    lemma_value_split(t, 1);
    lemma_value_first(t);
    let v = digits_value(s);
    let hi = digits_value(t);
    let rest = digits_value(t.skip(1));
    let a = s[d] as nat;
    assert(t[0] == s[d]);
    let pj = pow2(j);
    let pc = pow2((64 - j) as nat);
    lemma_pow2_pos((64 * d) as nat);
    lemma_pow2_pos(j);
    lemma_pow2_adds((64 * d) as nat, j);
    lemma_div_denominator(v as int, pow2((64 * d) as nat) as int, pj as int);
    assert(v / pow2(i as nat) == hi / pj);
    lemma_pow2_adds(j, (64 - j) as nat);
    lemma_pow2_unfold((64 - j) as nat);
    let h = pow2((63 - j) as nat);
    assert(hi == a + (2 * (h * rest)) * pj) by (nonlinear_arith)
        requires
            hi == a + pow2(64) * rest,
            pow2(64) == pj * pc,
            pc == 2 * h,
    ;
    lemma_hoist_over_denominator(a as int, (2 * (h * rest)) as int, pj);
    lemma_mod_multiples_vanish((h * rest) as int, (a / pj) as int, 2);
    assert((hi / pj) % 2 == (a / pj) % 2);
    let x = s[d];
    let k = j as u64;
    vstd::bits::lemma_u64_shr_is_div(x, k);
    let y = x >> k;
    assert(y & 1 == y % 2) by (bit_vector);
}

} // verus!
