//! The digit: one machine word of the positional representation, and what is
//! known about the word-level operations that the multi-digit code builds on.
use vstd::prelude::*;
use vstd::std_specs::bits::{
    axiom_u64_leading_ones, axiom_u64_leading_zeros, axiom_u64_trailing_ones,
    axiom_u64_trailing_zeros, u64_leading_ones, u64_leading_zeros, u64_trailing_ones,
    u64_trailing_zeros,
};

verus! {

/// One digit of a big integer: a 64-bit word.
pub type Digit = u64;

/// Twice the width of a digit; holds the full product of two digits.
pub type DoubleDigit = u128;

/// The type of shift amounts, bit indices and bit counts.
pub type ExpType = u32;

/// Number of bits in a digit.
pub const BITS: u32 = 64;

/// `log2` of the number of bits in a digit.
pub const BIT_SHIFT: u32 = 6;

/// Mask that extracts the position of a bit inside its digit.
pub const BITS_MINUS_1: u32 = 63;

/// The base of the positional system, `2^64`.
pub open spec fn base() -> nat {
    0x1_0000_0000_0000_0000
}

/// Whether bit `j` (counted from the least significant) of `d` is set.
pub open spec fn digit_bit(d: u64, j: int) -> bool {
    (d >> (j as u64)) & 1 == 1
}

/// Byte `k` (counted from the least significant) of `d`.
pub open spec fn digit_byte(d: u64, k: int) -> u64 {
    (d >> ((8 * k) as u64)) & 0xff
}

/// The number of set bits of `d`.
pub open spec fn digit_ones(d: u64) -> nat
    decreases d,
{
    if d == 0 {
        0
    } else {
        (d % 2) as nat + digit_ones(d / 2)
    }
}

/// `u64::count_ones` of std: the number of ones in the binary representation.
pub assume_specification[ u64::count_ones ](d: u64) -> (r: u32)
    ensures
        r == digit_ones(d),
;

/// `u64::count_zeros` of std: the number of zeros in the binary
/// representation, that is, the 64 bits less the ones.
pub assume_specification[ u64::count_zeros ](d: u64) -> (r: u32)
    ensures
        r == 64 - digit_ones(d),
;

/// `u64::swap_bytes` of std: the byte order is reversed.
pub assume_specification[ u64::swap_bytes ](d: u64) -> (r: u64)
    ensures
        forall|k: int| 0 <= k < 8 ==> #[trigger] digit_byte(r, k) == digit_byte(d, 7 - k),
;

/// `u64::reverse_bits` of std: the least significant bit becomes the most
/// significant, the second least the second most, and so on.
pub assume_specification[ u64::reverse_bits ](d: u64) -> (r: u64)
    ensures
        forall|j: int| 0 <= j < 64 ==> #[trigger] digit_bit(r, j) == digit_bit(d, 63 - j),
;

proof fn lemma_digit_ones_below(d: u64, k: nat)
    requires
        k <= 64,
        (d as nat) < vstd::arithmetic::power2::pow2(k),
    ensures
        digit_ones(d) <= k,
    decreases d,
{
    if d != 0 {
        if k == 0 {
            vstd::arithmetic::power2::lemma2_to64();
        } else {
            vstd::arithmetic::power2::lemma_pow2_unfold(k);
            lemma_digit_ones_below(d / 2, (k - 1) as nat);
        }
    }
}

/// A digit has at most 64 set bits.
pub proof fn lemma_digit_ones_bound(d: u64)
    ensures
        digit_ones(d) <= 64,
{
    vstd::arithmetic::power2::lemma2_to64_rest();
    lemma_digit_ones_below(d, 64);
}

/// No bit of the zero digit is set, and every bit of the all-ones digit is.
pub proof fn lemma_digit_bit_extremes(j: int)
    requires
        0 <= j < 64,
    ensures
        !digit_bit(0, j),
        digit_bit(u64::MAX, j),
{
    let k = j as u64;
    assert(k < 64 ==> (0u64 >> k) & 1 == 0) by (bit_vector);
    assert(k < 64 ==> (0xffff_ffff_ffff_ffffu64 >> k) & 1 == 1) by (bit_vector);
}

proof fn lemma_digit_low_bits_equal(a: u64, b: u64, k: nat)
    requires
        k <= 64,
        forall|j: int| 0 <= j < k ==> digit_bit(a, j) == digit_bit(b, j),
    ensures
        a << ((64 - k) as u64) == b << ((64 - k) as u64),
    decreases k,
{
    if k == 0 {
        assert(a << 64u64 == 0 && b << 64u64 == 0) by (bit_vector);
    } else {
        lemma_digit_low_bits_equal(a, b, (k - 1) as nat);
        let s = (k - 1) as u64;
        let hi = (64 - k) as u64;
        let hi1 = (65 - k) as u64;
        assert(digit_bit(a, k - 1) == digit_bit(b, k - 1));
        assert(a << hi == b << hi) by (bit_vector)
            requires
                s < 64,
                hi == 63 - s,
                hi1 == 64 - s,
                a << hi1 == b << hi1,
                ((a >> s) & 1 == 1) == ((b >> s) & 1 == 1),
        ;
    }
}

/// Two digits with the same bits are the same digit.
pub proof fn lemma_digit_bits_equal(a: u64, b: u64)
    requires
        forall|j: int| 0 <= j < 64 ==> digit_bit(a, j) == digit_bit(b, j),
    ensures
        a == b,
{
    lemma_digit_low_bits_equal(a, b, 64);
    assert(a << 0u64 == a && b << 0u64 == b) by (bit_vector);
}

/// What `leading_zeros` says of the bits of `d`: the top `lz` bits are clear
/// and the next one, if there is one, is set.
pub proof fn lemma_leading_zeros_bits(d: u64)
    ensures
        0 <= u64_leading_zeros(d) <= 64,
        d == 0 <==> u64_leading_zeros(d) == 64,
        forall|j: int| 64 - u64_leading_zeros(d) <= j < 64 ==> !digit_bit(d, j),
        u64_leading_zeros(d) < 64 ==> digit_bit(d, 63 - u64_leading_zeros(d)),
{
    axiom_u64_leading_zeros(d);
    let lz = u64_leading_zeros(d);
    assert forall|j: int| 64 - lz <= j < 64 implies !digit_bit(d, j) by {
        let k = j as u64;
        assert((d >> k) & 1u64 == 0u64);
    }
    if lz < 64 {
        let k = (63 - lz) as u64;
        assert((d >> k) & 1 != 0 ==> (d >> k) & 1 == 1) by (bit_vector);
    }
}

/// What `trailing_zeros` says of the bits of `d`: the low `tz` bits are clear
/// and the next one, if there is one, is set.
pub proof fn lemma_trailing_zeros_bits(d: u64)
    ensures
        0 <= u64_trailing_zeros(d) <= 64,
        d == 0 <==> u64_trailing_zeros(d) == 64,
        forall|j: int| 0 <= j < u64_trailing_zeros(d) ==> !digit_bit(d, j),
        u64_trailing_zeros(d) < 64 ==> digit_bit(d, u64_trailing_zeros(d) as int),
{
    axiom_u64_trailing_zeros(d);
    let tz = u64_trailing_zeros(d);
    assert forall|j: int| 0 <= j < tz implies !digit_bit(d, j) by {
        let k = j as u64;
        assert((d >> k) & 1u64 == 0u64);
    }
}

/// What `leading_ones` says of the bits of `d`: the top `lo` bits are set and
/// the next one, if there is one, is clear.
pub proof fn lemma_leading_ones_bits(d: u64)
    ensures
        0 <= u64_leading_ones(d) <= 64,
        d == u64::MAX <==> u64_leading_ones(d) == 64,
        forall|j: int| 64 - u64_leading_ones(d) <= j < 64 ==> digit_bit(d, j),
        u64_leading_ones(d) < 64 ==> !digit_bit(d, 63 - u64_leading_ones(d)),
{
    axiom_u64_leading_ones(d);
    let lo = u64_leading_ones(d);
    assert forall|j: int| 64 - lo <= j < 64 implies digit_bit(d, j) by {
        let k = j as u64;
        assert((d >> k) & 1u64 == 1u64);
    }
}

/// What `trailing_ones` says of the bits of `d`: the low `to` bits are set and
/// the next one, if there is one, is clear.
pub proof fn lemma_trailing_ones_bits(d: u64)
    ensures
        0 <= u64_trailing_ones(d) <= 64,
        d == u64::MAX <==> u64_trailing_ones(d) == 64,
        forall|j: int| 0 <= j < u64_trailing_ones(d) ==> digit_bit(d, j),
        u64_trailing_ones(d) < 64 ==> !digit_bit(d, u64_trailing_ones(d) as int),
{
    axiom_u64_trailing_ones(d);
    let to = u64_trailing_ones(d);
    assert forall|j: int| 0 <= j < to implies digit_bit(d, j) by {
        let k = j as u64;
        assert((d >> k) & 1u64 == 1u64);
    }
}

/// The bits of a digit shifted left by `s` with the top `s` bits of `low`
/// carried in below.
pub proof fn lemma_shl_carry_bits(a: u64, low: u64, s: u64, b: int)
    requires
        0 < s < 64,
        0 <= b < 64,
    ensures
        digit_bit((a << s) | (low >> ((64 - s) as u64)), b) == (if b >= s {
            digit_bit(a, b - s)
        } else {
            digit_bit(low, b + 64 - s)
        }),
{
    let k = b as u64;
    let c = (64 - s) as u64;
    if b >= s {
        let t = (b - s) as u64;
        assert((((a << s) | (low >> c)) >> k) & 1 == (a >> t) & 1) by (bit_vector)
            requires
                0 < s < 64,
                k < 64,
                c == 64 - s,
                k >= s,
                t == k - s,
        ;
    } else {
        let t = (b + 64 - s) as u64;
        assert((((a << s) | (low >> c)) >> k) & 1 == (low >> t) & 1) by (bit_vector)
            requires
                0 < s < 64,
                k < s,
                c == 64 - s,
                t == k + c,
        ;
    }
}

/// The bits of a digit shifted right by `s` with the low `s` bits of `high`
/// carried in above.
pub proof fn lemma_shr_carry_bits(a: u64, high: u64, s: u64, b: int)
    requires
        0 < s < 64,
        0 <= b < 64,
    ensures
        digit_bit((a >> s) | (high << ((64 - s) as u64)), b) == (if b + s < 64 {
            digit_bit(a, b + s)
        } else {
            digit_bit(high, b + s - 64)
        }),
{
    let k = b as u64;
    let c = (64 - s) as u64;
    if b + s < 64 {
        let t = (b + s) as u64;
        assert((((a >> s) | (high << c)) >> k) & 1 == (a >> t) & 1) by (bit_vector)
            requires
                0 < s < 64,
                k < c,
                c == 64 - s,
                t == k + s,
        ;
    } else {
        let t = (b + s - 64) as u64;
        assert((((a >> s) | (high << c)) >> k) & 1 == (high >> t) & 1) by (bit_vector)
            requires
                0 < s < 64,
                k < 64,
                k >= c,
                c == 64 - s,
                t == k - c,
        ;
    }
}

/// The bits of a digit with all bits from `c` up set in addition.
pub proof fn lemma_fill_top_bits(x: u64, c: u64, b: int)
    requires
        0 < c < 64,
        0 <= b < 64,
    ensures
        digit_bit(x | (u64::MAX << c), b) == (digit_bit(x, b) || b >= c),
{
    let k = b as u64;
    assert(((x | (0xffff_ffff_ffff_ffffu64 << c)) >> k) & 1 == 1 <==> ((x >> k) & 1 == 1 || k
        >= c)) by (bit_vector)
        requires
            0 < c < 64,
            k < 64,
    ;
}

/// A bit index splits into the index of its digit and its place in the
/// digit by a shift and a mask.
pub proof fn lemma_split_index(i: u32)
    ensures
        i >> 6 == i / 64,
        i & 63 == i % 64,
{
    assert(i >> 6 == i / 64) by (bit_vector);
    assert(i & 63 == i % 64) by (bit_vector);
}

/// The lowest bit of a number is its parity, and a shift by one halves it.
pub proof fn lemma_halve(e: u32)
    ensures
        e & 1 == e % 2,
        e >> 1 == e / 2,
{
    assert(e & 1 == e % 2) by (bit_vector);
    assert(e >> 1 == e / 2) by (bit_vector);
}

/// The only set bit of `1 << j` is bit `j`.
pub proof fn lemma_one_shifted_bits(j: u64, k: u64)
    requires
        j < 64,
        k < 64,
    ensures
        ((1u64 << j) >> k) & 1 == 1 <==> k == j,
{
    assert(((1u64 << j) >> k) & 1 == 1 <==> k == j) by (bit_vector)
        requires
            j < 64,
            k < 64,
    ;
}

/// A double digit is its low digit plus its high digit times the base.
pub proof fn lemma_split_double(v: u128)
    ensures
        v == (v & 0xffff_ffff_ffff_ffff) + (v >> 64) * 0x1_0000_0000_0000_0000,
        (v & 0xffff_ffff_ffff_ffff) <= 0xffff_ffff_ffff_ffff,
        (v >> 64) <= 0xffff_ffff_ffff_ffff,
{
    assert(v == (v & 0xffff_ffff_ffff_ffff) + (v >> 64) * 0x1_0000_0000_0000_0000)
        by (bit_vector);
    assert((v & 0xffff_ffff_ffff_ffff) <= 0xffff_ffff_ffff_ffff) by (bit_vector);
    assert((v >> 64) <= 0xffff_ffff_ffff_ffff) by (bit_vector);
}

/// Computes `a * b + carry + current` and returns its low and high digit, in
/// that order. The sum always fits in two digits.
pub fn carrying_mul(a: Digit, b: Digit, carry: Digit, current: Digit) -> (r: (Digit, Digit))
    ensures
        r.0 as nat + r.1 as nat * base() == a as nat * b as nat + carry as nat + current as nat,
{
    assert(a as nat * b as nat <= 0xffff_ffff_ffff_ffff * 0xffff_ffff_ffff_ffff)
        by (nonlinear_arith)
        requires
            a <= 0xffff_ffff_ffff_ffff,
            b <= 0xffff_ffff_ffff_ffff,
    ;
    let prod: u128 = carry as u128 + current as u128 + (a as u128) * (b as u128);
    let lo: u64 = (prod & 0xffff_ffff_ffff_ffff) as u64;
    let hi: u64 = (prod >> 64) as u64;
    proof {
        lemma_split_double(prod);
    }
    (lo, hi)
}

} // verus!
