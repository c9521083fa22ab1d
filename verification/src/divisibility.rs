//! Divisibility of natural numbers and the greatest common divisor, as far as
//! the binary algorithm for it needs them.
use crate::natbits::{lemma_bit_above, lemma_equal_by_bits, nat_bit};
use vstd::arithmetic::div_mod::{lemma_fundamental_div_mod, lemma_mod_breakdown};
use vstd::arithmetic::power2::{lemma2_to64, lemma_pow2_pos, lemma_pow2_unfold, pow2};
use vstd::prelude::*;

verus! {

/// `x` is a multiple of `c`.
pub open spec fn divides(c: nat, x: nat) -> bool {
    exists|k: nat| x == #[trigger] times(c, k)
}

/// The product of `c` and `k`.
pub open spec fn times(c: nat, k: nat) -> nat {
    c * k
}

/// A number with a cofactor for `c` is a multiple of `c`.
pub proof fn lemma_divides_intro(c: nat, k: nat, x: nat)
    requires
        x == c * k,
    ensures
        divides(c, x),
{
    assert(x == times(c, k));
}

/// The cofactor of a multiple of `c`.
pub proof fn lemma_divides_witness(c: nat, x: nat) -> (k: nat)
    requires
        divides(c, x),
    ensures
        x == c * k,
{
    choose|k: nat| x == #[trigger] times(c, k)
}

/// `g` is the greatest common divisor of `a` and `b`: it divides both, and
/// every number that divides both divides it. That of zero and zero is zero.
pub open spec fn is_gcd(a: nat, b: nat, g: nat) -> bool {
    &&& divides(g, a)
    &&& divides(g, b)
    &&& forall|c: nat| divides(c, a) && divides(c, b) ==> divides(c, g)
}

/// `c` divides `c * k`.
pub proof fn lemma_divides_multiple(c: nat, k: nat)
    ensures
        divides(c, c * k),
        divides(c, k * c),
        divides(c, 0),
        divides(c, c),
        divides(1, c),
{
    assert(c * k == k * c) by (nonlinear_arith);
    lemma_divides_intro(c, k, c * k);
    lemma_divides_intro(c, 0, 0);
    lemma_divides_intro(c, 1, c);
    lemma_divides_intro(1, c, c);
}

/// A number that divides `x` divides every multiple of `x`.
pub proof fn lemma_divides_scaled(c: nat, x: nat, m: nat)
    requires
        divides(c, x),
    ensures
        divides(c, x * m),
{
    let k = lemma_divides_witness(c, x);
    assert(x * m == c * (k * m)) by (nonlinear_arith)
        requires
            x == c * k,
    ;
    lemma_divides_intro(c, k * m, x * m);
}

/// A divisor of a nonzero number is not above it, and leaves no remainder.
pub proof fn lemma_divides_bound(c: nat, x: nat)
    requires
        divides(c, x),
        x > 0,
    ensures
        0 < c <= x,
        x % c == 0,
{
    let k = lemma_divides_witness(c, x);
    assert(c > 0 && k > 0 && c <= x) by (nonlinear_arith)
        requires
            x == c * k,
            x > 0,
    ;
    vstd::arithmetic::div_mod::lemma_mod_multiples_basic(k as int, c as int);
    assert(c * k == k * c) by (nonlinear_arith);
}

/// Numbers that divide each other are equal.
pub proof fn lemma_divides_antisymmetric(a: nat, b: nat)
    requires
        divides(a, b),
        divides(b, a),
    ensures
        a == b,
{
    if a == 0 {
        let k = lemma_divides_witness(a, b);
        assert(a * k == 0) by (nonlinear_arith)
            requires
                a == 0,
        ;
    } else if b == 0 {
        let k = lemma_divides_witness(b, a);
        assert(b * k == 0) by (nonlinear_arith)
            requires
                b == 0,
        ;
    } else {
        lemma_divides_bound(a, b);
        lemma_divides_bound(b, a);
    }
}

/// Two numbers have one greatest common divisor only.
pub proof fn lemma_gcd_unique(a: nat, b: nat, g: nat, h: nat)
    requires
        is_gcd(a, b, g),
        is_gcd(a, b, h),
    ensures
        g == h,
{
    lemma_divides_antisymmetric(g, h);
}

/// The greatest common divisor of a number and zero is the number.
pub proof fn lemma_gcd_zero(a: nat)
    ensures
        is_gcd(a, 0, a),
        is_gcd(0, a, a),
{
    lemma_divides_multiple(a, 0);
    lemma_divides_multiple(a, 1);
}

/// A number that divides two numbers divides their difference, and one that
/// divides a number and a difference from it divides the other number.
pub proof fn lemma_divides_difference(c: nat, u: nat, v: nat)
    requires
        u <= v,
        divides(c, u),
    ensures
        divides(c, v) <==> divides(c, (v - u) as nat),
{
    let ku = lemma_divides_witness(c, u);
    if divides(c, v) {
        let kv = lemma_divides_witness(c, v);
        assert(kv >= ku || c == 0) by (nonlinear_arith)
            requires
                u == c * ku,
                v == c * kv,
                u <= v,
        ;
        if c == 0 {
            assert(c * ku == 0 && c * kv == 0) by (nonlinear_arith)
                requires
                    c == 0,
            ;
            lemma_divides_intro(c, 0, (v - u) as nat);
        } else {
            let d = (kv - ku) as nat;
            assert((v - u) as nat == c * d) by (nonlinear_arith)
                requires
                    u == c * ku,
                    v == c * kv,
                    kv >= ku,
                    d == kv - ku,
            ;
            lemma_divides_intro(c, d, (v - u) as nat);
        }
    }
    if divides(c, (v - u) as nat) {
        let kd = lemma_divides_witness(c, (v - u) as nat);
        assert(v == c * (kd + ku)) by (nonlinear_arith)
            requires
                u == c * ku,
                v - u == c * kd,
        ;
        lemma_divides_intro(c, kd + ku, v);
    }
}

/// A divisor of an odd number is odd.
pub proof fn lemma_divisor_of_odd(c: nat, u: nat)
    requires
        divides(c, u),
        u % 2 == 1,
    ensures
        c % 2 == 1,
{
    let k = lemma_divides_witness(c, u);
    if c % 2 == 0 {
        let h = c / 2;
        assert(u == 2 * (h * k)) by (nonlinear_arith)
            requires
                u == c * k,
                c == 2 * h,
        ;
    }
}

/// An odd number that divides twice a number divides the number.
pub proof fn lemma_odd_cancels_two(c: nat, m: nat)
    requires
        c % 2 == 1,
        divides(c, 2 * m),
    ensures
        divides(c, m),
{
    let q = lemma_divides_witness(c, 2 * m);
    let h = c / 2;
    let t = h * q;
    assert(c * q == 2 * t + q) by (nonlinear_arith)
        requires
            c == 2 * h + 1,
            t == h * q,
    ;
    let q1 = q / 2;
    assert(m == c * q1) by (nonlinear_arith)
        requires
            2 * m == c * q,
            q == 2 * q1,
    ;
    lemma_divides_intro(c, q1, m);
}

/// An odd number that divides `m * 2^t` divides `m`.
pub proof fn lemma_odd_cancels_power(c: nat, m: nat, t: nat)
    requires
        c % 2 == 1,
        divides(c, m * pow2(t)),
    ensures
        divides(c, m),
    decreases t,
{
    if t == 0 {
        lemma2_to64();
    } else {
        lemma_pow2_unfold(t);
        let h = pow2((t - 1) as nat);
        assert(m * pow2(t) == 2 * (m * h)) by (nonlinear_arith)
            requires
                pow2(t) == 2 * h,
        ;
        lemma_odd_cancels_two(c, m * h);
        lemma_odd_cancels_power(c, m, (t - 1) as nat);
    }
}

/// Doubling two numbers doubles their greatest common divisor.
pub proof fn lemma_gcd_doubles(x: nat, y: nat, g: nat)
    requires
        is_gcd(x, y, g),
    ensures
        is_gcd(2 * x, 2 * y, 2 * g),
{
    let kx = lemma_divides_witness(g, x);
    let ky = lemma_divides_witness(g, y);
    assert(2 * x == (2 * g) * kx) by (nonlinear_arith)
        requires
            x == g * kx,
    ;
    assert(2 * y == (2 * g) * ky) by (nonlinear_arith)
        requires
            y == g * ky,
    ;
    lemma_divides_intro(2 * g, kx, 2 * x);
    lemma_divides_intro(2 * g, ky, 2 * y);
    let x2 = 2 * x;
    let y2 = 2 * y;
    let g2 = 2 * g;
    assert forall|c: nat| divides(c, x2) && divides(c, y2) implies divides(c, g2) by {
        if c % 2 == 1 {
            lemma_odd_cancels_two(c, x);
            lemma_odd_cancels_two(c, y);
            assert(divides(c, g));
            lemma_divides_scaled(c, g, 2);
            assert(g * 2 == 2 * g);
        } else {
            let h = c / 2;
            let jx = lemma_divides_witness(c, 2 * x);
            let jy = lemma_divides_witness(c, 2 * y);
            assert(x == h * jx) by (nonlinear_arith)
                requires
                    2 * x == c * jx,
                    c == 2 * h,
            ;
            assert(y == h * jy) by (nonlinear_arith)
                requires
                    2 * y == c * jy,
                    c == 2 * h,
            ;
            lemma_divides_intro(h, jx, x);
            lemma_divides_intro(h, jy, y);
            assert(divides(h, g));
            let kg = lemma_divides_witness(h, g);
            assert(2 * g == c * kg) by (nonlinear_arith)
                requires
                    g == h * kg,
                    c == 2 * h,
            ;
            lemma_divides_intro(c, kg, 2 * g);
        }
    }
}

/// Multiplying two numbers by `2^n` multiplies their greatest common divisor
/// by `2^n`.
pub proof fn lemma_gcd_scales(x: nat, y: nat, g: nat, n: nat)
    requires
        is_gcd(x, y, g),
    ensures
        is_gcd(x * pow2(n), y * pow2(n), g * pow2(n)),
    decreases n,
{
    if n == 0 {
        lemma2_to64();
        assert(x * 1 == x && y * 1 == y && g * 1 == g);
    } else {
        lemma_gcd_scales(x, y, g, (n - 1) as nat);
        lemma_pow2_unfold(n);
        let h = pow2((n - 1) as nat);
        lemma_gcd_doubles(x * h, y * h, g * h);
        assert(x * pow2(n) == 2 * (x * h) && y * pow2(n) == 2 * (y * h) && g * pow2(n) == 2 * (g
            * h)) by (nonlinear_arith)
            requires
                pow2(n) == 2 * h,
        ;
    }
}

/// The greatest common divisor of an odd number and another is that of the
/// odd number and the other times a power of two.
pub proof fn lemma_gcd_odd_ignores_power(u: nat, v: nat, g: nat, t: nat)
    requires
        u % 2 == 1,
        is_gcd(u, v, g),
    ensures
        is_gcd(u, v * pow2(t), g),
        is_gcd(v * pow2(t), u, g),
{
    lemma_divides_scaled(g, v, pow2(t));
    let vt = v * pow2(t);
    assert forall|c: nat| divides(c, u) && divides(c, vt) implies divides(c, g) by {
        lemma_divisor_of_odd(c, u);
        lemma_odd_cancels_power(c, v, t);
    }
}

/// A number whose bits below `t` are clear is a multiple of `2^t`.
pub proof fn lemma_low_bits_clear(x: nat, t: nat)
    requires
        forall|i: nat| i < t ==> !nat_bit(x, i),
    ensures
        x == (x / pow2(t)) * pow2(t),
        x % pow2(t) == 0,
    decreases t,
{
    lemma_pow2_pos(t);
    if t == 0 {
        lemma2_to64();
    } else {
        let s = (t - 1) as nat;
        lemma_low_bits_clear(x, s);
        lemma_pow2_pos(s);
        lemma_pow2_unfold(t);
        assert(!nat_bit(x, s));
        lemma_mod_breakdown(x as int, pow2(s) as int, 2);
        assert(pow2(s) * 2 == pow2(t)) by (nonlinear_arith)
            requires
                pow2(t) == 2 * pow2(s),
        ;
        assert(pow2(s) * 0 == 0) by (nonlinear_arith);
    }
    lemma_fundamental_div_mod(x as int, pow2(t) as int);
    assert(pow2(t) * (x / pow2(t)) == (x / pow2(t)) * pow2(t)) by (nonlinear_arith);
}

/// A number below `2^w` with no bit set is zero.
pub proof fn lemma_no_bits_zero(x: nat, w: nat)
    requires
        x < pow2(w),
        forall|i: nat| i < w ==> !nat_bit(x, i),
    ensures
        x == 0,
{
    lemma_pow2_pos(w);
    assert forall|i: nat| i < w implies nat_bit(x, i) == nat_bit(0, i) by {
        lemma_pow2_pos(0);
        lemma_bit_above(0, 0, i);
    }
    lemma_equal_by_bits(x, 0, w);
}

} // verus!
