//! Floating-point arithmetic on bit patterns, computed on integers.
//!
//! A pattern is a number of the IEEE 754 interchange formats: a sign bit, an
//! exponent field and a fraction field. The format is handed over as the weight of
//! the hidden bit: [`SINGLE`] or [`DOUBLE`]. Results are rounded to nearest, ties to
//! even, with gradual underflow and overflow to infinity. Results that are no
//! number all have one pattern.
use crate::float_bits::{double_is_nan, double_value, magnitude, single_is_nan, single_value};
use crate::soft_float::{
    gap, half_even, is_format, law_small_integers_are_exact, lemma_half_even_common_factor,
    lemma_root_normal, lemma_round_exact, lemma_round_exp_lower, lemma_round_exp_upper,
    lemma_round_int_exp, lemma_round_normal, lemma_round_shifted, lemma_single_int_exp, less,
    lifted, log_half, low_exp, normal, of_int, plus, power, root, round, round_ratio, scaled,
    Flt, Num, DOUBLE, SINGLE,
};
use vstd::arithmetic::power2::lemma2_to64;
use vstd::arithmetic::power2::lemma2_to64_rest;
use vstd::arithmetic::power2::lemma_pow2_adds;
use vstd::arithmetic::power2::lemma_pow2_pos;
use vstd::arithmetic::power2::lemma_pow2_strictly_increases;
use vstd::arithmetic::power2::lemma_pow2_unfold;
use vstd::arithmetic::power2::pow2;
use vstd::prelude::*;

verus! {

/// The largest exponent field: that of infinity.
pub open spec fn exp_limit(half: nat) -> nat {
    if half == SINGLE {
        255
    } else {
        2047
    }
}

/// The pattern of infinity.
pub open spec fn infinity(half: nat) -> nat {
    exp_limit(half) * half
}

/// The weight of the sign bit.
pub open spec fn sign_bit(half: nat) -> nat {
    (exp_limit(half) + 1) * half
}

/// The pattern of a result that is no number.
pub open spec fn no_number(half: nat) -> nat {
    infinity(half) + half / 2
}

/// The number of binary places of the smallest positive number.
pub open spec fn places(half: nat) -> nat {
    if half == SINGLE {
        149
    } else {
        1074
    }
}

/// A pattern of the format.
pub open spec fn is_pattern(half: nat, a: nat) -> bool {
    a < 2 * sign_bit(half)
}

/// The sign bit is set.
pub open spec fn negative(half: nat, a: nat) -> bool {
    a >= sign_bit(half)
}

/// A pattern without its sign.
pub open spec fn body(half: nat, a: nat) -> nat {
    if negative(half, a) {
        (a - sign_bit(half)) as nat
    } else {
        a
    }
}

/// A pattern that stands for no number.
pub open spec fn is_nan(half: nat, a: nat) -> bool {
    body(half, a) > infinity(half)
}

/// A pattern that stands for an infinity.
pub open spec fn is_infinite(half: nat, a: nat) -> bool {
    body(half, a) == infinity(half)
}

/// The absolute value of a finite number, in units of the smallest positive number.
pub open spec fn units(half: nat, a: nat) -> nat {
    magnitude(half, body(half, a) / half, body(half, a) % half)
}

/// The pattern, without limit, of the number that is nearest to `n / d` units; ties
/// go to the even pattern. From `2 * half` units on, each doubling of the unit
/// raises the exponent field by one.
pub open spec fn nearest(half: nat, n: nat, d: nat) -> nat
    decreases n / d,
    when half > 0 && d > 0
    via nearest_decreases
{
    if n < 2 * half * d {
        half_even(n, d)
    } else {
        half + nearest(half, n, 2 * d)
    }
}

#[via_fn]
proof fn nearest_decreases(half: nat, n: nat, d: nat) {
    if n >= 2 * half * d {
        assert(n >= 2 * d) by (nonlinear_arith)
            requires
                n >= 2 * half * d,
                half >= 1,
        ;
        vstd::arithmetic::div_mod::lemma_div_denominator(n as int, d as int, 2);
        assert(d * 2 == 2 * d);
        let q = n / d;
        vstd::arithmetic::div_mod::lemma_div_is_ordered(2 * d as int, n as int, d as int);
        vstd::arithmetic::div_mod::lemma_div_multiples_vanish(2, d as int);
        assert(d * 2 / d == 2);
        assert(q >= 2);
        assert(n / (2 * d) == q / 2);
    }
}

/// A result of the given sign that is nearest to `n / d` units.
pub open spec fn packed(half: nat, sign: bool, n: nat, d: nat) -> nat {
    let m = nearest(half, n, d);
    (if sign {
        sign_bit(half)
    } else {
        0
    }) + (if m < infinity(half) {
        m
    } else {
        infinity(half)
    })
}

/// A zero of the given sign.
pub open spec fn signed_zero(half: nat, sign: bool) -> nat {
    if sign {
        sign_bit(half)
    } else {
        0
    }
}

/// An infinity of the given sign.
pub open spec fn signed_infinity(half: nat, sign: bool) -> nat {
    signed_zero(half, sign) + infinity(half)
}

/// `a + b`.
pub open spec fn sum(half: nat, a: nat, b: nat) -> nat {
    let (sa, sb) = (negative(half, a), negative(half, b));
    let (ua, ub) = (units(half, a), units(half, b));
    if is_nan(half, a) || is_nan(half, b) {
        no_number(half)
    } else if is_infinite(half, a) && is_infinite(half, b) && sa != sb {
        no_number(half)
    } else if is_infinite(half, a) {
        a
    } else if is_infinite(half, b) {
        b
    } else if sa == sb {
        packed(half, sa, ua + ub, 1)
    } else if ua > ub {
        packed(half, sa, (ua - ub) as nat, 1)
    } else if ub > ua {
        packed(half, sb, (ub - ua) as nat, 1)
    } else {
        0
    }
}

/// The pattern with the other sign.
pub open spec fn negated(half: nat, a: nat) -> nat {
    if negative(half, a) {
        (a - sign_bit(half)) as nat
    } else {
        a + sign_bit(half)
    }
}

/// `a - b`.
pub open spec fn difference(half: nat, a: nat, b: nat) -> nat {
    sum(half, a, negated(half, b))
}

/// `a * b`.
pub open spec fn product(half: nat, a: nat, b: nat) -> nat {
    let sign = negative(half, a) != negative(half, b);
    let (ua, ub) = (units(half, a), units(half, b));
    if is_nan(half, a) || is_nan(half, b) {
        no_number(half)
    } else if is_infinite(half, a) || is_infinite(half, b) {
        if ua == 0 || ub == 0 {
            no_number(half)
        } else {
            signed_infinity(half, sign)
        }
    } else {
        packed(half, sign, ua * ub, pow2(places(half)))
    }
}

/// `a / b`.
pub open spec fn quotient(half: nat, a: nat, b: nat) -> nat {
    let sign = negative(half, a) != negative(half, b);
    let (ua, ub) = (units(half, a), units(half, b));
    if is_nan(half, a) || is_nan(half, b) {
        no_number(half)
    } else if is_infinite(half, a) {
        if is_infinite(half, b) {
            no_number(half)
        } else {
            signed_infinity(half, sign)
        }
    } else if is_infinite(half, b) {
        signed_zero(half, sign)
    } else if ub == 0 {
        if ua == 0 {
            no_number(half)
        } else {
            signed_infinity(half, sign)
        }
    } else {
        packed(half, sign, ua * pow2(places(half)), ub)
    }
}

/// The square root of `a`.
pub open spec fn square_root(half: nat, a: nat) -> nat {
    let x = of_int(half, units(half, a));
    let r = root(half, Flt { mant: x.mant, exp: x.exp - places(half) });
    if is_nan(half, a) {
        no_number(half)
    } else if units(half, a) == 0 {
        a
    } else if negative(half, a) {
        no_number(half)
    } else if is_infinite(half, a) {
        a
    } else {
        ((r.exp + places(half)) * half + r.mant) as nat
    }
}

/// The number nearest to an integer.
pub open spec fn integer(half: nat, n: nat) -> nat {
    packed(half, false, n * pow2(places(half)), 1)
}

/// A single-precision number in double precision.
pub open spec fn widened(a: nat) -> nat {
    let sign = negative(SINGLE as nat, a);
    if is_nan(SINGLE as nat, a) {
        no_number(DOUBLE as nat)
    } else if is_infinite(SINGLE as nat, a) {
        signed_infinity(DOUBLE as nat, sign)
    } else {
        packed(DOUBLE as nat, sign, units(SINGLE as nat, a) * pow2(925), 1)
    }
}

/// A double-precision number in single precision.
pub open spec fn shortened(a: nat) -> nat {
    let sign = negative(DOUBLE as nat, a);
    if is_nan(DOUBLE as nat, a) {
        no_number(SINGLE as nat)
    } else if is_infinite(DOUBLE as nat, a) {
        signed_infinity(SINGLE as nat, sign)
    } else {
        packed(SINGLE as nat, sign, units(DOUBLE as nat, a), pow2(925))
    }
}

/// Facts about the two formats.
pub proof fn lemma_format(half: nat)
    requires
        is_format(half),
    ensures
        half > 0,
        sign_bit(half) == infinity(half) + half,
        2 * sign_bit(half) <= 0x1_0000_0000_0000_0000,
        infinity(half) >= 255 * half,
        half == SINGLE ==> infinity(half) == 0x7f80_0000 && sign_bit(half) == 0x8000_0000,
        half == DOUBLE ==> infinity(half) == 0x7ff0_0000_0000_0000 && sign_bit(half)
            == 0x8000_0000_0000_0000,
        half == pow2(log_half(half) as nat),
        half == DOUBLE ==> forall|a: u64| is_pattern(half, a as nat),
        half == SINGLE ==> forall|a: u32| is_pattern(half, a as nat),
        is_pattern(half, 0),
{
    lemma2_to64();
    lemma2_to64_rest();
    if half == SINGLE {
        assert(255 * half == 0x7f80_0000 && 256 * half == 0x8000_0000);
    } else {
        assert(2047 * half == 0x7ff0_0000_0000_0000 && 2048 * half == 0x8000_0000_0000_0000);
    }
}

/// The nearest pattern in terms of a rounded mantissa and its exponent: below `half`
/// units the pattern counts the units, from there on the exponent counts.
pub proof fn lemma_nearest(half: nat, n: nat, d: nat)
    requires
        half > 0,
        d > 0,
    ensures
        n < half * d ==> nearest(half, n, d) == half_even(n, d),
        n >= half * d ==> round(half, n, d).exp >= 0 && nearest(half, n, d) == round(
            half,
            n,
            d,
        ).exp * half + round(half, n, d).mant,
    decreases n / d,
{
    assert(2 * half * d == 2 * (half * d) && half * d > 0) by (nonlinear_arith)
        requires
            half > 0,
            d > 0,
    ;
    if n >= half * d {
        lemma_round_exp_lower(half, n, d);
        if n >= 2 * half * d {
            assert(half * (2 * d) == 2 * half * d) by (nonlinear_arith);
            assert(n / (2 * d) < n / d) by {
                assert(n >= 2 * d) by (nonlinear_arith)
                    requires
                        n >= 2 * half * d,
                        half >= 1,
                ;
                vstd::arithmetic::div_mod::lemma_div_denominator(n as int, d as int, 2);
                assert(d * 2 == 2 * d);
                vstd::arithmetic::div_mod::lemma_div_is_ordered(2 * d as int, n as int, d as int);
                vstd::arithmetic::div_mod::lemma_div_multiples_vanish(2, d as int);
                assert(d * 2 / d == 2);
            }
            lemma_nearest(half, n, 2 * d);
            let r = round(half, n, 2 * d);
            assert((r.exp + 1) * half == r.exp * half + half) by (nonlinear_arith);
        } else {
            let m = half_even(n, d);
            assert(1 * half == half && 0 * half == 0);
        }
    }
}

/// The weight of the sign bit.
fn sign_weight(half: u64) -> (r: u64)
    requires
        is_format(half as nat),
    ensures
        r == sign_bit(half as nat),
{
    proof {
        lemma_format(half as nat);
    }
    if half == SINGLE {
        0x8000_0000
    } else {
        0x8000_0000_0000_0000
    }
}

/// The pattern of infinity.
fn infinite(half: u64) -> (r: u64)
    requires
        is_format(half as nat),
    ensures
        r == infinity(half as nat),
{
    proof {
        lemma_format(half as nat);
    }
    if half == SINGLE {
        0x7f80_0000
    } else {
        0x7ff0_0000_0000_0000
    }
}

/// Splits a pattern into its sign and the rest.
fn split(half: u64, a: u64) -> (r: (bool, u64))
    requires
        is_format(half as nat),
        is_pattern(half as nat, a as nat),
    ensures
        r.0 == negative(half as nat, a as nat),
        r.1 == body(half as nat, a as nat),
        r.1 < sign_bit(half as nat),
{
    proof {
        lemma_format(half as nat);
    }
    let sign: u64 = sign_weight(half);
    if a >= sign {
        (true, a - sign)
    } else {
        (false, a)
    }
}

/// Puts a sign in front of the rest of a pattern.
fn join(half: u64, sign: bool, rest: u64) -> (r: u64)
    requires
        is_format(half as nat),
        rest < sign_bit(half as nat),
    ensures
        r == rest + signed_zero(half as nat, sign),
        is_pattern(half as nat, r as nat),
        negative(half as nat, r as nat) == sign,
        body(half as nat, r as nat) == rest,
{
    proof {
        lemma_format(half as nat);
    }
    if sign {
        sign_weight(half) + rest
    } else {
        rest
    }
}

/// `x` is exactly `u` units.
pub open spec fn exactly(x: Flt, u: nat) -> bool {
    if x.exp >= 0 {
        u == x.mant * pow2(x.exp as nat)
    } else {
        x.mant == u * pow2((-x.exp) as nat)
    }
}

/// The mantissa and exponent of a finite number.
fn decode(half: u64, rest: u64) -> (r: Num)
    requires
        is_format(half as nat),
        rest < infinity(half as nat),
    ensures
        r@ == of_int(
            half as nat,
            magnitude(half as nat, rest as nat / half as nat, rest as nat % half as nat),
        ),
        exactly(r@, magnitude(half as nat, rest as nat / half as nat, rest as nat % half as nat)),
        normal(half as nat, r@),
        -52 <= r.exp <= 2046,
        r.mant == 0 <==> rest == 0,
        r.exp >= 0 <==> (rest >= half || rest == 0),
{
    let ghost h = half as nat;
    let ghost u = magnitude(h, rest as nat / h, rest as nat % h);
    proof {
        lemma_format(h);
        lemma2_to64();
        vstd::arithmetic::div_mod::lemma_fundamental_div_mod(rest as int, half as int);
    }
    let exponent: u64 = rest / half;
    let fraction: u64 = rest % half;
    if exponent == 0 {
        proof {
            assert(half * 0 == 0);
            assert(u == rest);
            law_small_integers_are_exact(h, u);
            let x = of_int(h, u);
            if u > 0 {
                lemma_round_normal(h, u, 1);
                lemma_small_exp(h, u, x);
            } else {
                assert(0 * pow2(0) == 0);
            }
        }
        Num::from_int(half, rest)
    } else {
        proof {
            let k = (exponent - 1) as nat;
            lemma_round_exact(h, (half + fraction) as nat, k);
            assert(rest >= half) by (nonlinear_arith)
                requires
                    rest == half * exponent + fraction,
                    exponent >= 1,
            ;
            assert(exponent < exp_limit(h)) by (nonlinear_arith)
                requires
                    rest == half * exponent + fraction,
                    rest < exp_limit(h) * half,
                    half > 0,
            ;
        }
        Num { mant: half + fraction, exp: exponent as i128 - 1 }
    }
}

/// The exponent of an integer below `half` that is represented exactly.
proof fn lemma_small_exp(half: nat, u: nat, x: Flt)
    requires
        is_format(half),
        0 < u < half,
        half <= x.mant < 2 * half,
        x.exp <= 0,
        x.mant == u * pow2((-x.exp) as nat),
    ensures
        -log_half(half) <= x.exp < 0,
{
    let k = (-x.exp) as nat;
    lemma_format(half);
    lemma2_to64();
    if k == 0 {
        assert(u * pow2(0) == u) by (nonlinear_arith)
            requires
                pow2(0) == 1,
        ;
    }
    if k > log_half(half) {
        let w = log_half(half) as nat;
        lemma_pow2_unfold(w + 1);
        if k > w + 1 {
            lemma_pow2_strictly_increases(w + 1, k);
        }
        assert(u * pow2(k) >= 2 * half) by (nonlinear_arith)
            requires
                u >= 1,
                pow2(k) >= 2 * half,
        ;
    }
}

/// The pattern of a rounded number of units that needs no negative exponent.
fn encode(half: u64, sign: bool, r: Num, Ghost(n): Ghost<nat>, Ghost(d): Ghost<nat>) -> (bits: u64)
    requires
        is_format(half as nat),
        d > 0,
        n >= half * d,
        r@ == round(half as nat, n, d),
    ensures
        bits == packed(half as nat, sign, n, d),
        is_pattern(half as nat, bits as nat),
{
    let ghost h = half as nat;
    proof {
        lemma_format(h);
        lemma_nearest(h, n, d);
        assert(half * d > 0) by (nonlinear_arith)
            requires
                half > 0,
                d > 0,
        ;
        lemma_round_normal(h, n, d);
    }
    let limit: i128 = if half == SINGLE {
        255
    } else {
        2047
    };
    if r.exp >= limit - 1 {
        proof {
            assert(r.exp * half >= (limit - 1) * half && (limit - 1) * half + half == limit * half)
                by (nonlinear_arith)
                requires
                    r.exp >= limit - 1,
            ;
        }
        join(half, sign, infinite(half))
    } else {
        proof {
            assert(r.exp * half <= (limit - 2) * half && (limit - 2) * half + 2 * half == limit
                * half && 0 <= r.exp * half) by (nonlinear_arith)
                requires
                    0 <= r.exp <= limit - 2,
                    half > 0,
            ;
        }
        let rest: u64 = r.exp as u64 * half + r.mant;
        join(half, sign, rest)
    }
}

/// The pattern of an exact number of units.
fn encode_exact(half: u64, sign: bool, r: Num, Ghost(u): Ghost<nat>) -> (bits: u64)
    requires
        is_format(half as nat),
        r@ == round(half as nat, u, 1),
    ensures
        bits == packed(half as nat, sign, u, 1),
        is_pattern(half as nat, bits as nat),
{
    let ghost h = half as nat;
    proof {
        lemma_format(h);
        lemma_nearest(h, u, 1);
        lemma2_to64();
    }
    if r.mant == 0 {
        proof {
            if u > 0 {
                lemma_round_normal(h, u, 1);
            }
        }
        return join(half, sign, 0);
    }
    if r.exp >= 0 {
        proof {
            if u < half {
                law_small_integers_are_exact(h, u);
                lemma_round_normal(h, u, 1);
                lemma_small_exp(h, u, r@);
            }
        }
        encode(half, sign, r, Ghost(u), Ghost(1))
    } else {
        proof {
            if u >= half {
                lemma_round_exp_lower(h, u, 1);
            }
            law_small_integers_are_exact(h, u);
            lemma_round_normal(h, u, 1);
            lemma_small_exp(h, u, r@);
            lemma_pow2_pos((-r.exp) as nat);
            vstd::arithmetic::div_mod::lemma_div_multiples_vanish(
                u as int,
                pow2((-r.exp) as nat) as int,
            );
            assert(pow2((-r.exp) as nat) * u == u * pow2((-r.exp) as nat)) by (nonlinear_arith);
        }
        let rest: u64 = (r.mant as u128 / power((-r.exp) as u32)) as u64;
        assert(rest == u);
        join(half, sign, rest)
    }
}

/// The mantissa of a number that is exactly `u` units, written with exponent `e`.
proof fn lemma_lifted_exact(x: Flt, u: nat, e: int)
    requires
        exactly(x, u),
        e <= x.exp,
    ensures
        e >= 0 ==> lifted(x, e) * pow2(e as nat) == u,
        e < 0 ==> lifted(x, e) == u * pow2((-e) as nat),
{
    let k = (x.exp - e) as nat;
    if x.exp >= 0 {
        if e >= 0 {
            lemma_pow2_adds(k, e as nat);
            assert((x.mant * pow2(k)) * pow2(e as nat) == x.mant * (pow2(k) * pow2(e as nat)))
                by (nonlinear_arith);
        } else {
            lemma_pow2_adds(x.exp as nat, (-e) as nat);
            assert(x.mant * (pow2(x.exp as nat) * pow2((-e) as nat)) == (x.mant * pow2(
                x.exp as nat,
            )) * pow2((-e) as nat)) by (nonlinear_arith);
        }
    } else {
        lemma_pow2_adds((-x.exp) as nat, k);
        assert((u * pow2((-x.exp) as nat)) * pow2(k) == u * (pow2((-x.exp) as nat) * pow2(k)))
            by (nonlinear_arith);
    }
}

/// A sum of mantissas at a common exponent, rounded, is the sum of units, rounded.
proof fn lemma_rounded_at(half: nat, l: nat, w: nat, e: int)
    requires
        half > 0,
        e >= 0 ==> l * pow2(e as nat) == w,
        e < 0 ==> l == w * pow2((-e) as nat),
    ensures
        scaled(round(half, l, 1), e) == round(half, w, 1),
{
    lemma2_to64();
    if e >= 0 {
        lemma_round_shifted(half, l, 1, e as nat, 0);
        assert(1 * pow2(0) == 1);
    } else {
        lemma_round_shifted(half, w, 1, (-e) as nat, 0);
        assert(1 * pow2(0) == 1);
    }
    if l > 0 {
        lemma_round_normal(half, l, 1);
    }
    if w > 0 {
        lemma_round_normal(half, w, 1);
    }
    if w == 0 && l > 0 {
        lemma_pow2_pos(e as nat);
        if e >= 0 {
            assert(l * pow2(e as nat) > 0) by (nonlinear_arith)
                requires
                    l > 0,
                    pow2(e as nat) > 0,
            ;
        } else {
            assert(0 * pow2((-e) as nat) == 0);
        }
    }
}

/// Sums, distances and the order of two numbers that are exactly `u` and `v` units.
proof fn lemma_exact_operands(half: nat, x: Flt, y: Flt, u: nat, v: nat)
    requires
        half > 0,
        exactly(x, u),
        exactly(y, v),
    ensures
        plus(half, x, y) == round(half, u + v, 1),
        gap(half, x, y) == round(
            half,
            if u >= v {
                (u - v) as nat
            } else {
                (v - u) as nat
            },
            1,
        ),
        less(x, y) <==> u < v,
{
    let e = low_exp(x, y);
    let l = lifted(x, e);
    let m = lifted(y, e);
    lemma_lifted_exact(x, u, e);
    lemma_lifted_exact(y, v, e);
    if e >= 0 {
        let p = pow2(e as nat);
        lemma_pow2_pos(e as nat);
        assert((l + m) * p == u + v && (l - m) * p == u - v && (m - l) * p == v - u)
            by (nonlinear_arith)
            requires
                l * p == u,
                m * p == v,
        ;
        assert((l < m) == (u < v)) by (nonlinear_arith)
            requires
                l * p == u,
                m * p == v,
                p > 0,
        ;
    } else {
        let p = pow2((-e) as nat);
        lemma_pow2_pos((-e) as nat);
        assert((u + v) * p == l + m && (u - v) * p == l - m && (v - u) * p == m - l)
            by (nonlinear_arith)
            requires
                u * p == l,
                v * p == m,
        ;
        assert((l < m) == (u < v)) by (nonlinear_arith)
            requires
                u * p == l,
                v * p == m,
                p > 0,
        ;
    }
    lemma_rounded_at(half, l + m, u + v, e);
    if u >= v {
        lemma_rounded_at(half, (l - m) as nat, (u - v) as nat, e);
    } else {
        lemma_rounded_at(half, (m - l) as nat, (v - u) as nat, e);
    }
}

/// `a + b`.
pub fn sum_of(half: u64, a: u64, b: u64) -> (r: u64)
    requires
        is_format(half as nat),
        is_pattern(half as nat, a as nat),
        is_pattern(half as nat, b as nat),
    ensures
        r == sum(half as nat, a as nat, b as nat),
        is_pattern(half as nat, r as nat),
{
    let ghost h = half as nat;
    proof {
        lemma_format(h);
    }
    let (sa, ba) = split(half, a);
    let (sb, bb) = split(half, b);
    let inf: u64 = infinite(half);
    if ba > inf || bb > inf || (ba == inf && bb == inf && sa != sb) {
        return join(half, false, inf + half / 2);
    }
    if ba == inf {
        return a;
    }
    if bb == inf {
        return b;
    }
    let x = decode(half, ba);
    let y = decode(half, bb);
    let ghost u = units(h, a as nat);
    let ghost v = units(h, b as nat);
    proof {
        lemma_exact_operands(h, x@, y@, u, v);
        lemma_exact_operands(h, y@, x@, v, u);
    }
    if sa == sb {
        let total = x.add(y, half);
        encode_exact(half, sa, total, Ghost(u + v))
    } else if y.lt(x, half) {
        let rest = x.abs_diff(y, half);
        encode_exact(half, sa, rest, Ghost((u - v) as nat))
    } else if x.lt(y, half) {
        let rest = x.abs_diff(y, half);
        encode_exact(half, sb, rest, Ghost((v - u) as nat))
    } else {
        0
    }
}

/// `a - b`.
pub fn difference_of(half: u64, a: u64, b: u64) -> (r: u64)
    requires
        is_format(half as nat),
        is_pattern(half as nat, a as nat),
        is_pattern(half as nat, b as nat),
    ensures
        r == difference(half as nat, a as nat, b as nat),
        is_pattern(half as nat, r as nat),
{
    let (sb, bb) = split(half, b);
    let opposite: u64 = join(half, !sb, bb);
    sum_of(half, a, opposite)
}

/// The nearest pattern depends on the quotient alone.
pub proof fn lemma_nearest_common_factor(half: nat, n: nat, d: nat, k: nat)
    requires
        half > 0,
        d > 0,
        k > 0,
    ensures
        nearest(half, k * n, k * d) == nearest(half, n, d),
    decreases n / d,
{
    assert(2 * half * (k * d) == k * (2 * half * d) && k * d > 0) by (nonlinear_arith)
        requires
            k > 0,
            d > 0,
    ;
    if n < 2 * half * d {
        assert(k * n < k * (2 * half * d)) by (nonlinear_arith)
            requires
                n < 2 * half * d,
                k > 0,
        ;
        lemma_half_even_common_factor(n, d, k);
    } else {
        assert(k * n >= k * (2 * half * d)) by (nonlinear_arith)
            requires
                n >= 2 * half * d,
                k > 0,
        ;
        assert(n / (2 * d) < n / d) by {
            assert(n >= 2 * d) by (nonlinear_arith)
                requires
                    n >= 2 * half * d,
                    half >= 1,
            ;
            vstd::arithmetic::div_mod::lemma_div_denominator(n as int, d as int, 2);
            assert(d * 2 == 2 * d);
            vstd::arithmetic::div_mod::lemma_div_is_ordered(2 * d as int, n as int, d as int);
            vstd::arithmetic::div_mod::lemma_div_multiples_vanish(2, d as int);
            assert(d * 2 / d == 2);
        }
        lemma_nearest_common_factor(half, n, 2 * d, k);
        assert(k * (2 * d) == 2 * (k * d)) by (nonlinear_arith);
    }
}

/// Equal quotients have the same nearest pattern.
proof fn lemma_nearest_equal(half: nat, n: nat, d: nat, m: nat, c: nat)
    requires
        half > 0,
        d > 0,
        c > 0,
        n * c == m * d,
    ensures
        nearest(half, n, d) == nearest(half, m, c),
{
    lemma_nearest_common_factor(half, n, d, c);
    lemma_nearest_common_factor(half, m, c, d);
    assert(c * n == d * m && c * d == d * c) by (nonlinear_arith)
        requires
            n * c == m * d,
    ;
}

/// `n / d` rounded to an integer, ties to even.
fn rounded(n: u128, d: u128) -> (r: u128)
    requires
        0 < d <= 0x100_0000_0000_0000_0000_0000_0000_0000,
        n <= 0x100_0000_0000_0000_0000_0000_0000_0000,
    ensures
        r == half_even(n as nat, d as nat),
{
    let q: u128 = n / d;
    let rest: u128 = n % d;
    if 2 * rest < d || (2 * rest == d && q % 2 == 0) {
        q
    } else {
        proof {
            vstd::arithmetic::div_mod::lemma_div_is_ordered_by_denominator(n as int, 1, d as int);
            assert(n as int / 1 == n);
        }
        q + 1
    }
}

/// The fraction with numerator `m` and a power of two: the numerator.
pub open spec fn shifted_num(m: nat, s: int) -> nat {
    if s >= 0 {
        m
    } else {
        m * pow2((-s) as nat)
    }
}

/// The fraction with numerator `m` and a power of two: the denominator.
pub open spec fn shifted_den(s: int) -> nat {
    if s >= 0 {
        pow2(s as nat)
    } else {
        1
    }
}

/// A quotient below one half is rounded to zero.
proof fn lemma_rounds_to_zero(n: nat, d: nat)
    requires
        2 * n < d,
    ensures
        half_even(n, d) == 0,
{
    vstd::arithmetic::div_mod::lemma_fundamental_div_mod_converse(
        n as int,
        d as int,
        0,
        n as int,
    );
}

/// A result of the given sign that is nearest to `m / 2^s` units.
fn encode_shifted(half: u64, sign: bool, m: u128, s: i128) -> (bits: u64)
    requires
        is_format(half as nat),
        half <= m < 0x8_0000_0000_0000_0000_0000_0000_0000,
        -10000 <= s <= 10000,
    ensures
        bits == packed(half as nat, sign, shifted_num(m as nat, s as int), shifted_den(s as int)),
        is_pattern(half as nat, bits as nat),
{
    let ghost h = half as nat;
    let ghost n = shifted_num(m as nat, s as int);
    let ghost d = shifted_den(s as int);
    proof {
        lemma_format(h);
        lemma2_to64();
        if s >= 0 {
            lemma_pow2_pos(s as nat);
            lemma_round_shifted(h, m as nat, 1, 0, s as nat);
            assert(m * pow2(0) == m && 1 * pow2(s as nat) == pow2(s as nat)) by (nonlinear_arith)
                requires
                    pow2(0) == 1,
            ;
        } else {
            lemma_pow2_pos((-s) as nat);
            lemma_round_shifted(h, m as nat, 1, (-s) as nat, 0);
            assert(1 * pow2(0) == 1);
            assert(m * pow2((-s) as nat) >= half) by (nonlinear_arith)
                requires
                    m >= half,
                    pow2((-s) as nat) >= 1,
            ;
        }
        lemma_round_normal(h, m as nat, 1);
        lemma_nearest(h, n, d);
    }
    if s > 119 {
        proof {
            lemma_pow2_big(s as nat);
            lemma_rounds_to_zero(m as nat, pow2(s as nat));
            assert(half * pow2(s as nat) >= pow2(s as nat)) by (nonlinear_arith)
                requires
                    half >= 1,
            ;
        }
        return join(half, sign, 0);
    }
    let divisor: u128 = if s > 0 {
        power(s as u32)
    } else {
        1
    };
    if s <= 0 || m / divisor >= half as u128 {
        proof {
            if s > 0 {
                let q = m as nat / divisor as nat;
                vstd::arithmetic::div_mod::lemma_fundamental_div_mod(m as int, divisor as int);
                assert(m >= half * divisor) by (nonlinear_arith)
                    requires
                        m == divisor * q + m % divisor,
                        q >= half,
                        0 <= m % divisor,
                        divisor > 0,
                ;
            }
        }
        let r = round_ratio(half, m, 1);
        let moved = Num { mant: r.mant, exp: r.exp - s };
        encode(half, sign, moved, Ghost(n), Ghost(d))
    } else {
        proof {
            let q = m as nat / divisor as nat;
            vstd::arithmetic::div_mod::lemma_fundamental_div_mod(m as int, divisor as int);
            assert(m < half * divisor) by (nonlinear_arith)
                requires
                    m == divisor * q + m % divisor,
                    q + 1 <= half,
                    m % divisor < divisor,
                    divisor > 0,
            ;
        }
        let rest: u64 = rounded(m, divisor) as u64;
        join(half, sign, rest)
    }
}

/// Powers of two from `2^120` on are large.
proof fn lemma_pow2_big(k: nat)
    requires
        k >= 120,
    ensures
        pow2(k) >= 0x100_0000_0000_0000_0000_0000_0000_0000,
{
    lemma2_to64();
    lemma2_to64_rest();
    lemma_pow2_adds(64, 56);
    assert(pow2(64) * pow2(56) == 0x100_0000_0000_0000_0000_0000_0000_0000) by (nonlinear_arith)
        requires
            pow2(64) == 0x1_0000_0000_0000_0000,
            pow2(56) == 0x100_0000_0000_0000,
    ;
    if k > 120 {
        lemma_pow2_strictly_increases(120, k);
    }
}

/// The positive part of an integer.
spec fn positive(e: int) -> nat {
    if e >= 0 {
        e as nat
    } else {
        0
    }
}

/// A number that is exactly `u` units, without fractions.
proof fn lemma_exactly(x: Flt, u: nat)
    requires
        exactly(x, u),
    ensures
        u * pow2(positive(-x.exp)) == x.mant * pow2(positive(x.exp)),
{
    lemma2_to64();
    assert(u * pow2(0) == u && x.mant * pow2(0) == x.mant) by (nonlinear_arith)
        requires
            pow2(0) == 1,
    ;
}

/// The product of two numbers of units, as a product of mantissas.
proof fn lemma_product_units(x: Flt, y: Flt, u: nat, v: nat, p: nat)
    requires
        exactly(x, u),
        exactly(y, v),
    ensures
        ({
            let s = p - x.exp - y.exp;
            (u * v) * shifted_den(s) == shifted_num(x.mant * y.mant, s) * pow2(p)
        }),
{
    let s = p - x.exp - y.exp;
    let (ax, cx, ay, cy) = (
        positive(-x.exp),
        positive(x.exp),
        positive(-y.exp),
        positive(y.exp),
    );
    let m = x.mant * y.mant;
    lemma_exactly(x, u);
    lemma_exactly(y, v);
    lemma_pow2_adds(ax, ay);
    lemma_pow2_adds(cx, cy);
    lemma_pow2_pos(ax + ay);
    let (pa, pb, pc, pd) = (pow2(ax), pow2(ay), pow2(cx), pow2(cy));
    assert((u * v) * (pa * pb) == (u * pa) * (v * pb)) by (nonlinear_arith);
    assert((x.mant * pc) * (y.mant * pd) == (x.mant * y.mant) * (pc * pd)) by (nonlinear_arith);
    if s >= 0 {
        lemma_pow2_adds(cx + cy, s as nat);
        lemma_pow2_adds(p, ax + ay);
        assert(cx + cy + s == p + ax + ay);
        assert((u * v) * pow2(s as nat) == m * pow2(p)) by (nonlinear_arith)
            requires
                (u * v) * pow2(ax + ay) == m * pow2(cx + cy),
                pow2(cx + cy) * pow2(s as nat) == pow2(p) * pow2(ax + ay),
                pow2(ax + ay) > 0,
        ;
    } else {
        lemma_pow2_adds(p, ax + ay);
        lemma_pow2_adds(p + ax + ay, (-s) as nat);
        assert(cx + cy == p + ax + ay + (-s));
        assert((u * v) * 1 == (m * pow2((-s) as nat)) * pow2(p)) by (nonlinear_arith)
            requires
                (u * v) * pow2(ax + ay) == m * pow2(cx + cy),
                pow2(cx + cy) == pow2(p) * pow2(ax + ay) * pow2((-s) as nat),
                pow2(ax + ay) > 0,
        ;
    }
}

/// `a * b`.
pub fn product_of(half: u64, a: u64, b: u64) -> (r: u64)
    requires
        is_format(half as nat),
        is_pattern(half as nat, a as nat),
        is_pattern(half as nat, b as nat),
    ensures
        r == product(half as nat, a as nat, b as nat),
        is_pattern(half as nat, r as nat),
{
    let ghost h = half as nat;
    let ghost u = units(h, a as nat);
    let ghost v = units(h, b as nat);
    proof {
        lemma_format(h);
        lemma_units_zero(h, a as nat);
        lemma_units_zero(h, b as nat);
    }
    let (sa, ba) = split(half, a);
    let (sb, bb) = split(half, b);
    let sign = sa != sb;
    let inf: u64 = infinite(half);
    if ba > inf || bb > inf {
        return join(half, false, inf + half / 2);
    }
    if ba == inf || bb == inf {
        if ba == 0 || bb == 0 {
            return join(half, false, inf + half / 2);
        }
        return join(half, sign, inf);
    }
    let x = decode(half, ba);
    let y = decode(half, bb);
    let p: i128 = if half == SINGLE {
        149
    } else {
        1074
    };
    if ba == 0 || bb == 0 {
        proof {
            lemma_pow2_pos(places(h));
            assert(u * v == 0) by (nonlinear_arith)
                requires
                    u == 0 || v == 0,
            ;
            lemma_nearest(h, 0, pow2(places(h)));
            assert(half * pow2(places(h)) > 0) by (nonlinear_arith)
                requires
                    half > 0,
                    pow2(places(h)) > 0,
            ;
            lemma_rounds_to_zero(0, pow2(places(h)));
        }
        return join(half, sign, 0);
    }
    proof {
        let s = places(h) - x.exp - y.exp;
        let m = (x.mant * y.mant) as nat;
        lemma_product_units(x@, y@, u, v, places(h));
        lemma_pow2_pos(places(h));
        if s >= 0 {
            lemma_pow2_pos(s as nat);
        }
        lemma_nearest_equal(h, u * v, pow2(places(h)), shifted_num(m, s), shifted_den(s));
        assert(half <= x.mant * y.mant < 0x8_0000_0000_0000_0000_0000_0000_0000)
            by (nonlinear_arith)
            requires
                half <= x.mant < 0x20_0000_0000_0000,
                1 <= y.mant < 0x20_0000_0000_0000,
        ;
    }
    encode_shifted(half, sign, x.mant as u128 * y.mant as u128, p - x.exp - y.exp)
}

/// Only a zero has no units.
pub proof fn lemma_units_zero(half: nat, a: nat)
    requires
        is_format(half),
    ensures
        units(half, a) == 0 <==> body(half, a) == 0,
{
    let m = body(half, a);
    vstd::arithmetic::div_mod::lemma_fundamental_div_mod(m as int, half as int);
    if m / half == 0 {
        assert(half * 0 == 0);
    } else {
        lemma_pow2_pos((m / half - 1) as nat);
        assert((half + m % half) * pow2((m / half - 1) as nat) > 0) by (nonlinear_arith)
            requires
                half > 0,
                pow2((m / half - 1) as nat) > 0,
        ;
        assert(m >= half) by (nonlinear_arith)
            requires
                m == half * (m / half) + m % half,
                m / half >= 1,
                m % half >= 0,
        ;
    }
}

/// Two quotients that are equal, without denominators.
proof fn lemma_cross(
    u: int,
    ax: int,
    x: int,
    cx: int,
    v: int,
    ay: int,
    y: int,
    cy: int,
    p: int,
    q: int,
)
    requires
        u * ax == x * cx,
        v * ay == y * cy,
        (cx * p) * ay == (q * ax) * cy,
        ax > 0,
        ay > 0,
    ensures
        (u * p) * y == (x * q) * v,
{
    let t = ax * ay;
    let left = (u * p) * y;
    let right = (x * q) * v;
    assert(left * t == (u * ax) * ((p * y) * ay)) by (nonlinear_arith)
        requires
            left == (u * p) * y,
            t == ax * ay,
    ;
    assert((x * cx) * ((p * y) * ay) == (x * y) * ((cx * p) * ay)) by (nonlinear_arith);
    assert(right * t == (v * ay) * ((x * q) * ax)) by (nonlinear_arith)
        requires
            right == (x * q) * v,
            t == ax * ay,
    ;
    assert((y * cy) * ((x * q) * ax) == (x * y) * ((q * ax) * cy)) by (nonlinear_arith);
    assert(t > 0) by (nonlinear_arith)
        requires
            t == ax * ay,
            ax > 0,
            ay > 0,
    ;
    assert(left == right) by (nonlinear_arith)
        requires
            left * t == right * t,
            t > 0,
    ;
}

/// The quotient of two numbers of units, as a quotient of mantissas.
proof fn lemma_quotient_units(x: Flt, y: Flt, u: nat, v: nat, p: nat)
    requires
        exactly(x, u),
        exactly(y, v),
    ensures
        ({
            let e = x.exp - y.exp + p;
            if e >= 0 {
                (u * pow2(p)) * y.mant == (x.mant * pow2(e as nat)) * v
            } else {
                (u * pow2(p)) * (y.mant * pow2((-e) as nat)) == x.mant * v
            }
        }),
{
    let e = x.exp - y.exp + p;
    let (ax, cx, ay, cy) = (
        positive(-x.exp),
        positive(x.exp),
        positive(-y.exp),
        positive(y.exp),
    );
    lemma_exactly(x, u);
    lemma_exactly(y, v);
    lemma_pow2_pos(ax);
    lemma_pow2_pos(ay);
    if e >= 0 {
        let f = e as nat;
        lemma_pow2_adds(cx, p);
        lemma_pow2_adds(cx + p, ay);
        lemma_pow2_adds(f, ax);
        lemma_pow2_adds(f + ax, cy);
        assert(cx + p + ay == f + ax + cy);
        lemma_cross(
            u as int,
            pow2(ax) as int,
            x.mant as int,
            pow2(cx) as int,
            v as int,
            pow2(ay) as int,
            y.mant as int,
            pow2(cy) as int,
            pow2(p) as int,
            pow2(f) as int,
        );
    } else {
        let k = (-e) as nat;
        lemma2_to64();
        lemma_pow2_adds(p, k);
        lemma_pow2_adds(cx, p + k);
        lemma_pow2_adds(cx + p + k, ay);
        lemma_pow2_adds(ax, cy);
        assert(cx + p + k + ay == ax + cy);
        assert(1 * pow2(ax) == pow2(ax));
        lemma_cross(
            u as int,
            pow2(ax) as int,
            x.mant as int,
            pow2(cx) as int,
            v as int,
            pow2(ay) as int,
            y.mant as int,
            pow2(cy) as int,
            pow2(p + k) as int,
            1,
        );
        assert((u * pow2(p + k)) * y.mant == (u * pow2(p)) * (y.mant * pow2(k)))
            by (nonlinear_arith)
            requires
                pow2(p + k) == pow2(p) * pow2(k),
        ;
        assert((x.mant * 1) * v == x.mant * v);
    }
}

/// `a / b`.
pub fn quotient_of(half: u64, a: u64, b: u64) -> (r: u64)
    requires
        is_format(half as nat),
        is_pattern(half as nat, a as nat),
        is_pattern(half as nat, b as nat),
    ensures
        r == quotient(half as nat, a as nat, b as nat),
        is_pattern(half as nat, r as nat),
{
    let ghost h = half as nat;
    let ghost u = units(h, a as nat);
    let ghost v = units(h, b as nat);
    proof {
        lemma_format(h);
        lemma_units_zero(h, a as nat);
        lemma_units_zero(h, b as nat);
    }
    let (sa, ba) = split(half, a);
    let (sb, bb) = split(half, b);
    let sign = sa != sb;
    let inf: u64 = infinite(half);
    if ba > inf || bb > inf || (ba == inf && bb == inf) || (ba == 0 && bb == 0) {
        return join(half, false, inf + half / 2);
    }
    if ba == inf || bb == 0 {
        return join(half, sign, inf);
    }
    if bb == inf {
        return join(half, sign, 0);
    }
    let x = decode(half, ba);
    let y = decode(half, bb);
    let ghost n = u * pow2(places(h));
    if ba == 0 {
        proof {
            assert(n == 0) by (nonlinear_arith)
                requires
                    n == u * pow2(places(h)),
                    u == 0,
            ;
            lemma_nearest(h, 0, v);
            assert(half * v > 0) by (nonlinear_arith)
                requires
                    half > 0,
                    v > 0,
            ;
            lemma_rounds_to_zero(0, v);
        }
        return join(half, sign, 0);
    }
    let p: i128 = if half == SINGLE {
        149
    } else {
        1074
    };
    let e: i128 = x.exp - y.exp + p;
    proof {
        lemma_quotient_units(x@, y@, u, v, places(h));
    }
    if e >= 0 {
        let ghost m = x.mant as nat * pow2(e as nat);
        proof {
            lemma_nearest_equal(h, n, v, m, y.mant as nat);
        }
        encode_ratio(half, sign, x, y, e)
    } else {
        let ghost d = y.mant as nat * pow2((-e) as nat);
        proof {
            lemma_pow2_pos((-e) as nat);
            lemma2_to64();
            assert(d > 0) by (nonlinear_arith)
                requires
                    d == y.mant as nat * pow2((-e) as nat),
                    y.mant > 0,
                    pow2((-e) as nat) > 0,
            ;
            lemma_nearest_equal(h, n, v, x.mant as nat, d);
            assert(half * d >= d) by (nonlinear_arith)
                requires
                    half >= 1,
            ;
            lemma_nearest(h, x.mant as nat, d);
            assert(d >= y.mant) by (nonlinear_arith)
                requires
                    d == y.mant as nat * pow2((-e) as nat),
                    pow2((-e) as nat) > 0,
            ;
            assert(half * d > x.mant) by (nonlinear_arith)
                requires
                    d >= y.mant,
                    y.mant >= half,
                    half >= 2,
                    x.mant < 2 * half,
            ;
        }
        if e == -1 {
            assert(d == 2 * y.mant) by (nonlinear_arith)
                requires
                    d == y.mant as nat * pow2(1),
                    pow2(1) == 2,
            ;
            let rest: u64 = rounded(x.mant as u128, 2 * y.mant as u128) as u64;
            join(half, sign, rest)
        } else {
            proof {
                lemma_pow2_unfold((-e) as nat);
                lemma_pow2_unfold((-e - 1) as nat);
                lemma_pow2_pos((-e - 2) as nat);
                assert(d >= 4 * y.mant) by (nonlinear_arith)
                    requires
                        d == y.mant as nat * pow2((-e) as nat),
                        pow2((-e) as nat) >= 4,
                ;
                lemma_rounds_to_zero(x.mant as nat, d);
            }
            join(half, sign, 0)
        }
    }
}

/// A result of the given sign that is nearest to `x / y * 2^e` units, for the
/// mantissas of two numbers.
fn encode_ratio(half: u64, sign: bool, x: Num, y: Num, e: i128) -> (bits: u64)
    requires
        is_format(half as nat),
        half <= x.mant < 2 * half,
        half <= y.mant < 2 * half,
        -3000 <= x.exp <= 3000,
        -3000 <= y.exp <= 3000,
        0 <= e <= 10000,
    ensures
        bits == packed(half as nat, sign, x.mant as nat * pow2(e as nat), y.mant as nat),
        is_pattern(half as nat, bits as nat),
{
    let ghost h = half as nat;
    let ghost n = x.mant as nat * pow2(e as nat);
    let ghost d = y.mant as nat;
    proof {
        lemma_format(h);
        lemma2_to64();
        lemma_pow2_pos(e as nat);
        lemma_round_shifted(h, x.mant as nat, d, e as nat, 0);
        assert(d * pow2(0) == d) by (nonlinear_arith)
            requires
                pow2(0) == 1,
        ;
        lemma_round_normal(h, x.mant as nat, d);
        lemma_nearest(h, n, d);
    }
    let large = if e > 60 {
        proof {
            lemma_pow2_large(e as nat);
            assert(n >= half * d) by (nonlinear_arith)
                requires
                    n == x.mant as nat * pow2(e as nat),
                    pow2(e as nat) >= 0x1000_0000_0000_0000,
                    x.mant >= half,
                    d < 0x20_0000_0000_0000,
            ;
        }
        true
    } else {
        let shift: u128 = power(e as u32);
        assert(x.mant * shift <= 0x100_0000_0000_0000_0000_0000_0000_0000) by (nonlinear_arith)
            requires
                x.mant < 0x20_0000_0000_0000,
                shift <= 0x1_0000_0000_0000_0000,
        ;
        assert(half * y.mant <= 0x100_0000_0000_0000_0000_0000_0000_0000) by (nonlinear_arith)
            requires
                half <= 0x20_0000_0000_0000,
                y.mant < 0x20_0000_0000_0000,
        ;
        x.mant as u128 * shift >= half as u128 * y.mant as u128
    };
    if large {
        let r = Num { mant: x.mant, exp: 0 }.div(Num { mant: y.mant, exp: 0 }, half);
        let moved = Num { mant: r.mant, exp: r.exp + e };
        encode(half, sign, moved, Ghost(n), Ghost(d))
    } else {
        let shift: u128 = power(e as u32);
        assert(x.mant * shift <= 0x100_0000_0000_0000_0000_0000_0000_0000) by (nonlinear_arith)
            requires
                x.mant < 0x20_0000_0000_0000,
                shift <= 0x1_0000_0000_0000_0000,
        ;
        let wide: u128 = rounded(x.mant as u128 * shift, y.mant as u128);
        proof {
            let q = n / d;
            vstd::arithmetic::div_mod::lemma_fundamental_div_mod(n as int, d as int);
            assert(q < half) by (nonlinear_arith)
                requires
                    n == d * q + n % d,
                    n < half * d,
                    n % d >= 0,
                    d > 0,
            ;
        }
        join(half, sign, wide as u64)
    }
}

/// Powers of two from `2^60` on are large.
proof fn lemma_pow2_large(k: nat)
    requires
        k >= 60,
    ensures
        pow2(k) >= 0x1000_0000_0000_0000,
{
    lemma2_to64_rest();
    if k > 60 {
        lemma_pow2_strictly_increases(60, k);
    }
}

/// The square root of `a`.
pub fn square_root_of(half: u64, a: u64) -> (r: u64)
    requires
        is_format(half as nat),
        is_pattern(half as nat, a as nat),
    ensures
        r == square_root(half as nat, a as nat),
        is_pattern(half as nat, r as nat),
{
    let ghost h = half as nat;
    proof {
        lemma_format(h);
        lemma_units_zero(h, a as nat);
    }
    let (sign, rest) = split(half, a);
    let inf: u64 = infinite(half);
    if rest > inf {
        return join(half, false, inf + half / 2);
    }
    if rest == 0 {
        return a;
    }
    if sign {
        return join(half, false, inf + half / 2);
    }
    if rest == inf {
        return a;
    }
    let x = decode(half, rest);
    let p: i128 = if half == SINGLE {
        149
    } else {
        1074
    };
    proof {
        lemma_decoded_exp(h, rest as nat, x@);
    }
    let r = Num { mant: x.mant, exp: x.exp - p }.sqrt(half);
    proof {
        let e = r.exp + p;
        assert(half == SINGLE ==> 0 <= e <= 253);
        assert(half == DOUBLE ==> 0 <= e <= 2045);
        assert(0 <= e * half <= (exp_limit(h) - 2) * half && (exp_limit(h) - 2) * half + 2 * half
            == infinity(h)) by (nonlinear_arith)
            requires
                0 <= e <= exp_limit(h) - 2,
                infinity(h) == exp_limit(h) * half,
                half > 0,
        ;
    }
    let bits: u64 = (r.exp + p) as u64 * half + r.mant;
    bits
}

/// The exponent of a finite number of the format.
pub proof fn lemma_decoded_exp(half: nat, rest: nat, x: Flt)
    requires
        is_format(half),
        0 < rest < infinity(half),
        x == of_int(half, magnitude(half, rest / half, rest % half)),
        exactly(x, magnitude(half, rest / half, rest % half)),
        x.mant > 0,
        normal(half, x),
    ensures
        -log_half(half) <= x.exp <= exp_limit(half) - 2,
{
    lemma_format(half);
    lemma2_to64();
    let u = magnitude(half, rest / half, rest % half);
    vstd::arithmetic::div_mod::lemma_fundamental_div_mod(rest as int, half as int);
    if rest / half == 0 {
        assert(half * 0 == 0);
        law_small_integers_are_exact(half, u);
        lemma_small_exp(half, u, x);
    } else {
        let k = (rest / half - 1) as nat;
        lemma_round_exact(half, half + rest % half, k);
        assert(rest / half < exp_limit(half)) by (nonlinear_arith)
            requires
                rest == half * (rest / half) + rest % half,
                rest < exp_limit(half) * half,
                half > 0,
                rest % half >= 0,
        ;
    }
}

/// The number nearest to an integer.
pub fn integer_of(half: u64, n: u64) -> (r: u64)
    requires
        is_format(half as nat),
    ensures
        r == integer(half as nat, n as nat),
        is_pattern(half as nat, r as nat),
{
    let ghost h = half as nat;
    let p: i128 = if half == SINGLE {
        149
    } else {
        1074
    };
    proof {
        lemma_format(h);
        lemma2_to64();
        lemma_round_shifted(h, n as nat, 1, places(h), 0);
        assert(1 * pow2(0) == 1);
        lemma_integer_large(half as nat, n as nat);
    }
    if n == 0 {
        proof {
            assert(0 * pow2(places(h)) == 0);
            lemma_nearest(h, 0, 1);
        }
        return 0;
    }
    let x = Num::from_int(half, n);
    proof {
        lemma_round_normal(h, n as nat, 1);
    }
    encode(
        half,
        false,
        Num { mant: x.mant, exp: x.exp + p },
        Ghost(n as nat * pow2(places(h))),
        Ghost(1),
    )
}

/// An integer has more units than the hidden bit.
proof fn lemma_integer_large(half: nat, n: nat)
    requires
        is_format(half),
    ensures
        n > 0 ==> n * pow2(places(half)) >= half,
{
    lemma2_to64_rest();
    lemma_pow2_strictly_increases(60, places(half));
    if n > 0 {
        assert(n * pow2(places(half)) >= pow2(places(half))) by (nonlinear_arith)
            requires
                n >= 1,
        ;
    }
}

/// A single-precision number in double precision.
pub fn widen(a: u32) -> (r: u64)
    ensures
        r == widened(a as nat),
        is_pattern(DOUBLE as nat, r as nat),
{
    proof {
        lemma_format(SINGLE as nat);
        lemma_format(DOUBLE as nat);
        lemma2_to64();
        lemma_units_zero(SINGLE as nat, a as nat);
    }
    let ghost u = units(SINGLE as nat, a as nat);
    let (sign, rest) = split(SINGLE, a as u64);
    let inf: u64 = infinite(SINGLE);
    if rest > inf {
        return join(DOUBLE, false, infinite(DOUBLE) + DOUBLE / 2);
    }
    if rest == inf {
        return join(DOUBLE, sign, infinite(DOUBLE));
    }
    if rest == 0 {
        proof {
            assert(0 * pow2(925) == 0);
            lemma_nearest(DOUBLE as nat, 0, 1);
        }
        return join(DOUBLE, sign, 0);
    }
    let x = decode(SINGLE, rest);
    proof {
        lemma_decoded_exp(SINGLE as nat, rest as nat, x@);
        let k = (x.exp + 896) as nat;
        let m = (x.mant * 0x2000_0000) as nat;
        lemma_round_exact(DOUBLE as nat, m, k);
        lemma_exactly(x@, u);
        let (a2, c2) = (positive(-x.exp), positive(x.exp as int));
        lemma_pow2_adds(k, 29);
        lemma_pow2_adds(c2, 925);
        lemma_pow2_adds((k + 29) as nat, a2);
        lemma_pow2_pos(a2);
        assert(c2 + 925 == k + 29 + a2);
        assert(u * pow2(925) == m * pow2(k)) by (nonlinear_arith)
            requires
                u * pow2(a2) == x.mant * pow2(c2),
                m == x.mant * 0x2000_0000,
                pow2(29) == 0x2000_0000,
                pow2(c2) * pow2(925) == pow2(k) * pow2(29) * pow2(a2),
                pow2(a2) > 0,
        ;
        lemma_pow2_pos(k);
        assert(m * pow2(k) >= DOUBLE) by (nonlinear_arith)
            requires
                m >= DOUBLE,
                pow2(k) >= 1,
        ;
    }
    let moved = Num { mant: x.mant * 0x2000_0000, exp: x.exp + 896 };
    encode(DOUBLE, sign, moved, Ghost(u * pow2(925)), Ghost(1))
}

/// A double-precision number in single precision.
pub fn shorten(a: u64) -> (r: u32)
    ensures
        r == shortened(a as nat),
{
    proof {
        lemma_format(SINGLE as nat);
        lemma_format(DOUBLE as nat);
        lemma2_to64();
        lemma_units_zero(DOUBLE as nat, a as nat);
    }
    let ghost u = units(DOUBLE as nat, a as nat);
    let (sign, rest) = split(DOUBLE, a);
    let inf: u64 = infinite(DOUBLE);
    if rest > inf {
        return join(SINGLE, false, infinite(SINGLE) + SINGLE / 2) as u32;
    }
    if rest == inf {
        return join(SINGLE, sign, infinite(SINGLE)) as u32;
    }
    if rest == 0 {
        proof {
            lemma_pow2_pos(925);
            lemma_nearest(SINGLE as nat, 0, pow2(925));
            assert(SINGLE * pow2(925) > 0) by (nonlinear_arith)
                requires
                    pow2(925) > 0,
            ;
            lemma_rounds_to_zero(0, pow2(925));
        }
        return join(SINGLE, sign, 0) as u32;
    }
    let x = decode(DOUBLE, rest);
    proof {
        let s = 925 - x.exp;
        lemma_product_units(x@, Flt { mant: 1, exp: 0 }, u, 1, 925);
        assert(1 * pow2(0) == 1);
        assert(x.mant * 1 == x.mant && u * 1 == u);
        lemma_pow2_pos(925);
        if s >= 0 {
            lemma_pow2_pos(s as nat);
        }
        lemma_nearest_equal(
            SINGLE as nat,
            u,
            pow2(925),
            shifted_num(x.mant as nat, s as int),
            shifted_den(s as int),
        );
    }
    encode_shifted(SINGLE, sign, x.mant as u128, 925 - x.exp) as u32
}

/// The integer part of a finite number that is not negative, or `cap` where that is
/// smaller.
pub fn whole_units(half: u64, a: u64, cap: u64) -> (r: u64)
    requires
        is_format(half as nat),
        a < infinity(half as nat),
    ensures
        r == if units(half as nat, a as nat) / pow2(places(half as nat)) > cap {
            cap as nat
        } else {
            units(half as nat, a as nat) / pow2(places(half as nat))
        },
{
    let ghost h = half as nat;
    let ghost u = units(h, a as nat);
    proof {
        lemma_format(h);
    }
    let x = decode(half, a);
    let p: i128 = if half == SINGLE {
        149
    } else {
        1074
    };
    proof {
        let e = x.exp - p;
        lemma_pow2_pos(places(h));
        lemma_exactly(x@, u);
        if x.exp >= 0 {
            lemma2_to64();
            assert(u == x.mant * pow2(x.exp as nat));
            if e >= 0 {
                lemma_pow2_adds(e as nat, places(h));
                vstd::arithmetic::div_mod::lemma_div_multiples_vanish(
                    (x.mant * pow2(e as nat)) as int,
                    pow2(places(h)) as int,
                );
                assert(u == pow2(places(h)) * (x.mant * pow2(e as nat))) by (nonlinear_arith)
                    requires
                        u == x.mant * pow2(x.exp as nat),
                        pow2(x.exp as nat) == pow2(e as nat) * pow2(places(h)),
                ;
            } else {
                let k = (-e) as nat;
                lemma_pow2_adds(x.exp as nat, k);
                lemma_pow2_pos(x.exp as nat);
                lemma_pow2_pos(k);
                vstd::arithmetic::div_mod::lemma_div_denominator(
                    u as int,
                    pow2(x.exp as nat) as int,
                    pow2(k) as int,
                );
                vstd::arithmetic::div_mod::lemma_div_multiples_vanish(
                    x.mant as int,
                    pow2(x.exp as nat) as int,
                );
                assert(u == pow2(x.exp as nat) * x.mant) by (nonlinear_arith)
                    requires
                        u == x.mant * pow2(x.exp as nat),
                ;
            }
        } else {
            let k = (-e) as nat;
            lemma_pow2_adds((-x.exp) as nat, places(h));
            lemma_pow2_pos((-x.exp) as nat);
            vstd::arithmetic::div_mod::lemma_div_denominator(
                x.mant as int,
                pow2((-x.exp) as nat) as int,
                pow2(places(h)) as int,
            );
            vstd::arithmetic::div_mod::lemma_div_multiples_vanish(
                u as int,
                pow2((-x.exp) as nat) as int,
            );
            assert(x.mant == pow2((-x.exp) as nat) * u) by (nonlinear_arith)
                requires
                    x.mant == u * pow2((-x.exp) as nat),
            ;
        }
    }
    Num { mant: x.mant, exp: x.exp - p }.floor_capped(cap)
}

/// The pattern nearest to a finite number is its own.
pub proof fn law_nearest_to_itself(half: nat, a: nat)
    requires
        is_format(half),
        is_pattern(half, a),
        body(half, a) < infinity(half),
    ensures
        nearest(half, units(half, a), 1) == body(half, a),
        packed(half, negative(half, a), units(half, a), 1) == a,
{
    let rest = body(half, a);
    let u = units(half, a);
    lemma_format(half);
    lemma2_to64();
    vstd::arithmetic::div_mod::lemma_fundamental_div_mod(rest as int, half as int);
    lemma_nearest(half, u, 1);
    if rest / half == 0 {
        assert(half * 0 == 0);
    } else {
        let k = (rest / half - 1) as nat;
        let m = half + rest % half;
        lemma_round_exact(half, m, k);
        lemma_pow2_pos(k);
        assert(m * pow2(k) >= half) by (nonlinear_arith)
            requires
                m >= half,
                pow2(k) >= 1,
        ;
        assert(k * half + half == half * (rest / half)) by (nonlinear_arith)
            requires
                k == rest / half - 1,
        ;
    }
}

/// Addition and multiplication do not depend on the order of the operands.
pub proof fn law_operands_commute(half: nat, a: nat, b: nat)
    requires
        is_format(half),
        is_pattern(half, a),
        is_pattern(half, b),
    ensures
        sum(half, a, b) == sum(half, b, a),
        product(half, a, b) == product(half, b, a),
{
    assert(units(half, a) * units(half, b) == units(half, b) * units(half, a))
        by (nonlinear_arith);
    lemma_format(half);
}

/// A finite number less itself is zero, and with zero added or taken away it stays
/// what it is; a zero may lose its sign.
pub proof fn law_zero_is_neutral(half: nat, a: nat)
    requires
        is_format(half),
        is_pattern(half, a),
        body(half, a) < infinity(half),
    ensures
        difference(half, a, a) == 0,
        body(half, a) > 0 ==> sum(half, a, 0) == a,
        body(half, a) > 0 ==> difference(half, a, 0) == a,
{
    lemma_format(half);
    law_nearest_to_itself(half, a);
    lemma_units_zero(half, a);
    assert(0nat / half == 0 && 0nat % half == 0) by (nonlinear_arith)
        requires
            half > 0,
    ;
    assert(units(half, 0) == 0);
    assert(body(half, negated(half, 0)) == 0);
    assert(units(half, negated(half, 0)) == 0);
}

/// The patterns of both formats stand for the numbers by which they are compared.
pub proof fn law_values_agree(a: u64, b: u32)
    ensures
        double_value(a) == if negative(DOUBLE as nat, a as nat) {
            -units(DOUBLE as nat, a as nat)
        } else {
            units(DOUBLE as nat, a as nat) as int
        },
        double_is_nan(a) == is_nan(DOUBLE as nat, a as nat),
        single_value(b) == if negative(SINGLE as nat, b as nat) {
            -units(SINGLE as nat, b as nat)
        } else {
            units(SINGLE as nat, b as nat) as int
        },
        single_is_nan(b) == is_nan(SINGLE as nat, b as nat),
{
    lemma_format(DOUBLE as nat);
    lemma_format(SINGLE as nat);
}

/// A single-precision number survives the way to double precision and back.
pub proof fn law_widen_then_shorten(a: u32)
    requires
        !is_nan(SINGLE as nat, a as nat),
    ensures
        shortened(widened(a as nat)) == a,
{
    let s = SINGLE as nat;
    let d = DOUBLE as nat;
    let n = a as nat;
    lemma_format(s);
    lemma_format(d);
    if !is_infinite(s, n) {
        let u = units(s, n);
        let w = u * pow2(925);
        lemma_wide_value(n);
        lemma_pow2_pos(925);
        assert(w * 1 == u * pow2(925));
        lemma_nearest_equal(s, w, pow2(925), u, 1);
        law_nearest_to_itself(s, n);
    }
}

/// The number of units of a widened number.
pub proof fn lemma_wide_value(n: nat)
    requires
        is_pattern(SINGLE as nat, n),
        body(SINGLE as nat, n) < infinity(SINGLE as nat),
    ensures
        negative(DOUBLE as nat, widened(n)) == negative(SINGLE as nat, n),
        body(DOUBLE as nat, widened(n)) < infinity(DOUBLE as nat),
        units(DOUBLE as nat, widened(n)) == units(SINGLE as nat, n) * pow2(925),
{
    let s = SINGLE as nat;
    let d = DOUBLE as nat;
    let u = units(s, n);
    let rest = body(s, n);
    lemma_format(s);
    lemma_format(d);
    lemma_units_zero(s, n);
    lemma2_to64();
    if rest == 0 {
        assert(0 * pow2(925) == 0);
        lemma_nearest(d, 0, 1);
        assert(units(d, widened(n)) == 0);
    } else {
        let x = of_int(s, u);
        lemma_units_exact(s, rest);
        lemma_decoded_exp(s, rest, x);
        let k = (x.exp + 896) as nat;
        let m = x.mant * 0x2000_0000;
        lemma_round_exact(d, m, k);
        lemma_exactly(x, u);
        let (a2, c2) = (positive(-x.exp), positive(x.exp));
        lemma_pow2_adds(k, 29);
        lemma_pow2_adds(c2, 925);
        lemma_pow2_adds((k + 29) as nat, a2);
        lemma_pow2_pos(a2);
        assert(c2 + 925 == k + 29 + a2);
        assert(u * pow2(925) == m * pow2(k)) by (nonlinear_arith)
            requires
                u * pow2(a2) == x.mant * pow2(c2),
                m == x.mant * 0x2000_0000,
                pow2(29) == 0x2000_0000,
                pow2(c2) * pow2(925) == pow2(k) * pow2(29) * pow2(a2),
                pow2(a2) > 0,
        ;
        lemma_pow2_pos(k);
        assert(m * pow2(k) >= d) by (nonlinear_arith)
            requires
                m >= d,
                pow2(k) >= 1,
        ;
        lemma_nearest(d, u * pow2(925), 1);
        let bits = (k * d + m) as nat;
        assert(bits == (k + 1) * d + (m - d)) by (nonlinear_arith)
            requires
                bits == k * d + m,
        ;
        assert(bits < infinity(d)) by (nonlinear_arith)
            requires
                bits == k * d + m,
                k <= 1200,
                m < 2 * d,
                infinity(d) == 2047 * d,
        ;
        vstd::arithmetic::div_mod::lemma_fundamental_div_mod_converse(
            bits as int,
            d as int,
            (k + 1) as int,
            (m - d) as int,
        );
    }
}

/// A finite number, not zero, as a mantissa and an exponent.
pub proof fn lemma_units_exact(half: nat, rest: nat)
    requires
        is_format(half),
        0 < rest < infinity(half),
    ensures
        ({
            let u = magnitude(half, rest / half, rest % half);
            let x = of_int(half, u);
            exactly(x, u) && x.mant > 0 && normal(half, x)
        }),
{
    let u = magnitude(half, rest / half, rest % half);
    lemma_format(half);
    lemma2_to64();
    vstd::arithmetic::div_mod::lemma_fundamental_div_mod(rest as int, half as int);
    if rest / half == 0 {
        assert(half * 0 == 0);
        law_small_integers_are_exact(half, u);
        lemma_round_normal(half, u, 1);
        if of_int(half, u).exp == 0 {
            assert(u * pow2(0) == u) by (nonlinear_arith)
                requires
                    pow2(0) == 1,
            ;
        }
    } else {
        lemma_round_exact(half, half + rest % half, (rest / half - 1) as nat);
    }
}

/// A pattern put together from an exponent and a mantissa of full width.
pub proof fn lemma_pattern_units(half: nat, e: nat, m: nat)
    requires
        is_format(half),
        half <= m < 2 * half,
        e <= exp_limit(half) - 2,
    ensures
        e * half + m < infinity(half),
        units(half, e * half + m) == m * pow2(e),
{
    let a = e * half + m;
    lemma_format(half);
    assert(a == (e + 1) * half + (m - half) && a < exp_limit(half) * half) by (nonlinear_arith)
        requires
            a == e * half + m,
            half <= m < 2 * half,
            e <= exp_limit(half) - 2,
    ;
    vstd::arithmetic::div_mod::lemma_fundamental_div_mod_converse(
        a as int,
        half as int,
        (e + 1) as int,
        (m - half) as int,
    );
}

/// Integers below `2 * half`, times a power of two, are represented exactly.
pub proof fn lemma_exact_units(half: nat, n: nat, p: nat)
    requires
        is_format(half),
        n < 2 * half,
        log_half(half) <= p <= places(half),
    ensures
        nearest(half, n * pow2(p), 1) < infinity(half),
        units(half, nearest(half, n * pow2(p), 1)) == n * pow2(p),
{
    lemma_format(half);
    lemma2_to64();
    if n == 0 {
        assert(0 * pow2(p) == 0);
        lemma_nearest(half, 0, 1);
        assert(units(half, 0) == 0) by {
            assert(0nat / half == 0 && 0nat % half == 0) by (nonlinear_arith)
                requires
                    half > 0,
            ;
        }
    } else {
        let x = of_int(half, n);
        let w = log_half(half) as nat;
        law_small_integers_are_exact(half, n);
        lemma_round_normal(half, n, 1);
        lemma_round_shifted(half, n, 1, p, 0);
        assert(1 * pow2(0) == 1);
        if w < p {
            lemma_pow2_strictly_increases(w, p);
        }
        assert(n * pow2(p) >= half) by (nonlinear_arith)
            requires
                n >= 1,
                pow2(p) >= half,
        ;
        lemma_nearest(half, n * pow2(p), 1);
        let k = (-x.exp) as nat;
        if k > w {
            lemma_pow2_unfold(w + 1);
            if k > w + 1 {
                lemma_pow2_strictly_increases(w + 1, k);
            }
            assert(n * pow2(k) >= 2 * half) by (nonlinear_arith)
                requires
                    n >= 1,
                    pow2(k) >= 2 * half,
            ;
        }
        let e = (x.exp + p) as nat;
        lemma_pattern_units(half, e, x.mant);
        lemma_pow2_adds(k, e);
        assert(n * pow2(p) == x.mant * pow2(e)) by (nonlinear_arith)
            requires
                x.mant == n * pow2(k),
                pow2(p) == pow2(k) * pow2(e),
        ;
    }
}

/// Integers below `2 * half` are represented exactly.
pub proof fn law_integer_is_exact(half: nat, n: nat)
    requires
        is_format(half),
        n < 2 * half,
    ensures
        integer(half, n) < infinity(half),
        units(half, integer(half, n)) == n * pow2(places(half)),
{
    lemma_exact_units(half, n, places(half));
}

/// A quotient of small integers in single precision: the exact quotient, rounded
/// once.
pub proof fn law_small_quotient(n: nat, d: nat)
    requires
        n < 0x100_0000,
        0 < d < 0x100_0000,
    ensures
        ({
            let q = quotient(SINGLE as nat, integer(SINGLE as nat, n), integer(SINGLE as nat, d));
            let r = round(SINGLE as nat, n, d);
            &&& q < infinity(SINGLE as nat)
            &&& n == 0 ==> q == 0
            &&& n > 0 ==> SINGLE <= r.mant < 2 * SINGLE && r.exp >= -149
            &&& n > 0 ==> q == (r.exp + 149) * SINGLE + r.mant
        }),
{
    let half = SINGLE as nat;
    let a = integer(half, n);
    let b = integer(half, d);
    let p = pow2(149);
    lemma_format(half);
    lemma2_to64();
    lemma2_to64_rest();
    law_integer_is_exact(half, n);
    law_integer_is_exact(half, d);
    lemma_pow2_pos(149);
    assert(d * p > 0) by (nonlinear_arith)
        requires
            d > 0,
            p > 0,
    ;
    lemma_nearest_equal_scaled(half, n, d, p);
    if n == 0 {
        assert(0 * p == 0);
        lemma_nearest(half, 0, d);
        assert(half * d > 0) by (nonlinear_arith)
            requires
                half > 0,
                d > 0,
        ;
        lemma_rounds_to_zero(0, d);
    } else {
        let r = round(half, n, d);
        lemma_round_normal(half, n, d);
        lemma_round_shifted(half, n, d, 149, 0);
        assert(d * pow2(0) == d) by (nonlinear_arith)
            requires
                pow2(0) == 1,
        ;
        lemma_pow2_strictly_increases(60, 149);
        assert(n * p >= half * d) by (nonlinear_arith)
            requires
                n >= 1,
                p >= 0x1000_0000_0000_0000,
                half == 0x80_0000,
                d < 0x100_0000,
        ;
        lemma_nearest(half, n * p, d);
        lemma_small_round_exp(n, d);
        lemma_pattern_units(half, (r.exp + 149) as nat, r.mant);
    }
}

/// A common power of two in numerator and denominator.
proof fn lemma_nearest_equal_scaled(half: nat, n: nat, d: nat, p: nat)
    requires
        half > 0,
        d > 0,
        p > 0,
    ensures
        nearest(half, (n * p) * p, d * p) == nearest(half, n * p, d),
{
    assert(d * p > 0) by (nonlinear_arith)
        requires
            d > 0,
            p > 0,
    ;
    assert(((n * p) * p) * d == (n * p) * (d * p)) by (nonlinear_arith);
    lemma_nearest_equal(half, (n * p) * p, d * p, n * p, d);
}

/// The exponent of a quotient of small integers.
proof fn lemma_small_round_exp(n: nat, d: nat)
    requires
        0 < n < 0x100_0000,
        0 < d < 0x100_0000,
    ensures
        round(SINGLE as nat, n, d).exp <= 1,
{
    assert(n < 2 * SINGLE * d) by (nonlinear_arith)
        requires
            n < 0x100_0000,
            d >= 1,
            SINGLE == 0x80_0000,
    ;
    lemma_round_exp_upper(SINGLE as nat, n, d);
}

/// Every 64-bit integer is a finite number in single precision, and only zero is a
/// zero.
pub proof fn law_integer_is_finite(n: nat)
    requires
        n <= u64::MAX,
    ensures
        integer(SINGLE as nat, n) < infinity(SINGLE as nat),
        integer(SINGLE as nat, n) == 0 <==> n == 0,
{
    let half = SINGLE as nat;
    lemma_format(half);
    lemma2_to64();
    if n == 0 {
        law_integer_is_exact(half, 0);
        assert(0 * pow2(149) == 0);
        lemma_nearest(half, 0, 1);
    } else {
        lemma_single_int_exp(n);
        lemma_round_shifted(half, n, 1, 149, 0);
        assert(1 * pow2(0) == 1);
        lemma_integer_large(half, n);
        lemma_nearest(half, n * pow2(149), 1);
        let x = of_int(half, n);
        lemma_pattern_units(half, (x.exp + 149) as nat, x.mant);
    }
}

/// A finite number, not zero, divided by itself is one.
pub proof fn law_quotient_of_equals(half: nat, a: nat)
    requires
        is_format(half),
        is_pattern(half, a),
        0 < body(half, a) < infinity(half),
    ensures
        quotient(half, a, a) == integer(half, 1),
{
    lemma_format(half);
    lemma_units_zero(half, a);
    let u = units(half, a);
    let p = pow2(places(half));
    assert((u * p) * 1 == (1 * p) * u) by (nonlinear_arith);
    lemma_nearest_equal(half, u * p, u, 1 * p, 1);
}

/// Zero divided by a finite number, not negative and not zero, is zero.
pub proof fn law_quotient_of_zero(half: nat, a: nat)
    requires
        is_format(half),
        0 < a < infinity(half),
    ensures
        quotient(half, 0, a) == 0,
{
    lemma_format(half);
    lemma_units_zero(half, a);
    lemma_units_zero(half, 0);
    let u = units(half, a);
    assert(0 * pow2(places(half)) == 0);
    lemma_nearest(half, 0, u);
    assert(half * u > 0) by (nonlinear_arith)
        requires
            half > 0,
            u > 0,
    ;
    lemma_rounds_to_zero(0, u);
}

/// A result of no units is a zero of its sign.
pub proof fn lemma_zero_packed(half: nat, sign: bool)
    requires
        is_format(half),
    ensures
        packed(half, sign, 0, pow2(places(half))) == signed_zero(half, sign),
        units(half, signed_zero(half, sign)) == 0,
{
    lemma_format(half);
    lemma_units_zero(half, signed_zero(half, sign));
    let d = pow2(places(half));
    lemma_pow2_pos(places(half));
    lemma_nearest(half, 0, d);
    assert(half * d > 0) by (nonlinear_arith)
        requires
            half > 0,
            d > 0,
    ;
    lemma_rounds_to_zero(0, d);
}

/// A square root has no sign, unless it is a zero.
pub proof fn lemma_root_pattern(half: nat, a: nat)
    requires
        is_format(half),
        is_pattern(half, a),
    ensures
        is_pattern(half, square_root(half, a)),
        negative(half, square_root(half, a)) ==> units(half, square_root(half, a)) == 0,
        a <= infinity(half) ==> square_root(half, a) <= infinity(half),
{
    lemma_format(half);
    lemma_units_zero(half, a);
    let rest = body(half, a);
    if 0 < rest < infinity(half) && !negative(half, a) {
        let x = of_int(half, units(half, a));
        lemma_units_exact(half, rest);
        lemma_decoded_exp(half, rest, x);
        let y = Flt { mant: x.mant, exp: x.exp - places(half) };
        let r = root(half, y);
        lemma_root_normal(half, y);
        let e = (r.exp + places(half)) as nat;
        lemma_pattern_units(half, e, r.mant);
    }
}

/// A bound on the nearest pattern.
pub proof fn lemma_nearest_bound(half: nat, n: nat, d: nat, k: nat)
    requires
        half > 0,
        d > 0,
        n < 2 * half * d * pow2(k),
    ensures
        nearest(half, n, d) <= (k + 2) * half,
    decreases k,
{
    lemma2_to64();
    assert(2 * half * d == 2 * (half * d) && 2 * half * (2 * d) == 2 * (2 * half * d))
        by (nonlinear_arith);
    if n < 2 * half * d {
        let q = n / d;
        vstd::arithmetic::div_mod::lemma_fundamental_div_mod(n as int, d as int);
        assert(q < 2 * half) by (nonlinear_arith)
            requires
                n == d * q + n % d,
                n < 2 * half * d,
                n % d >= 0,
                d > 0,
        ;
        assert((k + 2) * half >= 2 * half) by (nonlinear_arith)
            requires
                k >= 0,
        ;
    } else if k == 0 {
        assert(2 * half * d * pow2(0) == 2 * half * d) by (nonlinear_arith)
            requires
                pow2(0) == 1,
        ;
    } else {
        let j = (k - 1) as nat;
        lemma_pow2_unfold(k);
        assert(2 * half * (2 * d) * pow2(j) == 2 * half * d * pow2(k)) by (nonlinear_arith)
            requires
                pow2(k) == 2 * pow2(j),
        ;
        lemma_nearest_bound(half, n, 2 * d, j);
        assert((j + 2) * half + half == (k + 2) * half) by (nonlinear_arith)
            requires
                k == j + 1,
        ;
    }
}

/// A bound on the units of a pattern.
pub proof fn lemma_units_bound(half: nat, a: nat, k: nat)
    requires
        is_format(half),
        a <= (k + 2) * half,
        a < infinity(half),
    ensures
        units(half, a) < 2 * half * pow2(k + 1),
{
    lemma_format(half);
    lemma2_to64();
    vstd::arithmetic::div_mod::lemma_fundamental_div_mod(a as int, half as int);
    let e = a / half;
    let f = a % half;
    lemma_pow2_pos(k + 1);
    assert(e <= k + 2) by (nonlinear_arith)
        requires
            a == half * e + f,
            a <= (k + 2) * half,
            f >= 0,
            half > 0,
    ;
    if e == 0 {
        assert(2 * half * pow2(k + 1) >= 2 * half) by (nonlinear_arith)
            requires
                pow2(k + 1) >= 1,
        ;
    } else {
        let j = (e - 1) as nat;
        lemma_pow2_pos(j);
        if j < k + 1 {
            lemma_pow2_strictly_increases(j, k + 1);
        }
        assert((half + f) * pow2(j) < 2 * half * pow2(k + 1)) by (nonlinear_arith)
            requires
                half + f < 2 * half,
                pow2(j) <= pow2(k + 1),
                pow2(j) > 0,
        ;
    }
}

/// A positive 64-bit integer in double precision lies between one unit of the ones
/// place and `2^65` of them.
pub proof fn lemma_double_integer(n: nat)
    requires
        n <= u64::MAX,
    ensures
        integer(DOUBLE as nat, n) < infinity(DOUBLE as nat),
        n > 0 ==> units(DOUBLE as nat, integer(DOUBLE as nat, n)) >= pow2(1074),
        units(DOUBLE as nat, integer(DOUBLE as nat, n)) <= pow2(65) * pow2(1074),
{
    let half = DOUBLE as nat;
    lemma_format(half);
    lemma2_to64();
    lemma2_to64_rest();
    if n == 0 {
        law_integer_is_exact(half, 0);
        assert(0 * pow2(1074) == 0);
    } else {
        let x = of_int(half, n);
        lemma_round_normal(half, n, 1);
        lemma_round_shifted(half, n, 1, 1074, 0);
        assert(1 * pow2(0) == 1);
        lemma_integer_large(half, n);
        lemma_nearest(half, n * pow2(1074), 1);
        assert(2 * half * pow2(11) == 0x1_0000_0000_0000_0000) by (nonlinear_arith)
            requires
                half == 0x10_0000_0000_0000,
                pow2(11) == 0x800,
        ;
        lemma_round_int_exp(half, n, 11);
        let e = (x.exp + 1074) as nat;
        if n < half {
            law_small_integers_are_exact(half, n);
            lemma_small_exp(half, n, x);
        } else {
            lemma_round_exp_lower(half, n, 1);
        }
        lemma_pattern_units(half, e, x.mant);
        // The units are `mant * 2^e` with `e` from 1022 to 1086.
        lemma_pow2_adds(52, 1022);
        lemma_pow2_pos(1022);
        if e > 1022 {
            lemma_pow2_strictly_increases(1022, e);
        }
        if e < 1086 {
            lemma_pow2_strictly_increases(e, 1086);
        }
        lemma_pow2_adds(53, 1086);
        lemma_pow2_adds(65, 1074);
        assert(x.mant * pow2(e) >= pow2(1074)) by (nonlinear_arith)
            requires
                x.mant >= pow2(52),
                pow2(e) >= pow2(1022),
                pow2(1074) == pow2(52) * pow2(1022),
        ;
        assert(x.mant * pow2(e) <= pow2(1139)) by (nonlinear_arith)
            requires
                x.mant <= pow2(53),
                pow2(e) <= pow2(1086),
                pow2(1139) == pow2(53) * pow2(1086),
        ;
    }
}

/// A quotient of 64-bit integers in double precision is finite, and so is the
/// distance of two of them.
pub proof fn law_quotients_are_finite(a: nat, b: nat, c: nat, d: nat)
    requires
        a <= u64::MAX,
        0 < b <= u64::MAX,
        c <= u64::MAX,
        0 < d <= u64::MAX,
    ensures
        ({
            let half = DOUBLE as nat;
            let x = quotient(half, integer(half, a), integer(half, b));
            let y = quotient(half, integer(half, c), integer(half, d));
            &&& x < infinity(half)
            &&& y < infinity(half)
            &&& body(half, difference(half, x, y)) < infinity(half)
        }),
{
    let half = DOUBLE as nat;
    let x = quotient(half, integer(half, a), integer(half, b));
    let y = quotient(half, integer(half, c), integer(half, d));
    lemma_format(half);
    lemma2_to64();
    lemma_quotient_small(a, b);
    lemma_quotient_small(c, d);
    let k: nat = 1200;
    lemma_units_bound(half, x, k);
    lemma_units_bound(half, y, k);
    let u = units(half, x);
    let v = units(half, y);
    let w = if u >= v {
        (u - v) as nat
    } else {
        (v - u) as nat
    };
    assert(2 * half * 1 * pow2(k + 1) == 2 * half * pow2(k + 1)) by (nonlinear_arith);
    lemma_nearest_bound(half, w, 1, k + 1);
    assert(body(half, negated(half, y)) == y);
}

/// The pattern of a quotient of 64-bit integers is far from infinity.
proof fn lemma_quotient_small(a: nat, b: nat)
    requires
        a <= u64::MAX,
        0 < b <= u64::MAX,
    ensures
        quotient(DOUBLE as nat, integer(DOUBLE as nat, a), integer(DOUBLE as nat, b)) <= 1202
            * DOUBLE,
{
    let half = DOUBLE as nat;
    let (p, q) = (integer(half, a), integer(half, b));
    let (u, v) = (units(half, p), units(half, q));
    lemma_format(half);
    lemma_double_integer(a);
    lemma_double_integer(b);
    lemma_pow2_pos(1074);
    lemma_pow2_adds(65, 1074);
    lemma_pow2_strictly_increases(1139, 1200);
    assert(u * pow2(1074) < 2 * half * v * pow2(1200)) by (nonlinear_arith)
        requires
            u <= pow2(1139),
            pow2(1139) < pow2(1200),
            v >= pow2(1074),
            pow2(1074) > 0,
            half >= 1,
    ;
    lemma_nearest_bound(half, u * pow2(1074), v, 1200);
}

/// `a - b` and `b - a` differ in their sign alone, for finite numbers that are not
/// negative.
pub proof fn law_difference_is_symmetric(half: nat, a: nat, b: nat)
    requires
        is_format(half),
        a < infinity(half),
        b < infinity(half),
    ensures
        body(half, difference(half, a, b)) == body(half, difference(half, b, a)),
{
    lemma_format(half);
    assert(body(half, negated(half, a)) == a);
    assert(body(half, negated(half, b)) == b);
}

/// Zero stays zero in single precision.
pub proof fn law_shortened_zero()
    ensures
        shortened(0) == 0,
{
    let s = SINGLE as nat;
    lemma_format(s);
    lemma_format(DOUBLE as nat);
    lemma_units_zero(DOUBLE as nat, 0);
    lemma_pow2_pos(925);
    lemma_nearest(s, 0, pow2(925));
    assert(s * pow2(925) > 0) by (nonlinear_arith)
        requires
            s > 0,
            pow2(925) > 0,
    ;
    lemma_rounds_to_zero(0, pow2(925));
}

} // verus!
