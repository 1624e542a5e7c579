//! Floating-point arithmetic keeps the order of numbers that are not negative.
//!
//! The patterns of such numbers, infinity among them, are ordered as the numbers are.
use crate::float_bits::{
    double_is_nan, double_value, law_patterns_order_numbers, lemma_magnitude_order,
};
use crate::ieee::{
    infinity, integer, is_infinite, is_nan, law_nearest_to_itself, law_operands_commute,
    law_small_quotient, law_values_agree, law_zero_is_neutral, lemma_exact_units, lemma_format,
    lemma_nearest_common_factor, lemma_units_zero, nearest, packed, places, product, quotient,
    sign_bit, sum, units,
};
use crate::single::{fraction, less, of_int, over, plus, times, zero, Single};
use crate::soft_float::{half_even, is_format, lemma_round_shifted, DOUBLE, SINGLE};
use vstd::arithmetic::div_mod::{lemma_div_is_ordered, lemma_fundamental_div_mod};
use vstd::arithmetic::power2::{lemma2_to64, lemma_pow2_adds, lemma_pow2_pos, pow2};
use vstd::prelude::*;

verus! {

/// Rounding to integers keeps the order.
proof fn lemma_half_even_order(n: nat, m: nat, d: nat)
    requires
        d > 0,
        n <= m,
    ensures
        half_even(n, d) <= half_even(m, d),
{
    lemma_div_is_ordered(n as int, m as int, d as int);
    lemma_fundamental_div_mod(n as int, d as int);
    lemma_fundamental_div_mod(m as int, d as int);
    if n / d == m / d {
        assert(n % d <= m % d);
    }
}

/// Rounding `n` and `m` parts of one size keeps the order.
proof fn lemma_nearest_order(half: nat, n: nat, m: nat, d: nat)
    requires
        half > 0,
        d > 0,
        n <= m,
    ensures
        nearest(half, n, d) <= nearest(half, m, d),
    decreases m / d,
{
    if m < 2 * half * d {
        lemma_half_even_order(n, m, d);
    } else {
        assert(m >= 2 * d) by (nonlinear_arith)
            requires
                m >= 2 * half * d,
                half >= 1,
        ;
        assert(m / (2 * d) < m / d) by {
            vstd::arithmetic::div_mod::lemma_div_denominator(m as int, d as int, 2);
            assert(d * 2 == 2 * d);
            lemma_div_is_ordered(2 * d as int, m as int, d as int);
            vstd::arithmetic::div_mod::lemma_div_multiples_vanish(2, d as int);
            assert(d * 2 / d == 2);
        }
        assert(half * (2 * d) == 2 * half * d) by (nonlinear_arith);
        if n >= 2 * half * d {
            lemma_nearest_order(half, n, m, 2 * d);
        } else {
            lemma_nearest_order(half, half * (2 * d), m, 2 * d);
            lemma_half_even_order(n, 2 * half * d, d);
            lemma_half_even_whole(2 * half, d);
            lemma_half_even_whole(half, 2 * d);
            assert(2 * half * (2 * d) > half * (2 * d)) by (nonlinear_arith)
                requires
                    half > 0,
                    d > 0,
            ;
        }
    }
}

/// A whole number is rounded to itself.
proof fn lemma_half_even_whole(k: nat, d: nat)
    requires
        d > 0,
    ensures
        half_even(k * d, d) == k,
{
    vstd::arithmetic::div_mod::lemma_div_multiples_vanish(k as int, d as int);
    vstd::arithmetic::div_mod::lemma_mod_multiples_basic(k as int, d as int);
    assert(k * d == d * k) by (nonlinear_arith);
}

/// Rounding keeps the order: what is nearest to a smaller number is no larger.
pub proof fn law_nearest_keeps_order(half: nat, n: nat, d: nat, m: nat, c: nat)
    requires
        half > 0,
        d > 0,
        c > 0,
        n * c <= m * d,
    ensures
        nearest(half, n, d) <= nearest(half, m, c),
{
    lemma_nearest_common_factor(half, n, d, c);
    lemma_nearest_common_factor(half, m, c, d);
    assert(c * n == n * c && d * m == m * d && c * d == d * c && d * c > 0) by (nonlinear_arith)
        requires
            d > 0,
            c > 0,
    ;
    lemma_nearest_order(half, c * n, d * m, c * d);
}

/// The numbers of patterns without a sign are ordered as the patterns.
pub proof fn lemma_units_order(half: nat, a: nat, b: nat)
    requires
        is_format(half),
        a < sign_bit(half),
        b < sign_bit(half),
    ensures
        a < b <==> units(half, a) < units(half, b),
        a <= b <==> units(half, a) <= units(half, b),
{
    lemma_format(half);
    if a < b {
        lemma_magnitude_order(half, a, b);
    } else if b < a {
        lemma_magnitude_order(half, b, a);
    }
}

/// A rounded result lies between zero and infinity.
pub proof fn lemma_packed_order(half: nat, n: nat, d: nat, m: nat, c: nat)
    requires
        is_format(half),
        d > 0,
        c > 0,
        n * c <= m * d,
    ensures
        packed(half, false, n, d) <= packed(half, false, m, c) <= infinity(half),
{
    lemma_format(half);
    law_nearest_keeps_order(half, n, d, m, c);
}

/// Integers are converted in order.
pub proof fn law_integers_keep_order(half: nat, n: nat, m: nat)
    requires
        is_format(half),
        n <= m,
    ensures
        integer(half, n) <= integer(half, m) <= infinity(half),
{
    let p = pow2(places(half));
    lemma_pow2_pos(places(half));
    assert((n * p) * 1 <= (m * p) * 1) by (nonlinear_arith)
        requires
            n <= m,
            p > 0,
    ;
    lemma_packed_order(half, n * p, 1, m * p, 1);
}

/// Sums keep the order.
pub proof fn law_sums_keep_order(half: nat, a: nat, b: nat, c: nat, d: nat)
    requires
        is_format(half),
        a <= c <= infinity(half),
        b <= d <= infinity(half),
    ensures
        sum(half, a, b) <= sum(half, c, d) <= infinity(half),
{
    lemma_format(half);
    lemma_units_order(half, a, c);
    lemma_units_order(half, b, d);
    let (n, m) = (units(half, a) + units(half, b), units(half, c) + units(half, d));
    assert(n * 1 <= m * 1);
    lemma_packed_order(half, n, 1, m, 1);
}

/// Products of finite numbers keep the order.
pub proof fn law_products_keep_order(half: nat, a: nat, b: nat, c: nat, d: nat)
    requires
        is_format(half),
        a <= c < infinity(half),
        b <= d < infinity(half),
    ensures
        product(half, a, b) <= product(half, c, d) <= infinity(half),
{
    lemma_format(half);
    lemma_units_order(half, a, c);
    lemma_units_order(half, b, d);
    let (ua, ub, uc, ud) = (units(half, a), units(half, b), units(half, c), units(half, d));
    let p = pow2(places(half));
    lemma_pow2_pos(places(half));
    assert(ua * ub <= uc * ud) by (nonlinear_arith)
        requires
            ua <= uc,
            ub <= ud,
    ;
    assert((ua * ub) * p <= (uc * ud) * p) by (nonlinear_arith)
        requires
            ua * ub <= uc * ud,
            p > 0,
    ;
    lemma_packed_order(half, ua * ub, p, uc * ud, p);
}

/// Quotients of finite numbers keep the order of what is divided and turn that of what
/// it is divided by.
pub proof fn law_quotients_keep_order(half: nat, a: nat, b: nat, c: nat, d: nat)
    requires
        is_format(half),
        a <= c < infinity(half),
        0 < d <= b < infinity(half),
    ensures
        quotient(half, a, b) <= quotient(half, c, d) <= infinity(half),
{
    lemma_format(half);
    lemma_units_order(half, a, c);
    lemma_units_order(half, d, b);
    lemma_units_zero(half, b);
    lemma_units_zero(half, d);
    let (ua, ub, uc, ud) = (units(half, a), units(half, b), units(half, c), units(half, d));
    let p = pow2(places(half));
    lemma_pow2_pos(places(half));
    assert(ua * p <= uc * p) by (nonlinear_arith)
        requires
            ua <= uc,
            p > 0,
    ;
    let (n, m) = (ua * p, uc * p);
    assert(n * ud <= m * ub) by (nonlinear_arith)
        requires
            0 <= n <= m,
            0 <= ud <= ub,
    ;
    lemma_packed_order(half, n, ub, m, ud);
}

/// A number that is not negative, or infinity.
pub open spec fn from_zero(a: Single) -> bool {
    a.bits <= 0x7f80_0000
}

/// A finite number that is not negative.
pub open spec fn finite_from_zero(a: Single) -> bool {
    a.bits < 0x7f80_0000
}

/// Numbers that are not negative compare as their patterns.
pub proof fn lemma_less_by_bits(a: Single, b: Single)
    requires
        from_zero(a),
        from_zero(b),
    ensures
        less(a, b) <==> a.bits < b.bits,
{
    reveal(less);
    law_patterns_order_numbers(a.bits, b.bits, 0, 0);
}

/// Integers in single precision keep the order.
pub proof fn lemma_ints(n: nat, m: nat)
    requires
        n <= m,
    ensures
        from_zero(of_int(n)),
        from_zero(of_int(m)),
        of_int(n).bits <= of_int(m).bits,
{
    reveal(of_int);
    lemma_format(SINGLE as nat);
    law_integers_keep_order(SINGLE as nat, n, m);
}

/// Sums in single precision keep the order.
pub proof fn lemma_plus(a: Single, b: Single, c: Single, d: Single)
    requires
        a.bits <= c.bits,
        b.bits <= d.bits,
        from_zero(c),
        from_zero(d),
    ensures
        from_zero(plus(a, b)),
        from_zero(plus(c, d)),
        plus(a, b).bits <= plus(c, d).bits,
{
    reveal(plus);
    lemma_format(SINGLE as nat);
    law_sums_keep_order(
        SINGLE as nat,
        a.bits as nat,
        b.bits as nat,
        c.bits as nat,
        d.bits as nat,
    );
}

/// Products in single precision keep the order.
pub proof fn lemma_times(a: Single, b: Single, c: Single, d: Single)
    requires
        a.bits <= c.bits,
        b.bits <= d.bits,
        finite_from_zero(c),
        finite_from_zero(d),
    ensures
        from_zero(times(a, b)),
        from_zero(times(c, d)),
        times(a, b).bits <= times(c, d).bits,
{
    reveal(times);
    lemma_format(SINGLE as nat);
    law_products_keep_order(
        SINGLE as nat,
        a.bits as nat,
        b.bits as nat,
        c.bits as nat,
        d.bits as nat,
    );
}

/// Quotients in single precision keep the order.
pub proof fn lemma_over(a: Single, b: Single, c: Single, d: Single)
    requires
        a.bits <= c.bits,
        0 < d.bits <= b.bits,
        finite_from_zero(c),
        finite_from_zero(b),
    ensures
        from_zero(over(a, b)),
        from_zero(over(c, d)),
        over(a, b).bits <= over(c, d).bits,
{
    reveal(over);
    lemma_format(SINGLE as nat);
    law_quotients_keep_order(
        SINGLE as nat,
        a.bits as nat,
        b.bits as nat,
        c.bits as nat,
        d.bits as nat,
    );
}

/// The pattern of a fraction of small integers, from the power of two that brings it to
/// the width of a mantissa.
pub proof fn lemma_fraction_bits(n: nat, d: nat, k: nat)
    requires
        0 < n < 0x100_0000,
        0 < d < 0x100_0000,
        k <= 149,
        SINGLE * d <= n * pow2(k) < 2 * SINGLE * d,
        half_even(n * pow2(k), d) < 2 * SINGLE,
    ensures
        fraction(n, d).bits == (149 - k) * SINGLE + half_even(n * pow2(k), d),
{
    let half = SINGLE as nat;
    reveal(over);
    reveal(of_int);
    lemma_format(half);
    lemma2_to64();
    law_small_quotient(n, d);
    lemma_round_shifted(half, n, d, k, 0);
    assert(d * pow2(0) == d);
    lemma_half_even_order(half * d, n * pow2(k), d);
    lemma_half_even_whole(half, d);
}

/// A number that is added to zero stays as it is.
pub proof fn lemma_plus_zero(a: Single)
    requires
        0 < a.bits < 0x7f80_0000,
    ensures
        plus(a, zero()) == a,
        plus(zero(), a) == a,
{
    let half = SINGLE as nat;
    reveal(plus);
    lemma_format(half);
    law_zero_is_neutral(half, a.bits as nat);
    law_operands_commute(half, a.bits as nat, 0);
}

/// A sum of numbers that are not negative is at least either of them.
pub proof fn lemma_plus_grows(a: Single, b: Single)
    requires
        finite_from_zero(a),
        finite_from_zero(b),
    ensures
        from_zero(plus(a, b)),
        a.bits <= plus(a, b).bits,
        b.bits <= plus(a, b).bits,
{
    lemma_plus(a, zero(), a, b);
    lemma_plus(zero(), b, a, b);
    if a.bits > 0 {
        lemma_plus_zero(a);
    }
    if b.bits > 0 {
        lemma_plus_zero(b);
    }
}

/// The sum of two finite double-precision numbers, by its exact value.
proof fn lemma_signed_sum(a: u64, b: u64)
    requires
        !is_nan(DOUBLE as nat, a as nat),
        !is_nan(DOUBLE as nat, b as nat),
        !is_infinite(DOUBLE as nat, a as nat),
        !is_infinite(DOUBLE as nat, b as nat),
    ensures
        ({
            let wide = DOUBLE as nat;
            let e = double_value(a) + double_value(b);
            let r = sum(wide, a as nat, b as nat);
            let n = packed(wide, false, magnitude_of(e), 1);
            &&& r <= u64::MAX
            &&& !double_is_nan(r as u64)
            &&& n <= infinity(wide)
            &&& double_value(r as u64) == if e < 0 {
                -units(wide, n)
            } else {
                units(wide, n) as int
            }
        }),
{
    let wide = DOUBLE as nat;
    lemma_format(wide);
    law_values_agree(a, 0);
    law_values_agree(b, 0);
    let e = double_value(a) + double_value(b);
    let r = sum(wide, a as nat, b as nat);
    let n = packed(wide, false, magnitude_of(e), 1);
    law_values_agree(r as u64, 0);
    law_nearest_to_itself(wide, 0);
    lemma_units_zero(wide, 0);
    lemma_units_zero(wide, sign_bit(wide));
}

/// The absolute value of an integer.
spec fn magnitude_of(e: int) -> nat {
    if e < 0 {
        (-e) as nat
    } else {
        e as nat
    }
}

/// To add a larger number to a finite number never gives less.
pub proof fn law_signed_sums_keep_order(a: u64, b: u64, c: u64)
    requires
        !is_nan(DOUBLE as nat, a as nat),
        !is_infinite(DOUBLE as nat, a as nat),
        !is_nan(DOUBLE as nat, b as nat),
        !is_infinite(DOUBLE as nat, b as nat),
        !is_nan(DOUBLE as nat, c as nat),
        !is_infinite(DOUBLE as nat, c as nat),
        double_value(b) <= double_value(c),
    ensures
        !double_is_nan(sum(DOUBLE as nat, a as nat, b as nat) as u64),
        !double_is_nan(sum(DOUBLE as nat, a as nat, c as nat) as u64),
        double_value(sum(DOUBLE as nat, a as nat, b as nat) as u64) <= double_value(
            sum(DOUBLE as nat, a as nat, c as nat) as u64,
        ),
{
    let wide = DOUBLE as nat;
    lemma_format(wide);
    lemma_signed_sum(a, b);
    lemma_signed_sum(a, c);
    let (e, f) = (double_value(a) + double_value(b), double_value(a) + double_value(c));
    let (m, n) = (
        packed(wide, false, magnitude_of(e), 1),
        packed(wide, false, magnitude_of(f), 1),
    );
    if e >= 0 {
        lemma_packed_order(wide, magnitude_of(e), 1, magnitude_of(f), 1);
        lemma_units_order(wide, m, n);
    } else if f < 0 {
        lemma_packed_order(wide, magnitude_of(f), 1, magnitude_of(e), 1);
        lemma_units_order(wide, n, m);
    }
}

/// A number up to `2^18` is rounded by at most a thirty-second.
pub proof fn lemma_rounds_close(n: nat, d: nat)
    requires
        d > 0,
        n <= pow2(167) * d,
    ensures
        nearest(SINGLE as nat, n, d) < infinity(SINGLE as nat),
        n <= (units(SINGLE as nat, nearest(SINGLE as nat, n, d)) + pow2(144)) * d,
        units(SINGLE as nat, nearest(SINGLE as nat, n, d)) * d <= n + pow2(144) * d,
{
    let half = SINGLE as nat;
    let g = pow2(144);
    let step = g * d;
    let b = nearest(half, n, d);
    lemma_format(half);
    lemma2_to64();
    lemma_pow2_pos(144);
    lemma_pow2_adds(23, 144);
    assert(step > 0) by (nonlinear_arith)
        requires
            step == g * d,
            g > 0,
            d > 0,
    ;
    let k = n / step;
    lemma_fundamental_div_mod(n as int, step as int);
    assert(k * step <= n < (k + 1) * step) by (nonlinear_arith)
        requires
            n == step * k + n % step,
            0 <= n % step < step,
    ;
    assert(k <= half) by (nonlinear_arith)
        requires
            k * step <= n,
            n <= pow2(167) * d,
            pow2(167) == half * g,
            step == g * d,
            step > 0,
    ;
    lemma_exact_units(half, k, 144);
    lemma_exact_units(half, k + 1, 144);
    let (x, y) = (k * g, (k + 1) * g);
    assert(x * d == k * step && y * d == (k + 1) * step) by (nonlinear_arith)
        requires
            x == k * g,
            y == (k + 1) * g,
            step == g * d,
    ;
    law_nearest_keeps_order(half, x, 1, n, d);
    law_nearest_keeps_order(half, n, d, y, 1);
    lemma_units_order(half, nearest(half, x, 1), b);
    lemma_units_order(half, b, nearest(half, y, 1));
    let u = units(half, b);
    assert(n <= (u + g) * d) by (nonlinear_arith)
        requires
            n < (k + 1) * step,
            x * d == k * step,
            x <= u,
            step == g * d,
    ;
    assert(u * d <= n + g * d) by (nonlinear_arith)
        requires
            u <= y,
            y * d == (k + 1) * step,
            k * step <= n,
            step == g * d,
            d > 0,
    ;
}

} // verus!
