//! How the distributions of a generated mask fit the recorded traffic.
use crate::float_bits::{double_value, single_value};
use crate::ieee::{
    body, infinity, law_integer_is_exact, law_nearest_to_itself, law_quotient_of_equals,
    law_values_agree, lemma_format, lemma_nearest_common_factor, lemma_pattern_units,
    lemma_units_zero, lemma_wide_value, nearest, negated, negative, product, quotient, units,
    widened,
};
use crate::modes::Mode;
use crate::mask::{IATDistType, ParametricType, SizeDistType};
use crate::monotone::{
    law_nearest_keeps_order, lemma_less_by_bits, lemma_over, lemma_times, lemma_units_order,
};
use crate::periods::Period;
use crate::precision::{
    law_product_error, law_quotient_error, law_sum_error, lemma_fraction_near, lemma_near_chain,
    lemma_near_product, lemma_near_scaled, lemma_near_weaker, lemma_product_finite,
    lemma_quotient_finite, lemma_rounding_bound, lemma_units_doubled, near,
};
use crate::profile::{
    bin_high, bin_low, iat_log_argument, law_bins_hold_sizes, profile_arrivals, profile_sizes,
    size_log_argument, weighted_mean, wide_ratio, DOUBLE_TEN, DOUBLE_TENTH,
};
use crate::single::{
    fraction, larger, law_small_sum, law_whole_of_int, less, minus, of_int, over, plus, square,
    times, whole, Single,
};
use crate::soft_float::{DOUBLE, SINGLE};
use vstd::arithmetic::div_mod::lemma_fundamental_div_mod;
use vstd::arithmetic::power2::{
    lemma2_to64, lemma2_to64_rest, lemma_pow2_adds, lemma_pow2_pos, lemma_pow2_strictly_increases,
    pow2,
};
use vstd::prelude::*;

verus! {

/// The number of a single-precision pattern without a sign, in units of `2^-149`.
pub open spec fn amount(a: Single) -> int {
    units(SINGLE as nat, a.bits as nat) as int
}

/// A finite number of one or more.
pub open spec fn from_one(a: Single) -> bool {
    a.bits < 0x7f80_0000 && amount(a) >= pow2(149)
}

/// One in units of `2^-149`.
proof fn lemma_one()
    ensures
        amount(of_int(1)) == pow2(149),
        of_int(1).bits == nearest(SINGLE as nat, pow2(149), 1),
        0 < of_int(1).bits < 0x7f80_0000,
{
    let half = SINGLE as nat;
    reveal(of_int);
    lemma_format(half);
    law_integer_is_exact(half, 1);
    lemma_pow2_pos(149);
    lemma_units_zero(half, of_int(1).bits as nat);
    law_nearest_to_itself(half, of_int(1).bits as nat);
}

/// Of one and a number of one or more, the number is the larger one.
proof fn lemma_larger(a: Single)
    requires
        from_one(a),
    ensures
        larger(a, of_int(1)) == a,
{
    lemma_one();
    reveal(less);
    lemma_format(SINGLE as nat);
    law_values_agree(0, a.bits);
    law_values_agree(0, of_int(1).bits);
}

/// Powers of two that are compared below.
proof fn lemma_powers()
    ensures
        SINGLE as nat == pow2(23),
        2 * SINGLE as nat == 0x100_0000,
        pow2(23) <= pow2(149),
        pow2(149) * pow2(62) == pow2(24) * pow2(187),
        pow2(24) == 0x100_0000,
        pow2(149) > 0,
        pow2(62) > 0,
        pow2(187) > 0,
{
    lemma_format(SINGLE as nat);
    lemma2_to64();
    lemma_pow2_strictly_increases(23, 149);
    lemma_pow2_adds(149, 62);
    lemma_pow2_adds(24, 187);
    lemma_pow2_pos(149);
    lemma_pow2_pos(62);
    lemma_pow2_pos(187);
}

/// The quotient of two numbers of which the dividend is the larger one.
proof fn lemma_ratio(a: Single, b: Single)
    requires
        from_one(a),
        from_one(b),
        amount(b) <= amount(a) < pow2(62) * pow2(149),
    ensures
        from_one(over(a, b)),
        near(amount(over(a, b)) * amount(b), amount(a) * pow2(149), 0x100_0000),
        amount(over(a, b)) < pow2(63) * pow2(149),
{
    let half = SINGLE as nat;
    let p = pow2(149) as int;
    let (u, v) = (amount(a), amount(b));
    lemma_format(half);
    lemma_powers();
    reveal(over);
    let n = (u * p) as nat;
    assert(n < 2 * half * v * pow2(187)) by (nonlinear_arith)
        requires
            n == u * p,
            u < pow2(62) * p,
            p <= v,
            p > 0,
            p * pow2(62) == pow2(24) * pow2(187),
            2 * half == pow2(24),
            pow2(187) > 0,
    {
        assert(u * p < (pow2(62) * p) * p) by (nonlinear_arith)
            requires
                u < pow2(62) * p,
                p > 0,
        ;
        assert((pow2(62) * p) * p == (2 * half * p) * pow2(187)) by (nonlinear_arith)
            requires
                p * pow2(62) == pow2(24) * pow2(187),
                2 * half == pow2(24),
        ;
        assert((2 * half * p) * pow2(187) <= (2 * half * v) * pow2(187)) by (nonlinear_arith)
            requires
                p <= v,
                pow2(187) > 0,
        ;
    }
    lemma_quotient_finite(half, a.bits as nat, b.bits as nat, 187);
    assert(n >= half * v) by (nonlinear_arith)
        requires
            n == u * p,
            half <= p,
            v <= u,
            0 <= v,
    ;
    law_quotient_error(half, a.bits as nat, b.bits as nat);
    assert(p * v <= n * 1) by (nonlinear_arith)
        requires
            n == u * p,
            v <= u,
            p > 0,
    ;
    law_nearest_keeps_order(half, p as nat, 1, n, v as nat);
    lemma_one();
    let q = over(a, b);
    lemma_units_order(half, of_int(1).bits as nat, q.bits as nat);
    let w = amount(q);
    lemma_pow2_adds(62, 1);
    lemma2_to64();
    assert(w < pow2(63) * p) by (nonlinear_arith)
        requires
            (w * v - u * p) * 0x100_0000 <= u * p,
            u < pow2(62) * p,
            p <= v,
            p > 0,
            pow2(63) == 2 * pow2(62),
            w >= 0,
            u >= 0,
    {
        assert(w * v <= 2 * (u * p)) by (nonlinear_arith)
            requires
                (w * v - u * p) * 0x100_0000 <= u * p,
                u * p >= 0,
        ;
        assert(w * p <= w * v) by (nonlinear_arith)
            requires
                w >= 0,
                p <= v,
        ;
        assert(w * p <= (2 * u) * p) by (nonlinear_arith)
            requires
                w * p <= w * v,
                w * v <= 2 * (u * p),
        ;
        assert(w <= 2 * u) by (nonlinear_arith)
            requires
                w * p <= (2 * u) * p,
                p > 0,
        ;
    }
}

/// The square of a number of one or more.
proof fn lemma_square(a: Single)
    requires
        from_one(a),
        amount(a) < pow2(63) * pow2(149),
    ensures
        from_one(square(a)),
        near(amount(square(a)) * pow2(149), amount(a) * amount(a), 0x100_0000),
{
    let half = SINGLE as nat;
    let p = pow2(149) as int;
    let u = amount(a);
    lemma_format(half);
    lemma_powers();
    reveal(times);
    let n = (u * u) as nat;
    lemma_pow2_adds(63, 63);
    lemma_pow2_adds(126, 149);
    lemma_pow2_adds(24, 251);
    let g = pow2(63) as int;
    assert(n < 2 * half * p * pow2(251)) by (nonlinear_arith)
        requires
            n == u * u,
            0 <= u < g * p,
            p > 0,
            pow2(126) == g * g,
            pow2(126) * p == pow2(24) * pow2(251),
            2 * half == pow2(24),
    {
        assert(u * u < (g * p) * (g * p)) by (nonlinear_arith)
            requires
                0 <= u < g * p,
        ;
        assert((g * p) * (g * p) == (2 * half * p) * pow2(251)) by (nonlinear_arith)
            requires
                pow2(126) == g * g,
                pow2(126) * p == pow2(24) * pow2(251),
                2 * half == pow2(24),
        ;
    }
    lemma_product_finite(half, a.bits as nat, a.bits as nat, 251);
    assert(n >= half * p && p * p <= n * 1) by (nonlinear_arith)
        requires
            n == u * u,
            half <= p <= u,
            0 <= p,
    ;
    law_product_error(half, a.bits as nat, a.bits as nat);
    law_nearest_keeps_order(half, p as nat, 1, n, p as nat);
    lemma_one();
    lemma_units_order(half, of_int(1).bits as nat, square(a).bits as nat);
}

/// The square of one number, divided by another in double precision.
proof fn lemma_scale(std_dev: Single, centre: Single)
    requires
        from_one(std_dev),
        from_one(centre),
        amount(std_dev) < pow2(62) * pow2(149),
        amount(centre) < pow2(62) * pow2(149),
    ensures
        ({
            let wide = DOUBLE as nat;
            let theta = quotient(
                wide,
                widened(square(std_dev).bits as nat),
                widened(centre.bits as nat),
            );
            &&& theta < infinity(wide)
            &&& near(
                (units(wide, theta) * amount(centre)) * pow2(149),
                (amount(std_dev) * amount(std_dev)) * pow2(1074),
                0x40_0000,
            )
        }),
{
    let wide = DOUBLE as nat;
    let (p, c, w) = (pow2(149) as int, pow2(925) as int, pow2(1074) as int);
    let (s, m) = (amount(std_dev), amount(centre));
    let two = square(std_dev);
    let x = amount(two);
    lemma_powers();
    lemma_format(wide);
    lemma_pow2_pos(925);
    lemma_pow2_pos(1074);
    lemma_pow2_adds(149, 925);
    lemma_pow2_adds(62, 1);
    lemma2_to64();
    assert(s < pow2(63) * p) by (nonlinear_arith)
        requires
            s < pow2(62) * p,
            pow2(63) == 2 * pow2(62),
            p > 0,
    ;
    lemma_square(std_dev);
    lemma_format(SINGLE as nat);
    lemma_wide_value(two.bits as nat);
    lemma_wide_value(centre.bits as nat);
    let (a, b) = (widened(two.bits as nat), widened(centre.bits as nat));
    assert(a < infinity(wide) && b < infinity(wide));
    let (ua, ub) = (units(wide, a) as int, units(wide, b) as int);
    assert(ua == x * c && ub == m * c);
    let n = (ua * w) as nat;
    // The square is below `2^126`.
    let g = pow2(62) as int;
    lemma_pow2_adds(62, 62);
    lemma_pow2_adds(124, 2);
    assert(x < pow2(126) * p) by (nonlinear_arith)
        requires
            (x * p - s * s) * 0x100_0000 <= s * s,
            0 <= s < g * p,
            p > 0,
            pow2(124) == g * g,
            pow2(126) == pow2(124) * 4,
    {
        assert(s * s < (g * p) * (g * p)) by (nonlinear_arith)
            requires
                0 <= s < g * p,
        ;
        assert((g * p) * (g * p) == (pow2(124) * p) * p) by (nonlinear_arith)
            requires
                pow2(124) == g * g,
        ;
        assert(x * p <= 2 * (s * s)) by (nonlinear_arith)
            requires
                (x * p - s * s) * 0x100_0000 <= s * s,
                s * s >= 0,
        ;
        assert(x * p < (4 * (pow2(124) * p)) * p) by (nonlinear_arith)
            requires
                x * p <= 2 * (s * s),
                s * s < (pow2(124) * p) * p,
                s * s >= 0,
        ;
        assert(x < 4 * (pow2(124) * p)) by (nonlinear_arith)
            requires
                x * p < (4 * (pow2(124) * p)) * p,
                p > 0,
        ;
    }
    // The quotient is neither too large nor too small.
    lemma_pow2_adds(126, 1074);
    lemma_pow2_adds(53, 1147);
    lemma2_to64_rest();
    lemma_pow2_pos(1147);
    assert(2 * wide == pow2(53));
    assert(n < 2 * wide * ub * pow2(1147)) by (nonlinear_arith)
        requires
            n == (x * c) * w,
            x < pow2(126) * p,
            p <= m,
            ub == m * c,
            w > 0,
            c > 0,
            pow2(126) * w == pow2(53) * pow2(1147),
            2 * wide == pow2(53),
            pow2(1147) > 0,
    {
        let t = c * w;
        assert((x * c) * w == x * t) by (nonlinear_arith)
            requires
                t == c * w,
        ;
        assert(t > 0) by (nonlinear_arith)
            requires
                t == c * w,
                c > 0,
                w > 0,
        ;
        assert(x * t < (pow2(126) * p) * t) by (nonlinear_arith)
            requires
                x < pow2(126) * p,
                t > 0,
        ;
        assert((pow2(126) * p) * t <= (pow2(126) * m) * t) by (nonlinear_arith)
            requires
                p <= m,
                t > 0,
                pow2(126) >= 0,
        ;
        assert((pow2(126) * m) * t == (2 * wide * (m * c)) * pow2(1147)) by (nonlinear_arith)
            requires
                t == c * w,
                pow2(126) * w == pow2(53) * pow2(1147),
                2 * wide == pow2(53),
        ;
    }
    assert(ub > 0) by (nonlinear_arith)
        requires
            ub == m * c,
            m >= p,
            p > 0,
            c > 0,
    ;
    lemma_quotient_finite(wide, a, b, 1147);
    lemma_pow2_adds(52, 62);
    lemma_pow2_strictly_increases(114, 1074);
    assert(wide == pow2(52));
    assert(n >= wide * ub) by (nonlinear_arith)
        requires
            n == (x * c) * w,
            x >= p,
            p > 0,
            m < g * p,
            ub == m * c,
            c > 0,
            w > pow2(114),
            pow2(114) == wide * g,
            wide >= 0,
            g >= 0,
    {
        let t = x * c;
        assert(t >= p * c && p * c > 0) by (nonlinear_arith)
            requires
                t == x * c,
                x >= p,
                p > 0,
                c > 0,
        ;
        assert(t * w >= (p * c) * (wide * g)) by (nonlinear_arith)
            requires
                t >= p * c,
                p * c > 0,
                w > wide * g,
                wide * g >= 0,
        ;
        assert((p * c) * (wide * g) == wide * ((g * p) * c)) by (nonlinear_arith);
        assert(wide * ((g * p) * c) >= wide * (m * c)) by (nonlinear_arith)
            requires
                m < g * p,
                c > 0,
                wide >= 0,
        ;
    }
    law_quotient_error(wide, a, b);
    let theta = quotient(wide, a, b);
    let t = units(wide, theta) as int;
    // The common factor of both is taken out.
    assert(t * ub == (t * m) * c && ua * w == (x * w) * c) by (nonlinear_arith)
        requires
            ua == x * c,
            ub == m * c,
    ;
    lemma_near_scaled(t * m, x * w, c, 2 * wide as int);
    assert(x * w >= 0) by (nonlinear_arith)
        requires
            x >= p,
            p > 0,
            w > 0,
    ;
    lemma_near_weaker(t * m, x * w, 2 * wide as int, 0x100_0000);
    lemma_near_scaled(t * m, x * w, p, 0x100_0000);
    lemma_near_scaled(x * p, s * s, w, 0x100_0000);
    assert((x * w) * p == (x * p) * w) by (nonlinear_arith);
    assert((s * s) * w >= 0) by (nonlinear_arith)
        requires
            w > 0,
    ;
    lemma_near_chain((t * m) * p, (x * p) * w, (s * s) * w, 0x100_0000, 0x40_0000);
}

/// The shape is the square of the ratio of mean and deviation, up to rounding.
proof fn lemma_shape(k: int, r: int, s: int, m: int, p: int)
    requires
        near(r * s, m * p, 0x100_0000),
        near(k * p, r * r, 0x100_0000),
        s > 0,
        m > 0,
        p > 0,
    ensures
        near((k * s) * s, (m * m) * p, 0x10_0000),
{
    let e = 0x100_0000;
    assert(m * p >= 0) by (nonlinear_arith)
        requires
            m > 0,
            p > 0,
    ;
    lemma_near_product(r * s, m * p, r * s, m * p, e, 0x40_0000);
    let ss = s * s;
    assert(ss > 0) by (nonlinear_arith)
        requires
            ss == s * s,
            s > 0,
    ;
    lemma_near_scaled(k * p, r * r, ss, e);
    assert((r * r) * ss == (r * s) * (r * s)) by (nonlinear_arith)
        requires
            ss == s * s,
    ;
    assert((r * s) * (r * s) >= 0 && (m * p) * (m * p) >= 0) by (nonlinear_arith);
    lemma_near_weaker((k * p) * ss, (r * r) * ss, e, 0x40_0000);
    lemma_near_chain((k * p) * ss, (r * s) * (r * s), (m * p) * (m * p), 0x40_0000, 0x10_0000);
    assert((k * p) * ss == ((k * s) * s) * p && (m * p) * (m * p) == ((m * m) * p) * p)
        by (nonlinear_arith)
        requires
            ss == s * s,
    ;
    lemma_near_scaled((k * s) * s, (m * m) * p, p, 0x10_0000);
}

/// Shape and scale together have the mean and the variance that they are made from.
proof fn lemma_moments(k: int, t: int, s: int, m: int, p: int, w: int)
    requires
        near((k * s) * s, (m * m) * p, 0x10_0000),
        near((t * m) * p, (s * s) * w, 0x40_0000),
        s > 0,
        m > 0,
        p > 0,
        w > 0,
    ensures
        near(k * t, m * w, 0x4_0000),
        near(((k * t) * t) * p, ((s * s) * w) * w, 0x1_0000),
{
    let b = (s * s) * w;
    let a = (m * m) * p;
    assert(a >= 0 && b >= 0 && m * w >= 0) by (nonlinear_arith)
        requires
            a == (m * m) * p,
            b == (s * s) * w,
            m > 0,
            p > 0,
            w > 0,
    ;
    lemma_near_weaker((t * m) * p, b, 0x40_0000, 0x10_0000);
    lemma_near_product((k * s) * s, a, (t * m) * p, b, 0x10_0000, 0x4_0000);
    let f = ((s * s) * m) * p;
    assert(f > 0) by (nonlinear_arith)
        requires
            f == ((s * s) * m) * p,
            s > 0,
            m > 0,
            p > 0,
    ;
    assert(((k * s) * s) * ((t * m) * p) == (k * t) * f && a * b == (m * w) * f)
        by (nonlinear_arith)
        requires
            f == ((s * s) * m) * p,
            a == (m * m) * p,
            b == (s * s) * w,
    ;
    lemma_near_scaled(k * t, m * w, f, 0x4_0000);
    lemma_near_weaker((t * m) * p, b, 0x10_0000, 0x4_0000);
    lemma_near_product(k * t, m * w, (t * m) * p, b, 0x4_0000, 0x1_0000);
    assert((k * t) * ((t * m) * p) == (((k * t) * t) * p) * m && (m * w) * b == (b * w) * m)
        by (nonlinear_arith);
    lemma_near_scaled(((k * t) * t) * p, b * w, m, 0x1_0000);
}

/// The times of traffic with two periods follow a gamma curve that has the recorded moments:
/// for a deviation `s` of a millisecond or more and a weighted mean `m` that is no smaller,
/// the shape is `m^2 / s^2`, shape times scale is `m`, and shape times the square of the scale
/// is `s^2`; each up to what rounding changes, less than one part in fifty thousand. All
/// numbers are in units of `2^-1074`, so that one is `2^1074`.
pub proof fn law_gamma_fits_moments(
    mean: Single,
    std_dev: Single,
    periods: Seq<Period>,
    log: Single,
)
    requires
        periods.len() >= 2,
        from_one(std_dev),
        from_one(weighted_mean(periods[0], periods[1])),
        amount(std_dev) <= amount(weighted_mean(periods[0], periods[1])) < pow2(62) * pow2(149),
    ensures
        ({
            let arrivals = profile_arrivals(mean, std_dev, periods, log);
            let one = pow2(1074) as int;
            let m = amount(weighted_mean(periods[0], periods[1])) * pow2(925);
            let s = amount(std_dev) * pow2(925);
            let k = units(DOUBLE as nat, arrivals.params[0] as nat) as int;
            let theta = units(DOUBLE as nat, arrivals.params[1] as nat) as int;
            &&& arrivals.dist_type == IATDistType::Gamma
            &&& arrivals.params.len() == 2
            &&& arrivals.params[0] < 0x7ff0_0000_0000_0000
            &&& arrivals.params[1] < 0x7ff0_0000_0000_0000
            &&& k >= one
            &&& near((k * s) * s, (m * m) * one, 0x10_0000)
            &&& near(k * theta, m * one, 0x4_0000)
            &&& near((k * theta) * theta, (s * s) * one, 0x1_0000)
        }),
{
    let wide = DOUBLE as nat;
    let centre = weighted_mean(periods[0], periods[1]);
    let (p, c, w) = (pow2(149) as int, pow2(925) as int, pow2(1074) as int);
    let (s, m) = (amount(std_dev), amount(centre));
    lemma_powers();
    lemma_format(wide);
    lemma_format(SINGLE as nat);
    lemma_pow2_pos(925);
    lemma_pow2_pos(1074);
    lemma_pow2_adds(149, 925);
    lemma_larger(std_dev);
    lemma_larger(centre);
    let ratio = over(centre, std_dev);
    lemma_ratio(centre, std_dev);
    lemma_square(ratio);
    let shape = square(ratio);
    lemma_larger(shape);
    lemma_scale(std_dev, centre);
    let arrivals = profile_arrivals(mean, std_dev, periods, log);
    let theta = quotient(wide, widened(square(std_dev).bits as nat), widened(centre.bits as nat));
    lemma_wide_value(shape.bits as nat);
    assert(arrivals.params[0] == widened(shape.bits as nat));
    assert(arrivals.params[1] == theta);
    let (k, t) = (amount(shape), units(wide, theta) as int);
    lemma_shape(k, amount(ratio), s, m, p);
    lemma_moments(k, t, s, m, p, w);
    assert(w == p * c);
    let (kd, md, sd) = (k * c, m * c, s * c);
    assert(kd >= w) by (nonlinear_arith)
        requires
            kd == k * c,
            k >= p,
            w == p * c,
            c > 0,
    ;
    let c3 = c * c * c;
    assert(c3 > 0) by (nonlinear_arith)
        requires
            c3 == c * c * c,
            c > 0,
    ;
    assert((kd * sd) * sd == ((k * s) * s) * c3 && (md * md) * w == ((m * m) * p) * c3)
        by (nonlinear_arith)
        requires
            kd == k * c,
            md == m * c,
            sd == s * c,
            w == p * c,
            c3 == c * c * c,
    ;
    lemma_near_scaled((k * s) * s, (m * m) * p, c3, 0x10_0000);
    assert(kd * t == (k * t) * c && md * w == (m * w) * c) by (nonlinear_arith)
        requires
            kd == k * c,
            md == m * c,
    ;
    lemma_near_scaled(k * t, m * w, c, 0x4_0000);
    assert(((k * t) * t) * p == ((k * t) * t) * p && ((s * s) * w) * w == (((s * s) * w) * c) * p)
        by (nonlinear_arith)
        requires
            w == p * c,
    ;
    lemma_near_scaled((k * t) * t, ((s * s) * w) * c, p, 0x1_0000);
    lemma_near_scaled((k * t) * t, ((s * s) * w) * c, c, 0x1_0000);
    assert((kd * t) * t == ((k * t) * t) * c && (sd * sd) * w == (((s * s) * w) * c) * c)
        by (nonlinear_arith)
        requires
            kd == k * c,
            sd == s * c,
    ;
}

/// A product of a number and a weight of at most one.
proof fn lemma_weighed(a: Single, weight: Single)
    requires
        a.bits < 0x7f80_0000,
        weight.bits <= of_int(1).bits,
        amount(a) * amount(weight) >= pow2(23) * pow2(149),
    ensures
        times(a, weight).bits <= a.bits,
        near(
            amount(times(a, weight)) * pow2(149),
            amount(a) * amount(weight),
            0x100_0000,
        ),
{
    let half = SINGLE as nat;
    let p = pow2(149);
    lemma_powers();
    lemma_format(half);
    lemma_one();
    reveal(times);
    let (u, v) = (amount(a), amount(weight));
    lemma_units_order(half, weight.bits as nat, of_int(1).bits as nat);
    let n = (u * v) as nat;
    assert(n * 1 <= u * p) by (nonlinear_arith)
        requires
            n == u * v,
            v <= p,
            u >= 0,
    ;
    law_nearest_keeps_order(half, n, p, u as nat, 1);
    law_nearest_to_itself(half, a.bits as nat);
    law_product_error(half, a.bits as nat, weight.bits as nat);
}

/// The mean of two periods is the sum of the periods, each times its weight, up to what
/// rounding changes; for weights of at most one, and products that are not too small for a
/// full mantissa.
pub proof fn law_mean_of_periods_is_weighted(a: Period, b: Period)
    requires
        a.period_ms.bits < 0x7f00_0000,
        b.period_ms.bits < 0x7f00_0000,
        a.weight.bits <= of_int(1).bits,
        b.weight.bits <= of_int(1).bits,
        amount(a.period_ms) * amount(a.weight) >= pow2(23) * pow2(149),
        amount(b.period_ms) * amount(b.weight) >= pow2(23) * pow2(149),
    ensures
        weighted_mean(a, b).bits < 0x7f80_0000,
        near(
            amount(weighted_mean(a, b)) * pow2(149),
            amount(a.period_ms) * amount(a.weight) + amount(b.period_ms) * amount(b.weight),
            0x40_0000,
        ),
{
    let half = SINGLE as nat;
    let p = pow2(149) as int;
    let (x, y) = (times(a.period_ms, a.weight), times(b.period_ms, b.weight));
    lemma_powers();
    lemma_format(half);
    lemma_weighed(a.period_ms, a.weight);
    lemma_weighed(b.period_ms, b.weight);
    reveal(plus);
    let (u, v) = (amount(x), amount(y));
    lemma_sum_finite(x, y);
    law_sum_error(half, x.bits as nat, y.bits as nat);
    let r = amount(weighted_mean(a, b));
    let (e, f) = (
        amount(a.period_ms) * amount(a.weight),
        amount(b.period_ms) * amount(b.weight),
    );
    assert(e >= 0 && f >= 0);
    lemma_near_scaled(r, u + v, p, 0x100_0000);
    assert((u + v) * p == u * p + v * p) by (nonlinear_arith);
    assert(near(u * p + v * p, e + f, 0x100_0000)) by (nonlinear_arith)
        requires
            near(u * p, e, 0x100_0000),
            near(v * p, f, 0x100_0000),
    ;
    lemma_near_chain(r * p, u * p + v * p, e + f, 0x100_0000, 0x40_0000);
}

/// The sum of two numbers below half of the largest is finite.
proof fn lemma_sum_finite(a: Single, b: Single)
    requires
        a.bits < 0x7f00_0000,
        b.bits < 0x7f00_0000,
    ensures
        plus(a, b).bits < 0x7f80_0000,
{
    let half = SINGLE as nat;
    lemma_format(half);
    reveal(plus);
    lemma_nearest_sum(half, a.bits as nat, b.bits as nat);
}

/// The nearest pattern to a sum of two numbers with the largest exponent but one.
proof fn lemma_nearest_sum(half: nat, a: nat, b: nat)
    requires
        half == SINGLE,
        a < 254 * half,
        b < 254 * half,
    ensures
        nearest(half, units(half, a) + units(half, b), 1) < infinity(half),
{
    // Twice the largest of these numbers is the largest number with the next exponent.
    let top = (254 * half - 1) as nat;
    let next = (255 * half - 1) as nat;
    lemma_format(half);
    lemma_units_order(half, a, top);
    lemma_units_order(half, b, top);
    lemma_units_doubled(half, top);
    law_nearest_to_itself(half, next);
    law_nearest_keeps_order(half, units(half, a) + units(half, b), 1, units(half, next), 1);
}

/// The larger of a number that is not negative and one.
proof fn lemma_at_least_one(a: Single)
    requires
        a.bits < 0x7f80_0000,
    ensures
        larger(a, of_int(1)).bits < 0x7f80_0000,
        amount(larger(a, of_int(1))) == if amount(a) >= pow2(149) {
            amount(a)
        } else {
            pow2(149) as int
        },
{
    lemma_one();
    reveal(less);
    lemma_format(SINGLE as nat);
    law_values_agree(0, a.bits);
    law_values_agree(0, of_int(1).bits);
}

/// A tenth and ten in double precision.
proof fn lemma_tenth_and_ten()
    ensures
        near(
            10 * units(DOUBLE as nat, DOUBLE_TENTH as nat) as int,
            pow2(1074) as int,
            0x20_0000_0000_0000,
        ),
        0 < units(DOUBLE as nat, DOUBLE_TENTH as nat) <= pow2(1074),
        units(DOUBLE as nat, DOUBLE_TEN as nat) == 10 * pow2(1074),
        units(DOUBLE as nat, DOUBLE_TENTH as nat) == 7205759403792794 * pow2(1018),
        pow2(1074) == 0x100_0000_0000_0000 * pow2(1018),
        pow2(1018) > 0,
{
    let wide = DOUBLE as nat;
    lemma_format(wide);
    lemma2_to64_rest();
    lemma_pow2_pos(1018);
    lemma_pow2_adds(56, 1018);
    lemma_pow2_adds(49, 1025);
    lemma_pattern_units(wide, 1018, 7205759403792794);
    lemma_pattern_units(wide, 1025, 0x14_0000_0000_0000);
}

/// The jitter of a generated mask reaches from zero to a tenth of the deviation of the
/// recorded times, which counts as one millisecond at least; without any period it reaches to
/// ten milliseconds. All numbers are in units of `2^-1074`.
pub proof fn law_jitter_is_a_tenth(
    mean: Single,
    std_dev: Single,
    periods: Seq<Period>,
    log: Single,
)
    requires
        std_dev.bits < 0x7f80_0000,
    ensures
        ({
            let (low, high) = profile_arrivals(mean, std_dev, periods, log).jitter_range_ms;
            let s = if amount(std_dev) >= pow2(149) {
                amount(std_dev)
            } else {
                pow2(149) as int
            };
            &&& low == 0
            &&& high < 0x7ff0_0000_0000_0000
            &&& periods.len() == 0 ==> double_value(high) == 10 * pow2(1074)
            &&& periods.len() > 0 ==> near(
                10 * double_value(high),
                s * pow2(925),
                0x4_0000_0000_0000,
            )
        }),
{
    let wide = DOUBLE as nat;
    let (p, c, w) = (pow2(149) as int, pow2(925) as int, pow2(1074) as int);
    lemma_powers();
    lemma_format(wide);
    lemma_format(SINGLE as nat);
    lemma_tenth_and_ten();
    lemma_pow2_pos(925);
    lemma_pow2_pos(1074);
    lemma_pow2_adds(149, 925);
    law_values_agree(DOUBLE_TEN, 0);
    let bound = larger(std_dev, of_int(1));
    lemma_at_least_one(std_dev);
    lemma_wide_value(bound.bits as nat);
    let b = widened(bound.bits as nat);
    let ten = DOUBLE_TENTH as nat;
    let (u, t) = (units(wide, b) as int, units(wide, ten) as int);
    let high = product(wide, b, ten);
    let n = (u * t) as nat;
    assert(n * 1 <= u * w) by (nonlinear_arith)
        requires
            n == u * t,
            t <= w,
            u >= 0,
    ;
    law_nearest_to_itself(wide, b);
    law_nearest_keeps_order(wide, n, w as nat, u as nat, 1);
    assert(high <= b);
    let g = pow2(1018) as int;
    assert(u >= w) by (nonlinear_arith)
        requires
            u == amount(bound) * c,
            amount(bound) >= p,
            w == p * c,
            c > 0,
    ;
    lemma_pow2_strictly_increases(52, 1018);
    assert(n >= wide * w) by (nonlinear_arith)
        requires
            n == u * t,
            u >= w,
            t >= g,
            g >= wide,
            w > 0,
    ;
    law_product_error(wide, b, ten);
    let j = units(wide, high) as int;
    let e = 0x20_0000_0000_0000;
    // Ten times the jitter is the deviation.
    lemma_near_scaled(j * w, u * t, 10, e);
    assert((j * w) * 10 == (10 * j) * w && (u * t) * 10 == (10 * t) * u) by (nonlinear_arith);
    lemma_near_scaled(10 * t, w, u, e);
    assert(w * u == u * w) by (nonlinear_arith);
    assert(u * w >= 0) by (nonlinear_arith)
        requires
            u >= w,
            w > 0,
    ;
    lemma_near_chain((10 * j) * w, (10 * t) * u, u * w, e, 0x8_0000_0000_0000);
    lemma_near_scaled(10 * j, u, w, 0x8_0000_0000_0000);
    lemma_near_weaker(10 * j, u, 0x8_0000_0000_0000, 0x4_0000_0000_0000);
    law_values_agree(high as u64, 0);
}

/// A deviation in relation to a mean is their quotient where that is above a tenth, and a
/// tenth where it is below; up to what rounding changes. A mean below one counts as one.
pub proof fn law_ratio_is_at_least_a_tenth(std_dev: Single, mean: Single)
    requires
        std_dev.bits < 0x7f80_0000,
        mean.bits < 0x7f80_0000,
    ensures
        ({
            let one = pow2(1074) as int;
            let s = amount(std_dev);
            let m = if amount(mean) >= pow2(149) {
                amount(mean)
            } else {
                pow2(149) as int
            };
            let r = double_value(wide_ratio(std_dev, mean));
            &&& 10 * s * 0x10_0000 >= m * 0x10_0001 ==> near(r * m, s * one, 0x10_0000)
            &&& 10 * s * 0x10_0000 <= m * 0xf_ffff ==> near(10 * r, one, 0x10_0000)
        }),
{
    let half = SINGLE as nat;
    let wide = DOUBLE as nat;
    let (p, c, w) = (pow2(149) as int, pow2(925) as int, pow2(1074) as int);
    lemma_powers();
    lemma_format(half);
    lemma_format(wide);
    lemma_pow2_pos(925);
    lemma_pow2_adds(149, 925);
    lemma_pow2_strictly_increases(64, 149);
    lemma2_to64();
    lemma_at_least_one(mean);
    let divisor = larger(mean, of_int(1));
    let (s, m) = (amount(std_dev), amount(divisor));
    let q = over(std_dev, divisor);
    reveal(over);
    let n = (s * p) as nat;
    assert(n * 1 <= s * m) by (nonlinear_arith)
        requires
            n == s * p,
            p <= m,
            s >= 0,
    ;
    law_nearest_to_itself(half, std_dev.bits as nat);
    law_nearest_keeps_order(half, n, m as nat, s as nat, 1);
    assert(q.bits <= std_dev.bits);
    assert(q.bits == nearest(half, n, m as nat));
    lemma_rounding_bound(half, n, m as nat);
    let least = fraction(1, 10);
    lemma_fraction_near(1, 10);
    let (u, f) = (amount(q), amount(least));
    reveal(less);
    law_values_agree(0, q.bits);
    law_values_agree(0, least.bits);
    let top = larger(q, least);
    lemma_wide_value(top.bits as nat);
    law_values_agree(wide_ratio(std_dev, mean), 0);
    let r = double_value(wide_ratio(std_dev, mean));
    assert(r == amount(top) * c);
    assert(near(10 * f, p, 0x100_0000)) by {
        assert(1 * p == p);
    }
    if 10 * s * 0x10_0000 >= m * 0x10_0001 {
        assert(n >= half * m) by (nonlinear_arith)
            requires
                n == s * p,
                10 * s >= m,
                p >= 10 * half,
                m >= 0,
                s >= 0,
        ;
        law_quotient_error(half, std_dev.bits as nat, divisor.bits as nat);
        // The quotient is not below a tenth.
        assert(u >= f) by (nonlinear_arith)
            requires
                -(s * p) <= (u * m - s * p) * 0x100_0000,
                10 * s * 0x10_0000 >= m * 0x10_0001,
                (10 * f - p) * 0x100_0000 <= p,
                m >= p,
                p > 0,
        {
            assert(10 * (s * p) * 0x10_0000 >= (m * p) * 0x10_0001) by (nonlinear_arith)
                requires
                    10 * s * 0x10_0000 >= m * 0x10_0001,
                    p > 0,
            ;
            assert(10 * (f * m) * 0x100_0000 <= (m * p) * 0x100_0001) by (nonlinear_arith)
                requires
                    (10 * f - p) * 0x100_0000 <= p,
                    m >= 0,
            ;
            assert(m * p > 0) by (nonlinear_arith)
                requires
                    m >= p,
                    p > 0,
            ;
            assert(u * m >= f * m);
            assert(u >= f) by (nonlinear_arith)
                requires
                    u * m >= f * m,
                    m > 0,
            ;
        }
        assert(top == q);
        assert(s * p >= 0) by (nonlinear_arith)
            requires
                s >= 0,
                p > 0,
        ;
        lemma_near_scaled(u * m, s * p, c, 0x100_0000);
        assert((u * m) * c == r * m && (s * p) * c == s * w) by (nonlinear_arith)
            requires
                r == u * c,
                w == p * c,
        ;
        assert(s * w >= 0) by (nonlinear_arith)
            requires
                s >= 0,
                w == p * c,
                p > 0,
                c > 0,
        ;
        lemma_near_weaker(r * m, s * w, 0x100_0000, 0x10_0000);
    }
    if 10 * s * 0x10_0000 <= m * 0xf_ffff {
        assert(u < f) by (nonlinear_arith)
            requires
                (u * m - s * p) * 0x100_0000 <= s * p + 0x80_0000 * m,
                10 * s * 0x10_0000 <= m * 0xf_ffff,
                -p <= (10 * f - p) * 0x100_0000,
                m >= p,
                p >= 0x1_0000_0000_0000_0000,
        {
            assert(10 * (s * p) * 0x10_0000 <= (m * p) * 0xf_ffff) by (nonlinear_arith)
                requires
                    10 * s * 0x10_0000 <= m * 0xf_ffff,
                    p > 0,
            ;
            assert(10 * (f * m) * 0x100_0000 >= (m * p) * 0xff_ffff) by (nonlinear_arith)
                requires
                    -p <= (10 * f - p) * 0x100_0000,
                    m >= 0,
            ;
            assert(m * p >= m * 0x1_0000_0000_0000_0000 && m > 0) by (nonlinear_arith)
                requires
                    m >= p,
                    p >= 0x1_0000_0000_0000_0000,
            ;
            assert(u * m < f * m);
            assert(u < f) by (nonlinear_arith)
                requires
                    u * m < f * m,
                    m > 0,
            ;
        }
        assert(top == least);
        lemma_near_scaled(10 * f, p, c, 0x100_0000);
        assert((10 * f) * c == 10 * r && p * c == w) by (nonlinear_arith)
            requires
                r == f * c,
                w == p * c,
        ;
        lemma_near_weaker(10 * r, w, 0x100_0000, 0x10_0000);
    }
}

/// Without two periods the times of a generated mask follow a log-normal curve: around the
/// logarithm that it was given, as wide as the relation of the jitter of the one period to its
/// length, or, without a period, of the deviation of all times to their mean. Sizes without a
/// mode follow one in the same way.
pub proof fn law_other_curves_are_log_normal(
    mean: Single,
    std_dev: Single,
    periods: Seq<Period>,
    log: Single,
)
    requires
        log.bits < 0x7f80_0000,
    ensures
        ({
            let arrivals = profile_arrivals(mean, std_dev, periods, log);
            let sizes = profile_sizes(Seq::empty(), mean, std_dev, log);
            &&& periods.len() <= 1 ==> arrivals.dist_type == IATDistType::LogNormal
                && arrivals.params.len() == 2 && double_value(arrivals.params[0])
                == single_value(log.bits) * pow2(925)
            &&& periods.len() == 1 ==> arrivals.params[1] == wide_ratio(
                periods[0].jitter_ms,
                periods[0].period_ms,
            )
            &&& periods.len() == 0 ==> arrivals.params[1] == wide_ratio(std_dev, mean)
            &&& sizes.dist_type == SizeDistType::Parametric
            &&& sizes.parametric_type == Some(ParametricType::LogNormal)
            &&& sizes.bins.len() == 0
            &&& sizes.parametric_params matches Some(params) && params.len() == 2 && double_value(
                params[0],
            ) == single_value(log.bits) * pow2(925) && params[1] == wide_ratio(std_dev, mean)
        }),
{
    lemma_format(SINGLE as nat);
    lemma_format(DOUBLE as nat);
    lemma_wide_value(log.bits as nat);
    law_values_agree(widened(log.bits as nat) as u64, log.bits);
}

/// The logarithms are taken of the mean size, and of the length of the one period or, without
/// a period, of the mean time; a number below one counts as one.
pub proof fn law_logarithms_are_taken_from_one_on(mean: Single, periods: Seq<Period>)
    requires
        mean.bits < 0x7f80_0000,
        periods.len() > 0 ==> periods[0].period_ms.bits < 0x7f80_0000,
    ensures
        ({
            let one = pow2(149) as int;
            let time = if periods.len() == 0 {
                amount(mean)
            } else {
                amount(periods[0].period_ms)
            };
            &&& amount(size_log_argument(mean)) == if amount(mean) >= one {
                amount(mean)
            } else {
                one
            }
            &&& amount(iat_log_argument(mean, periods)) == if time >= one {
                time
            } else {
                one
            }
        }),
{
    lemma_at_least_one(mean);
    if periods.len() > 0 {
        lemma_at_least_one(periods[0].period_ms);
    }
}

/// The integer part of a number from one on, up to a cap.
proof fn lemma_whole(a: Single, cap: nat)
    requires
        a.bits < 0x7f80_0000,
    ensures
        whole(a, cap) <= cap,
        whole(a, cap) * pow2(149) <= amount(a),
        whole(a, cap) < cap ==> amount(a) < (whole(a, cap) + 1) * pow2(149),
{
    let p = pow2(149) as int;
    let u = amount(a);
    reveal(whole);
    lemma_format(SINGLE as nat);
    lemma_pow2_pos(149);
    lemma_fundamental_div_mod(u, p);
    let n = u / p;
    assert(n * p <= u < (n + 1) * p) by (nonlinear_arith)
        requires
            u == p * n + u % p,
            0 <= u % p < p,
    ;
    if n > cap {
        assert(cap * p <= u) by (nonlinear_arith)
            requires
                n * p <= u,
                cap < n,
                p > 0,
        ;
    }
}

/// The bin of a mode reaches from one deviation below its centre to one deviation above, in
/// whole bytes and to within one part in `2^20`: it starts at one where that would be less, and
/// at 65535 it ends. Centre and deviation are in units of `2^-149`.
pub proof fn law_bins_reach_one_deviation(mode: Mode)
    requires
        mode.center.bits < 0x7f00_0000,
        mode.std_dev.bits < 0x7f00_0000,
    ensures
        ({
            let one = pow2(149) as int;
            let (c, d) = (amount(mode.center), amount(mode.std_dev));
            let (low, high) = (bin_low(mode) as int, bin_high(mode) as int);
            &&& c - d <= one ==> low == 1
            &&& c - d > one ==> (low * one) * 0x10_0000 <= (c - d) * 0x10_0001
            &&& c - d > one && low < 65535 ==> (c - d) * 0x10_0000 <= ((low + 1) * one) * 0x10_0001
            &&& (high * one) * 0x10_0000 <= (c + d) * 0x10_0001 || high == low + 1 || high == 65535
            &&& high < 65535 ==> (c + d) * 0x10_0000 <= ((high + 1) * one) * 0x10_0001
        }),
{
    let half = SINGLE as nat;
    let p = pow2(149) as int;
    let (center, dev) = (mode.center, mode.std_dev);
    let (c, d) = (amount(center), amount(dev));
    lemma_powers();
    lemma_format(half);
    lemma_one();
    lemma_pow2_strictly_increases(64, 149);
    lemma2_to64();
    reveal(less);
    law_whole_of_int(1, 65535);
    // The lower end.
    let z = minus(center, dev);
    reveal(minus);
    assert(body(half, negated(half, dev.bits as nat)) == dev.bits);
    lemma_units_zero(half, 0);
    law_values_agree(0, z.bits);
    law_values_agree(0, of_int(1).bits);
    law_nearest_to_itself(half, of_int(1).bits as nat);
    law_nearest_to_itself(half, center.bits as nat);
    let low_number = larger(z, of_int(1));
    if c > d {
        let x = (c - d) as nat;
        law_nearest_keeps_order(half, x, 1, c as nat, 1);
        assert(z.bits == nearest(half, x, 1));
        lemma_rounding_bound(half, x, 1);
        if x <= p {
            law_nearest_keeps_order(half, x, 1, p as nat, 1);
            lemma_units_order(half, z.bits as nat, of_int(1).bits as nat);
            lemma_units_order(half, of_int(1).bits as nat, z.bits as nat);
            assert(low_number == of_int(1));
        } else {
            law_nearest_keeps_order(half, p as nat, 1, x, 1);
            lemma_units_order(half, of_int(1).bits as nat, z.bits as nat);
            lemma_larger(z);
            lemma_whole(z, 65535);
            assert(half * 1 == half);
            assert(-x <= (amount(z) - x) * 0x80_0000 <= x);
        }
    } else {
        assert(low_number == of_int(1)) by {
            if c < d {
                assert(negative(half, z.bits as nat));
            }
        }
    }
    // The upper end.
    let low = bin_low(mode) as nat;
    law_bins_hold_sizes(mode);
    let s = plus(center, dev);
    lemma_sum_finite(center, dev);
    reveal(plus);
    let y = (c + d) as nat;
    assert(s.bits == nearest(half, y, 1));
    lemma_rounding_bound(half, y, 1);
    law_small_sum(low, 1);
    let least = of_int(low + 1);
    assert(least.bits < 0x7f80_0000 && amount(least) == (low + 1) * p) by {
        reveal(of_int);
        law_integer_is_exact(half, low + 1);
    }
    law_values_agree(0, s.bits);
    law_values_agree(0, least.bits);
    let high_number = larger(s, least);
    lemma_whole(high_number, 65535);
    let high = bin_high(mode) as int;
    assert(half * 1 == half);
    let us = amount(s);
    assert(-(y + half) <= (us - y) * 0x100_0000 <= y + half);
    assert((high + 1) * p == high * p + p && (low + 1) * p == low * p + p) by (nonlinear_arith);
    assert(high * p >= p) by (nonlinear_arith)
        requires
            high >= 1,
            p > 0,
    ;
    if high_number == least && high < 65535 {
        assert(high == low + 1) by {
            law_whole_of_int(low + 1, 65535);
        }
    }
    if high < 65535 {
        assert(us <= amount(high_number));
        assert(us < (high + 1) * p);
    }
}

/// Times whose deviation is no smaller than their weighted mean have the shape one: their curve
/// is a single exponential.
pub proof fn law_scattered_times_are_exponential(
    mean: Single,
    std_dev: Single,
    periods: Seq<Period>,
    log: Single,
)
    requires
        periods.len() >= 2,
        from_one(std_dev),
        weighted_mean(periods[0], periods[1]).bits <= std_dev.bits,
    ensures
        ({
            let arrivals = profile_arrivals(mean, std_dev, periods, log);
            &&& arrivals.dist_type == IATDistType::Gamma
            &&& arrivals.params.len() == 2
            &&& double_value(arrivals.params[0]) == pow2(1074)
        }),
{
    let half = SINGLE as nat;
    let centre = weighted_mean(periods[0], periods[1]);
    let one = of_int(1);
    lemma_format(half);
    lemma_format(DOUBLE as nat);
    lemma_one();
    lemma_larger(std_dev);
    lemma_pow2_pos(149);
    lemma_pow2_adds(149, 925);
    lemma_units_zero(half, std_dev.bits as nat);
    let ratio = over(centre, std_dev);
    lemma_over(centre, std_dev, std_dev, std_dev);
    assert(over(std_dev, std_dev) == one) by {
        reveal(over);
        reveal(of_int);
        law_quotient_of_equals(half, std_dev.bits as nat);
    }
    lemma_times(ratio, ratio, one, one);
    assert(times(one, one) == one) by {
        reveal(times);
        lemma_nearest_common_factor(half, pow2(149), 1, pow2(149));
        assert(pow2(149) * 1 == pow2(149));
    }
    let shape = square(ratio);
    lemma_less_by_bits(shape, one);
    assert(larger(shape, one) == one) by {
        if shape.bits == one.bits {
            assert(shape == one);
        }
    }
    lemma_wide_value(one.bits as nat);
    law_values_agree(widened(one.bits as nat) as u64, 0);
}

/// The scale of the gamma curve is the variance of the recorded times divided by their weighted
/// mean, whichever of the two is larger: scale times mean is the square of the deviation, up to
/// what rounding changes. All numbers are in units of `2^-1074`.
pub proof fn law_scale_is_variance_over_mean(
    mean: Single,
    std_dev: Single,
    periods: Seq<Period>,
    log: Single,
)
    requires
        periods.len() >= 2,
        from_one(std_dev),
        from_one(weighted_mean(periods[0], periods[1])),
        amount(std_dev) < pow2(62) * pow2(149),
        amount(weighted_mean(periods[0], periods[1])) < pow2(62) * pow2(149),
    ensures
        ({
            let m = amount(weighted_mean(periods[0], periods[1])) * pow2(925);
            let s = amount(std_dev) * pow2(925);
            let theta = double_value(profile_arrivals(mean, std_dev, periods, log).params[1]);
            near(theta * m, s * s, 0x40_0000)
        }),
{
    let wide = DOUBLE as nat;
    let centre = weighted_mean(periods[0], periods[1]);
    let (p, c, w) = (pow2(149) as int, pow2(925) as int, pow2(1074) as int);
    lemma_powers();
    lemma_format(wide);
    lemma_pow2_pos(925);
    lemma_pow2_adds(149, 925);
    lemma_larger(std_dev);
    lemma_larger(centre);
    lemma_scale(std_dev, centre);
    let (s, m) = (amount(std_dev), amount(centre));
    let theta = quotient(wide, widened(square(std_dev).bits as nat), widened(centre.bits as nat));
    law_values_agree(theta as u64, 0);
    let t = units(wide, theta) as int;
    assert((s * s) * w == ((s * s) * c) * p) by (nonlinear_arith)
        requires
            w == p * c,
    ;
    lemma_near_scaled(t * m, (s * s) * c, p, 0x40_0000);
    lemma_near_scaled(t * m, (s * s) * c, c, 0x40_0000);
    assert((t * m) * c == t * (m * c) && ((s * s) * c) * c == (s * c) * (s * c))
        by (nonlinear_arith);
}

} // verus!
