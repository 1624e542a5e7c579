//! How far computed numbers are from the exact ones: every operation rounds once, by less
//! than one part in `2 * half`.
use crate::ieee::{
    exp_limit, infinity, law_integer_is_exact, lemma_decoded_exp, lemma_format, lemma_nearest_bound,
    lemma_pattern_units, lemma_units_exact, lemma_units_zero, nearest, places, product, quotient,
    sign_bit, square_root, sum, units,
};
use crate::single::{fraction, of_int, over};
use crate::soft_float::{
    half_even, is_format, lemma_nearest_root_close, lemma_root_normal, log_half, nearest_root, root,
    Flt, SINGLE,
};
use vstd::arithmetic::div_mod::{
    lemma_div_denominator, lemma_div_is_ordered, lemma_div_multiples_vanish,
    lemma_fundamental_div_mod, lemma_fundamental_div_mod_converse,
};
use vstd::arithmetic::power2::{
    lemma2_to64, lemma_pow2_adds, lemma_pow2_pos, lemma_pow2_strictly_increases, lemma_pow2_unfold,
    pow2,
};
use vstd::prelude::*;

verus! {

/// `x` differs from `y` by at most one part in `parts` of `y`.
pub open spec fn near(x: int, y: int, parts: int) -> bool {
    -y <= (x - y) * parts <= y
}

/// The units of a number of the next higher exponent are twice as many.
pub proof fn lemma_units_doubled(half: nat, a: nat)
    requires
        is_format(half),
        half <= a,
        half + a < sign_bit(half),
    ensures
        units(half, half + a) == 2 * units(half, a),
{
    lemma_format(half);
    let e = a as int / half as int;
    let f = a as int % half as int;
    lemma_fundamental_div_mod(a as int, half as int);
    assert(e >= 1) by (nonlinear_arith)
        requires
            a == half * e + f,
            f < half,
            half <= a,
    ;
    assert(half + a == (e + 1) * half + f) by (nonlinear_arith)
        requires
            a == half * e + f,
    ;
    lemma_fundamental_div_mod_converse((half + a) as int, half as int, e + 1, f);
    lemma_pow2_unfold(e as nat);
    let p = pow2((e - 1) as nat);
    assert((half + f) * (2 * p) == 2 * ((half + f) * p)) by (nonlinear_arith);
}

/// A small pattern counts its units.
proof fn lemma_small_units(half: nat, a: nat)
    requires
        is_format(half),
        a <= 2 * half,
    ensures
        units(half, a) == a,
{
    lemma_format(half);
    lemma2_to64();
    if a < half {
        lemma_fundamental_div_mod_converse(a as int, half as int, 0, a as int);
    } else if a < 2 * half {
        lemma_fundamental_div_mod_converse(a as int, half as int, 1, a - half);
        assert((half + (a - half)) * pow2(0) == a) by (nonlinear_arith)
            requires
                pow2(0) == 1,
        ;
    } else {
        lemma_fundamental_div_mod_converse(a as int, half as int, 2, 0);
        assert((half + 0) * pow2(1) == 2 * half) by (nonlinear_arith)
            requires
                pow2(1) == 2,
        ;
    }
}

/// Rounding to an integer moves by at most half.
proof fn lemma_half_even_close(n: nat, d: nat)
    requires
        d > 0,
    ensures
        -d <= 2 * (half_even(n, d) * d - n) <= d,
        n / d <= half_even(n, d) <= n / d + 1,
{
    let (q, r) = (n / d, n % d);
    lemma_fundamental_div_mod(n as int, d as int);
    assert(q * d == d * q && (q + 1) * d == d * q + d) by (nonlinear_arith);
}

/// A quotient of two or more shrinks with its denominator doubled.
proof fn lemma_quotient_shrinks(half: nat, n: nat, d: nat)
    requires
        half >= 1,
        d > 0,
        n >= 2 * half * d,
    ensures
        n / (2 * d) < n / d,
{
    assert(n >= 2 * d) by (nonlinear_arith)
        requires
            n >= 2 * half * d,
            half >= 1,
    ;
    lemma_div_denominator(n as int, d as int, 2);
    assert(d * 2 == 2 * d);
    lemma_div_is_ordered(2 * d as int, n as int, d as int);
    lemma_div_multiples_vanish(2, d as int);
}

/// What is nearest to `n / d` units differs from it by at most half a unit, and from half the
/// width of the mantissa on by at most one part in twice that width.
pub proof fn law_rounding_error(half: nat, n: nat, d: nat)
    requires
        is_format(half),
        d > 0,
        nearest(half, n, d) < infinity(half),
    ensures
        n < half * d ==> -d <= 2 * (units(half, nearest(half, n, d)) * d - n) <= d,
        n >= half * d ==> near(
            (units(half, nearest(half, n, d)) * d) as int,
            n as int,
            (2 * half) as int,
        ),
        n >= half * d ==> nearest(half, n, d) >= half,
    decreases n / d,
{
    lemma_format(half);
    if n < 2 * half * d {
        let h = half_even(n, d);
        lemma_half_even_close(n, d);
        lemma_fundamental_div_mod(n as int, d as int);
        let q = n / d;
        assert(q < 2 * half) by (nonlinear_arith)
            requires
                n < 2 * half * d,
                n == d * q + n % d,
                0 <= n % d,
                d > 0,
        ;
        lemma_small_units(half, h);
        if n >= half * d {
            assert(q >= half) by (nonlinear_arith)
                requires
                    n >= half * d,
                    n == d * q + n % d,
                    n % d < d,
                    d > 0,
            ;
            let e = h * d - n;
            assert(-n <= e * (2 * half) <= n) by (nonlinear_arith)
                requires
                    -d <= 2 * e <= d,
                    n >= half * d,
                    half > 0,
            ;
        }
    } else {
        let m = nearest(half, n, 2 * d);
        assert(half * (2 * d) == 2 * half * d) by (nonlinear_arith);
        assert(half * d <= 2 * half * d) by (nonlinear_arith);
        lemma_quotient_shrinks(half, n, d);
        law_rounding_error(half, n, 2 * d);
        lemma_units_doubled(half, m);
        assert(units(half, half + m) * d == units(half, m) * (2 * d)) by (nonlinear_arith)
            requires
                units(half, half + m) == 2 * units(half, m),
        ;
    }
}

/// Two factors that are nearly right give a product that is nearly right.
pub proof fn lemma_near_product(a: int, b: int, c: int, d: int, parts: int, fewer: int)
    requires
        near(a, b, parts),
        near(c, d, parts),
        0 <= b,
        0 <= d,
        0 < fewer,
        3 * fewer <= parts,
    ensures
        near(a * c, b * d, fewer),
{
    let (e, f) = (a - b, c - d);
    assert(-2 * (b * d) <= (e * c) * parts <= 2 * (b * d)) by (nonlinear_arith)
        requires
            -b <= e * parts <= b,
            -d <= f * parts <= d,
            parts >= 1,
            f == c - d,
            0 <= b,
            0 <= d,
    {
        assert(0 <= c <= 2 * d) by (nonlinear_arith)
            requires
                -d <= f * parts <= d,
                parts >= 1,
                f == c - d,
                0 <= d,
        ;
        assert((e * c) * parts == (e * parts) * c) by (nonlinear_arith);
        assert(-b * c <= (e * parts) * c <= b * c) by (nonlinear_arith)
            requires
                -b <= e * parts <= b,
                0 <= c,
        ;
        assert(b * c <= 2 * (b * d)) by (nonlinear_arith)
            requires
                0 <= c <= 2 * d,
                0 <= b,
        ;
    }
    assert(-(b * d) <= (b * f) * parts <= b * d) by (nonlinear_arith)
        requires
            -d <= f * parts <= d,
            0 <= b,
    {
        assert((b * f) * parts == b * (f * parts)) by (nonlinear_arith);
        assert(b * (-d) <= b * (f * parts) <= b * d) by (nonlinear_arith)
            requires
                -d <= f * parts <= d,
                0 <= b,
        ;
    }
    let t = a * c - b * d;
    assert(t == e * c + b * f) by (nonlinear_arith)
        requires
            t == a * c - b * d,
            e == a - b,
            f == c - d,
    ;
    assert(b * d >= 0) by (nonlinear_arith)
        requires
            0 <= b,
            0 <= d,
    ;
    lemma_fewer(t, b * d, e * c, b * f, parts, fewer);
}

/// Three parts in many are one part in a third as many.
proof fn lemma_fewer(t: int, y: int, u: int, v: int, parts: int, fewer: int)
    requires
        t == u + v,
        y >= 0,
        -2 * y <= u * parts <= 2 * y,
        -y <= v * parts <= y,
        0 < fewer,
        3 * fewer <= parts,
    ensures
        -y <= t * fewer <= y,
{
    assert(-3 * y <= t * parts <= 3 * y) by (nonlinear_arith)
        requires
            t == u + v,
            -2 * y <= u * parts <= 2 * y,
            -y <= v * parts <= y,
    ;
    assert(-y <= t * fewer <= y) by (nonlinear_arith)
        requires
            -3 * y <= t * parts <= 3 * y,
            0 < fewer,
            3 * fewer <= parts,
            y >= 0,
    ;
}

/// What is near to something near is near.
pub proof fn lemma_near_chain(a: int, b: int, c: int, parts: int, fewer: int)
    requires
        near(a, b, parts),
        near(b, c, parts),
        0 <= c,
        0 < fewer,
        3 * fewer <= parts,
    ensures
        near(a, c, fewer),
{
    assert(0 <= b <= 2 * c) by (nonlinear_arith)
        requires
            -c <= (b - c) * parts <= c,
            parts >= 1,
            0 <= c,
    ;
    lemma_fewer(a - c, c, a - b, b - c, parts, fewer);
}

/// A common factor does not matter.
pub proof fn lemma_near_scaled(a: int, b: int, k: int, parts: int)
    requires
        k > 0,
    ensures
        near(a * k, b * k, parts) <==> near(a, b, parts),
{
    let x = (a - b) * parts;
    assert((a * k - b * k) * parts == x * k) by (nonlinear_arith)
        requires
            x == (a - b) * parts,
    ;
    assert((-(b * k) <= x * k <= b * k) <==> (-b <= x <= b)) by (nonlinear_arith)
        requires
            k > 0,
    ;
}

/// Fewer parts allow more.
pub proof fn lemma_near_weaker(a: int, b: int, parts: int, fewer: int)
    requires
        near(a, b, parts),
        0 <= b,
        0 < fewer <= parts,
    ensures
        near(a, b, fewer),
{
    assert(-b <= (a - b) * fewer <= b) by (nonlinear_arith)
        requires
            -b <= (a - b) * parts <= b,
            0 < fewer <= parts,
            0 <= b,
    ;
}

/// The product of two numbers that are not negative, as long as it is neither too small for a
/// full mantissa nor infinite, is the exact product up to one part in twice the width.
pub proof fn law_product_error(half: nat, a: nat, b: nat)
    requires
        is_format(half),
        a < infinity(half),
        b < infinity(half),
        product(half, a, b) < infinity(half),
        units(half, a) * units(half, b) >= half * pow2(places(half)),
    ensures
        near(
            (units(half, product(half, a, b)) * pow2(places(half))) as int,
            (units(half, a) * units(half, b)) as int,
            (2 * half) as int,
        ),
{
    lemma_format(half);
    lemma_pow2_pos(places(half));
    law_rounding_error(half, units(half, a) * units(half, b), pow2(places(half)));
}

/// The quotient of two numbers that are not negative, as long as it is neither too small for
/// a full mantissa nor infinite, is the exact quotient up to one part in twice the width.
pub proof fn law_quotient_error(half: nat, a: nat, b: nat)
    requires
        is_format(half),
        a < infinity(half),
        b < infinity(half),
        units(half, b) > 0,
        quotient(half, a, b) < infinity(half),
        units(half, a) * pow2(places(half)) >= half * units(half, b),
    ensures
        near(
            (units(half, quotient(half, a, b)) * units(half, b)) as int,
            (units(half, a) * pow2(places(half))) as int,
            (2 * half) as int,
        ),
{
    lemma_format(half);
    law_rounding_error(half, units(half, a) * pow2(places(half)), units(half, b));
}

/// The sum of two numbers that are not negative, as long as it is not infinite, is the exact
/// sum up to one part in twice the width.
pub proof fn law_sum_error(half: nat, a: nat, b: nat)
    requires
        is_format(half),
        a < infinity(half),
        b < infinity(half),
        sum(half, a, b) < infinity(half),
    ensures
        near(
            units(half, sum(half, a, b)) as int,
            (units(half, a) + units(half, b)) as int,
            (2 * half) as int,
        ),
{
    lemma_format(half);
    let n = units(half, a) + units(half, b);
    law_rounding_error(half, n, 1);
    assert(half * 1 == half && 2 * half * 1 == 2 * half);
    if n < half {
        lemma_half_even_one(n);
        lemma_small_units(half, n);
        assert(nearest(half, n, 1) == n);
        assert((n - n) * (2 * half) == 0) by (nonlinear_arith);
    }
}

/// A whole number is its own rounding.
proof fn lemma_half_even_one(n: nat)
    ensures
        half_even(n, 1) == n,
{
    lemma_half_even_close(n, 1);
}

/// A quotient that is not too large is finite.
pub proof fn lemma_quotient_finite(half: nat, a: nat, b: nat, k: nat)
    requires
        is_format(half),
        a < infinity(half),
        b < infinity(half),
        units(half, b) > 0,
        units(half, a) * pow2(places(half)) < 2 * half * units(half, b) * pow2(k),
        k + 2 < exp_limit(half),
    ensures
        quotient(half, a, b) < infinity(half),
        quotient(half, a, b) == nearest(
            half,
            units(half, a) * pow2(places(half)),
            units(half, b),
        ),
{
    lemma_format(half);
    lemma_nearest_bound(half, units(half, a) * pow2(places(half)), units(half, b), k);
    assert((k + 2) * half < exp_limit(half) * half) by (nonlinear_arith)
        requires
            k + 2 < exp_limit(half),
            half > 0,
    ;
}

/// A product that is not too large is finite.
pub proof fn lemma_product_finite(half: nat, a: nat, b: nat, k: nat)
    requires
        is_format(half),
        a < infinity(half),
        b < infinity(half),
        units(half, a) * units(half, b) < 2 * half * pow2(places(half)) * pow2(k),
        k + 2 < exp_limit(half),
    ensures
        product(half, a, b) < infinity(half),
        product(half, a, b) == nearest(
            half,
            units(half, a) * units(half, b),
            pow2(places(half)),
        ),
{
    lemma_format(half);
    lemma_pow2_pos(places(half));
    lemma_nearest_bound(half, units(half, a) * units(half, b), pow2(places(half)), k);
    assert((k + 2) * half < exp_limit(half) * half) by (nonlinear_arith)
        requires
            k + 2 < exp_limit(half),
            half > 0,
    ;
}

/// A fraction of small integers has a full mantissa.
proof fn lemma_large_enough(n: nat, d: nat, p: nat, h: nat)
    requires
        n >= 1,
        d < h,
        p >= h * h,
        p > 0,
    ensures
        (n * p) * p >= h * (d * p),
{
    assert(h * (d * p) <= (h * h) * p) by (nonlinear_arith)
        requires
            d < h,
            p > 0,
    ;
    assert((h * h) * p <= p * p) by (nonlinear_arith)
        requires
            p >= h * h,
            p > 0,
    ;
    assert(p * p <= (n * p) * p) by (nonlinear_arith)
        requires
            n >= 1,
            p > 0,
    ;
}

/// A fraction of two small integers is exact up to rounding.
pub proof fn lemma_fraction_near(n: nat, d: nat)
    requires
        0 < n <= d < 0x80_0000,
    ensures
        0 < fraction(n, d).bits < 0x7f80_0000,
        near(
            (d * units(SINGLE as nat, fraction(n, d).bits as nat)) as int,
            (n * pow2(149)) as int,
            0x100_0000,
        ),
{
    let half = SINGLE as nat;
    let p = pow2(149);
    lemma_format(half);
    lemma_pow2_pos(149);
    lemma2_to64();
    lemma_pow2_strictly_increases(46, 149);
    lemma_pow2_adds(23, 23);
    lemma_pow2_adds(23, 126);
    lemma_pow2_pos(126);
    reveal(over);
    reveal(of_int);
    law_integer_is_exact(half, n);
    law_integer_is_exact(half, d);
    let (a, b) = (of_int(n).bits as nat, of_int(d).bits as nat);
    let (u, v) = (n * p, d * p);
    let g = pow2(126);
    assert(v > 0 && u <= v) by (nonlinear_arith)
        requires
            u == n * p,
            v == d * p,
            n <= d,
            d > 0,
            p > 0,
    ;
    assert(u * p <= v * p) by (nonlinear_arith)
        requires
            u <= v,
            p > 0,
    ;
    assert(v * (half * g) == (half * v) * g) by (nonlinear_arith);
    assert((half * v) * g < (2 * half * v) * g) by (nonlinear_arith)
        requires
            half > 0,
            v > 0,
            g > 0,
    ;
    lemma_quotient_finite(half, a, b, 126);
    lemma_large_enough(n, d, p, half);
    law_quotient_error(half, a, b);
    let q = units(half, fraction(n, d).bits as nat);
    assert(q * v == (d * q) * p && u * p == (n * p) * p) by (nonlinear_arith)
        requires
            u == n * p,
            v == d * p,
    ;
    lemma_near_scaled((d * q) as int, (n * p) as int, p as int, 0x100_0000);
    lemma_units_zero(half, fraction(n, d).bits as nat);
    assert(q > 0) by {
        if q == 0 {
            assert(d * q == 0) by (nonlinear_arith)
                requires
                    q == 0,
            ;
            assert(n * p > 0) by (nonlinear_arith)
                requires
                    n > 0,
                    p > 0,
            ;
        }
    }
}

/// Sums of what is near are near.
pub proof fn lemma_near_sum(a: int, b: int, c: int, d: int, parts: int)
    requires
        near(a, b, parts),
        near(c, d, parts),
    ensures
        near(a + c, b + d, parts),
{
    assert((a + c - (b + d)) * parts == (a - b) * parts + (c - d) * parts) by (nonlinear_arith);
}

/// What is nearest to `n / d` units differs from it by at most one part in twice the width
/// or half a unit.
pub proof fn lemma_rounding_bound(half: nat, n: nat, d: nat)
    requires
        is_format(half),
        d > 0,
        nearest(half, n, d) < infinity(half),
    ensures
        -(n + half * d) <= (units(half, nearest(half, n, d)) * d - n) * (2 * half) <= n + half * d,
{
    law_rounding_error(half, n, d);
    lemma_format(half);
    let e = units(half, nearest(half, n, d)) * d - n;
    if n < half * d {
        assert(-(half * d) <= e * (2 * half) <= half * d) by (nonlinear_arith)
            requires
                -d <= 2 * e <= d,
                half > 0,
        ;
    }
    assert(half * d >= 0) by (nonlinear_arith);
}

/// The square of a square root is the number that the root was taken of, up to two parts in
/// the width of the mantissa.
pub proof fn law_root_error(half: nat, a: nat)
    requires
        is_format(half),
        0 < a < infinity(half),
    ensures
        square_root(half, a) < infinity(half),
        ({
            let r = units(half, square_root(half, a));
            let n = units(half, a) * pow2(places(half));
            -(2 * n) <= (r * r - n) * half <= 2 * n
        }),
{
    lemma_format(half);
    lemma_units_zero(half, a);
    let u = units(half, a);
    let x = crate::soft_float::of_int(half, u);
    lemma_units_exact(half, a);
    lemma_decoded_exp(half, a, x);
    let y = Flt { mant: x.mant, exp: x.exp - places(half) };
    let r = root(half, y);
    lemma_root_normal(half, y);
    let e = (r.exp + places(half)) as nat;
    lemma_pattern_units(half, e, r.mant);
    let lh = log_half(half) as nat;
    let odd = (y.exp - lh) % 2 != 0;
    let t = if odd {
        2 * half * y.mant
    } else {
        half * y.mant
    };
    let f: int = if odd {
        y.exp - lh - 1
    } else {
        y.exp - lh
    };
    assert(f % 2 == 0);
    let m = nearest_root(t);
    lemma_nearest_root_close(t);
    let g = (f / 2 + places(half)) as nat;
    assert(2 * g == f + 2 * places(half));
    // The root in units, before and after the mantissa is brought to its width.
    let s = units(half, square_root(half, a));
    assert(s == m * pow2(g)) by {
        if m == 2 * half {
            lemma_pow2_unfold(g + 1);
            assert(half * (2 * pow2(g)) == (2 * half) * pow2(g)) by (nonlinear_arith);
        }
    }
    assert(m >= half);
    lemma_pow2_adds(g, g);
    let p = pow2(2 * g);
    lemma_pow2_pos(2 * g);
    assert(s * s == (m * m) * p) by (nonlinear_arith)
        requires
            s == m * pow2(g),
            p == pow2(g) * pow2(g),
    ;
    // The number in units.
    let n = u * pow2(places(half));
    assert(t * p == n) by {
        let k = (x.exp + places(half)) as nat;
        let l = if odd {
            lh + 1
        } else {
            lh
        };
        lemma_pow2_unfold(lh + 1);
        assert(2 * g == k - l);
        lemma_pow2_adds(l, 2 * g);
        assert(t == x.mant * pow2(l)) by (nonlinear_arith)
            requires
                t == 2 * half * x.mant && pow2(l) == 2 * half || t == half * x.mant && pow2(l)
                    == half,
        ;
        assert(t * p == x.mant * pow2(k)) by (nonlinear_arith)
            requires
                t == x.mant * pow2(l),
                pow2(k) == pow2(l) * p,
        ;
        if x.exp >= 0 {
            lemma_pow2_adds(x.exp as nat, places(half));
            assert(x.mant * pow2(k) == n) by (nonlinear_arith)
                requires
                    n == u * pow2(places(half)),
                    u == x.mant * pow2(x.exp as nat),
                    pow2(k) == pow2(x.exp as nat) * pow2(places(half)),
            ;
        } else {
            lemma_pow2_adds((-x.exp) as nat, k);
            assert(x.mant * pow2(k) == n) by (nonlinear_arith)
                requires
                    n == u * pow2(places(half)),
                    x.mant == u * pow2((-x.exp) as nat),
                    pow2(places(half)) == pow2((-x.exp) as nat) * pow2(k),
            ;
        }
    }
    let d = m * m - t;
    assert(-(2 * t) <= d * half <= 2 * t) by (nonlinear_arith)
        requires
            -m <= d <= m,
            d == m * m - t,
            half <= m,
            half >= 2,
    {
        assert(-(m * m) <= d * half <= m * m) by (nonlinear_arith)
            requires
                -m <= d <= m,
                half <= m,
                half >= 2,
        ;
        assert(m * m <= 2 * t) by (nonlinear_arith)
            requires
                d <= m,
                d == m * m - t,
                m >= 2,
        ;
    }
    assert((s * s - n) * half == (d * half) * p && 2 * n == (2 * t) * p) by (nonlinear_arith)
        requires
            s * s == (m * m) * p,
            n == t * p,
            d == m * m - t,
    ;
    assert(-((2 * t) * p) <= (d * half) * p <= (2 * t) * p) by (nonlinear_arith)
        requires
            -(2 * t) <= d * half <= 2 * t,
            p > 0,
    ;
}

} // verus!
