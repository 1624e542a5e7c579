//! Means and standard deviations are what their names say, up to rounding.
use crate::arrivals::{deviation, mean, squared, squared_total, total};
use crate::ieee::{
    body, difference, infinity, integer, is_pattern, law_integer_is_exact, law_integer_is_finite,
    law_nearest_to_itself, lemma_format, lemma_root_pattern, lemma_units_zero, nearest, negated,
    negative, packed, places, product, quotient, sign_bit, square_root, sum, units,
};
use crate::monotone::{law_integers_keep_order, law_nearest_keeps_order};
use crate::precision::{
    law_product_error, law_quotient_error, law_root_error, law_rounding_error, law_sum_error,
    lemma_near_chain, lemma_near_product, lemma_near_scaled, lemma_near_sum, lemma_near_weaker,
    near,
};
use crate::single::{minus, of_int, over, plus, root, square, times, Single};
use crate::soft_float::{is_format, SINGLE};
use vstd::arithmetic::power2::{
    lemma2_to64_rest, lemma_pow2_pos, lemma_pow2_strictly_increases, pow2,
};
use vstd::prelude::*;

verus! {

/// The exact sum of numbers that are not negative, in units of the smallest positive number.
pub open spec fn exact_total(half: nat, sample: Seq<u64>) -> int
    decreases sample.len(),
{
    if sample.len() == 0 {
        0
    } else {
        exact_total(half, sample.drop_last()) + units(half, sample.last() as nat)
    }
}

/// The distance of two numbers that are not negative, in units of the smallest positive number.
pub open spec fn apart(half: nat, x: nat, centre: nat) -> int {
    if units(half, x) >= units(half, centre) {
        units(half, x) - units(half, centre)
    } else {
        units(half, centre) - units(half, x)
    }
}

/// The exact sum of the squared distances of numbers from a centre, in squared units.
pub open spec fn exact_squares(half: nat, sample: Seq<u64>, centre: nat) -> int
    decreases sample.len(),
{
    if sample.len() == 0 {
        0
    } else {
        exact_squares(half, sample.drop_last(), centre) + apart(half, sample.last() as nat, centre)
            * apart(half, sample.last() as nat, centre)
    }
}

/// All elements are finite and not negative.
pub open spec fn all_finite(half: nat, sample: Seq<u64>) -> bool {
    forall|i: int| 0 <= i < sample.len() ==> #[trigger] sample[i] < infinity(half)
}

/// The sums of the first elements are not negative.
proof fn lemma_total_kept(half: nat, sample: Seq<u64>)
    requires
        is_format(half),
        all_finite(half, sample),
        total(half, sample) < infinity(half),
        sample.len() > 0,
    ensures
        total(half, sample.drop_last()) < infinity(half),
{
    lemma_format(half);
    lemma_total_sign(half, sample.drop_last());
}

/// A sum of numbers that are not negative is not negative.
proof fn lemma_total_sign(half: nat, sample: Seq<u64>)
    requires
        is_format(half),
        all_finite(half, sample),
    ensures
        total(half, sample) <= infinity(half),
    decreases sample.len(),
{
    lemma_format(half);
    if sample.len() > 0 {
        let front = sample.drop_last();
        assert(sample.last() == sample[sample.len() - 1]);
        assert forall|i: int| 0 <= i < front.len() implies #[trigger] front[i] < infinity(half) by {
            assert(front[i] == sample[i]);
        }
        lemma_total_sign(half, front);
    }
}

/// The errors of a sum add up.
proof fn lemma_sum_step(s: int, x: int, t: int, a: int, i: int, half: int)
    requires
        half >= 1,
        0 <= i < half,
        a >= 0,
        x >= 0,
        -(2 * (i * a)) <= (s - a) * (2 * half) <= 2 * (i * a),
        near(t, s + x, 2 * half),
    ensures
        -(2 * ((i + 1) * (a + x))) <= (t - (a + x)) * (2 * half) <= 2 * ((i + 1) * (a + x)),
{
    let e = 2 * half;
    assert(i * a <= half * a) by (nonlinear_arith)
        requires
            i < half,
            a >= 0,
    ;
    assert(2 * (half * a) == a * e) by (nonlinear_arith)
        requires
            e == 2 * half,
    ;
    // The sum so far is at most twice the exact one.
    assert(s <= 2 * a) by (nonlinear_arith)
        requires
            (s - a) * e <= 2 * (i * a),
            2 * (i * a) <= a * e,
            e > 0,
    {
        assert((s - a) * e <= a * e);
        assert(s - a <= a) by (nonlinear_arith)
            requires
                (s - a) * e <= a * e,
                e > 0,
        ;
    }
    assert((t - (a + x)) * e == (t - (s + x)) * e + (s - a) * e) by (nonlinear_arith);
    assert((i + 1) * (a + x) == i * a + a + x + i * x) by (nonlinear_arith);
    assert(i * x >= 0) by (nonlinear_arith)
        requires
            i >= 0,
            x >= 0,
    ;
}

/// A sum is the exact sum up to one part in the width of the mantissa for each element.
proof fn lemma_total_error(half: nat, sample: Seq<u64>)
    requires
        is_format(half),
        all_finite(half, sample),
        total(half, sample) < infinity(half),
        sample.len() <= half,
    ensures
        ({
            let (s, x, n) = (
                units(half, total(half, sample)) as int,
                exact_total(half, sample),
                sample.len() as int,
            );
            &&& x >= 0
            &&& -(2 * (n * x)) <= (s - x) * (2 * half) <= 2 * (n * x)
        }),
    decreases sample.len(),
{
    lemma_format(half);
    lemma_units_zero(half, 0);
    if sample.len() > 0 {
        let front = sample.drop_last();
        assert(sample.last() == sample[sample.len() - 1]);
        assert forall|i: int| 0 <= i < front.len() implies #[trigger] front[i] < infinity(half) by {
            assert(front[i] == sample[i]);
        }
        lemma_total_kept(half, sample);
        lemma_total_error(half, front);
        law_sum_error(half, total(half, front), sample.last() as nat);
        lemma_sum_step(
            units(half, total(half, front)) as int,
            units(half, sample.last() as nat) as int,
            units(half, total(half, sample)) as int,
            exact_total(half, front),
            front.len() as int,
            half as int,
        );
    } else {
        assert(0 * 0 == 0 && (0 - 0) * (2 * half) == 0) by (nonlinear_arith);
    }
}

/// The quotient of a sum by a number of elements.
proof fn lemma_divided(half: nat, s: nat, n: nat)
    requires
        is_format(half),
        s < infinity(half),
        0 < n <= half,
        units(half, s) >= half * n,
    ensures
        quotient(half, s, integer(half, n)) < infinity(half),
        near(
            (units(half, quotient(half, s, integer(half, n))) * n) as int,
            units(half, s) as int,
            (2 * half) as int,
        ),
{
    let w = pow2(places(half));
    lemma_format(half);
    lemma_pow2_pos(places(half));
    law_integer_is_exact(half, n);
    let d = integer(half, n);
    let u = units(half, s);
    assert(n * w > 0 && (u * w) * 1 <= u * (n * w)) by (nonlinear_arith)
        requires
            n >= 1,
            w > 0,
            u >= 0,
    ;
    law_nearest_to_itself(half, s);
    law_nearest_keeps_order(half, u * w, n * w, u, 1);
    assert(u * w >= half * (n * w)) by (nonlinear_arith)
        requires
            u >= half * n,
            w > 0,
    ;
    law_quotient_error(half, s, d);
    let q = units(half, quotient(half, s, d));
    assert(q * (n * w) == (q * n) * w) by (nonlinear_arith);
    lemma_near_scaled((q * n) as int, u as int, w as int, (2 * half) as int);
}

/// The mean of numbers that are not negative is their sum divided by their number, up to one
/// part in the width of the mantissa for each of them and one more; for no more numbers than
/// half of that width, and sums that are not too small for a full mantissa.
pub proof fn law_mean_is_the_average(half: nat, sample: Seq<u64>)
    requires
        is_format(half),
        all_finite(half, sample),
        0 < 2 * sample.len() <= half,
        total(half, sample) < infinity(half),
        exact_total(half, sample) >= 2 * (half * sample.len()),
    ensures
        ({
            let (m, x, n) = (
                units(half, mean(half, sample)) as int,
                exact_total(half, sample),
                sample.len() as int,
            );
            &&& mean(half, sample) < infinity(half)
            &&& -((2 * n + 2) * x) <= (m * n - x) * (2 * half) <= (2 * n + 2) * x
        }),
{
    lemma_format(half);
    lemma_total_error(half, sample);
    let (x, n, h) = (exact_total(half, sample), sample.len() as int, half as int);
    let s = units(half, total(half, sample)) as int;
    assert(n * x <= h * x) by (nonlinear_arith)
        requires
            n <= h,
            x >= 0,
    ;
    assert(2 * s >= 0 && s <= 2 * x) by (nonlinear_arith)
        requires
            (s - x) * (2 * h) <= 2 * (n * x),
            n * x <= h * x,
            h >= 1,
            s >= 0,
            x >= 0,
    {
        assert((s - x) * (2 * h) <= x * (2 * h)) by (nonlinear_arith)
            requires
                (s - x) * (2 * h) <= 2 * (h * x),
        ;
        assert(s - x <= x) by (nonlinear_arith)
            requires
                (s - x) * (2 * h) <= x * (2 * h),
                h >= 1,
        ;
    }
    lemma_sum_large(s, x, n, h);
    lemma_divided(half, total(half, sample), sample.len());
    let m = units(half, mean(half, sample)) as int;
    assert((m * n - x) * (2 * h) == (m * n - s) * (2 * h) + (s - x) * (2 * h)) by (nonlinear_arith);
    assert((2 * n + 2) * x == 2 * (n * x) + 2 * x) by (nonlinear_arith);
}

/// A sum of so many parts stays large enough after rounding.
proof fn lemma_sum_large(s: int, x: int, n: int, h: int)
    requires
        h >= 1,
        0 < 2 * n <= h,
        x >= 2 * (h * n),
        -(2 * (n * x)) <= (s - x) * (2 * h),
        s >= 0,
    ensures
        s >= h * n,
{
    assert(h * n >= 0) by (nonlinear_arith)
        requires
            h >= 1,
            n > 0,
    ;
    assert(2 * (n * x) <= h * x) by (nonlinear_arith)
        requires
            2 * n <= h,
            x >= 0,
    ;
    assert(2 * s >= x) by (nonlinear_arith)
        requires
            (s - x) * (2 * h) >= -(h * x),
            h >= 1,
    ;
}

/// A distance of two finite numbers.
proof fn lemma_distance(half: nat, x: nat, centre: nat)
    requires
        is_format(half),
        x < infinity(half),
        centre < infinity(half),
    ensures
        ({
            let d = difference(half, x, centre);
            &&& body(half, d) < infinity(half)
            &&& units(half, d) == units(half, body(half, d))
            &&& near(units(half, d) as int, apart(half, x, centre), (2 * half) as int)
            &&& squared(half, x, centre) == product(half, body(half, d), body(half, d))
        }),
{
    lemma_format(half);
    assert(body(half, negated(half, centre)) == centre);
    let (u, v) = (units(half, x), units(half, centre));
    let n = apart(half, x, centre) as nat;
    let d = difference(half, x, centre);
    lemma_units_zero(half, 0);
    law_nearest_to_itself(half, x);
    law_nearest_to_itself(half, centre);
    if u >= v {
        law_nearest_keeps_order(half, n, 1, u, 1);
    } else {
        law_nearest_keeps_order(half, n, 1, v, 1);
    }
    law_nearest_to_itself(half, 0);
    assert(body(half, d) == nearest(half, n, 1));
    assert(body(half, body(half, d)) == body(half, d));
    lemma_exact_or_near(half, n);
}

/// What is nearest to a whole number of units is near to it.
proof fn lemma_exact_or_near(half: nat, n: nat)
    requires
        is_format(half),
        nearest(half, n, 1) < infinity(half),
    ensures
        near(units(half, nearest(half, n, 1)) as int, n as int, (2 * half) as int),
{
    lemma_format(half);
    law_rounding_error(half, n, 1);
    assert(half * 1 == half);
    if n < half {
        let u = units(half, nearest(half, n, 1));
        assert(u * 1 == u);
        assert(u == n);
        assert((u - n) * (2 * half) == 0) by (nonlinear_arith)
            requires
                u == n,
        ;
    }
}

/// The square of a distance is the exact square up to rounding.
proof fn lemma_squared(half: nat, x: nat, centre: nat)
    requires
        is_format(half),
        x < infinity(half),
        centre < infinity(half),
        squared(half, x, centre) < infinity(half),
        apart(half, x, centre) == 0 || apart(half, x, centre) * apart(half, x, centre) >= 4 * (half
            * pow2(places(half))),
    ensures
        near(
            (units(half, squared(half, x, centre)) * pow2(places(half))) as int,
            apart(half, x, centre) * apart(half, x, centre),
            half as int / 8,
        ),
{
    let w = pow2(places(half)) as int;
    let e = apart(half, x, centre);
    let h = half as int;
    lemma_format(half);
    lemma_pow2_pos(places(half));
    lemma_distance(half, x, centre);
    let d = body(half, difference(half, x, centre));
    let u = units(half, d) as int;
    let q = units(half, squared(half, x, centre)) as int;
    if e == 0 {
        assert(u == 0) by (nonlinear_arith)
            requires
                0 <= u,
                (u - 0) * (2 * h) <= 0,
                h >= 1,
        ;
        lemma_units_zero(half, d);
        lemma_units_zero(half, 0);
        assert(u * u == 0 && e * e == 0) by (nonlinear_arith)
            requires
                u == 0,
                e == 0,
        ;
        law_nearest_to_itself(half, 0);
        crate::ieee::lemma_zero_packed(half, false);
        assert(q == 0);
        assert(q * w == 0 && (0 - 0) * (h / 8) == 0) by (nonlinear_arith)
            requires
                q == 0,
        ;
    } else {
        let f = h / 2;
        lemma_near_product(u, e, u, e, 2 * h, f);
        assert(e * e >= 0 && u * u >= 0) by (nonlinear_arith);
        assert(2 * (u * u) >= e * e) by (nonlinear_arith)
            requires
                -(e * e) <= (u * u - e * e) * f,
                f >= 2,
                e * e >= 0,
        ;
        law_product_error(half, d, d);
        lemma_near_weaker(q * w, u * u, 2 * h, f);
        lemma_near_chain(q * w, u * u, e * e, f, h / 8);
    }
}

/// The squared distances of the elements of a sample.
pub open spec fn squares(half: nat, sample: Seq<u64>, centre: nat) -> Seq<u64> {
    sample.map_values(|x: u64| squared(half, x as nat, centre) as u64)
}

/// The sum of the squared distances is the sum of the squares.
proof fn lemma_squares_summed(half: nat, sample: Seq<u64>, centre: nat)
    requires
        is_format(half),
        forall|i: int|
            0 <= i < sample.len() ==> squared(half, #[trigger] sample[i] as nat, centre)
                < infinity(half),
    ensures
        total(half, squares(half, sample, centre)) == squared_total(half, sample, centre),
    decreases sample.len(),
{
    lemma_format(half);
    if sample.len() > 0 {
        let front = sample.drop_last();
        assert(sample.last() == sample[sample.len() - 1]);
        assert(squares(half, sample, centre).drop_last() =~= squares(half, front, centre));
        assert forall|i: int| 0 <= i < front.len() implies squared(
            half,
            #[trigger] front[i] as nat,
            centre,
        ) < infinity(half) by {
            assert(front[i] == sample[i]);
        }
        lemma_squares_summed(half, front, centre);
    }
}

/// No distance of an element from the centre is so small that its square, divided among all
/// elements, would lack a full mantissa.
pub open spec fn well_apart(half: nat, sample: Seq<u64>, centre: nat, n: nat) -> bool {
    forall|i: int|
        0 <= i < sample.len() ==> apart(half, #[trigger] sample[i] as nat, centre) == 0 || apart(
            half,
            sample[i] as nat,
            centre,
        ) * apart(half, sample[i] as nat, centre) >= 8 * ((half * pow2(places(half))) * n)
}

/// The sum of the rounded squares is that of the exact ones, up to rounding, and it is zero or
/// large enough for a full mantissa.
proof fn lemma_squares_near(half: nat, sample: Seq<u64>, centre: nat, n: nat)
    requires
        is_format(half),
        all_finite(half, sample),
        centre < infinity(half),
        n >= 1,
        forall|i: int|
            0 <= i < sample.len() ==> squared(half, #[trigger] sample[i] as nat, centre)
                < infinity(half),
        well_apart(half, sample, centre, n),
    ensures
        ({
            let x = exact_squares(half, sample, centre);
            let y = exact_total(half, squares(half, sample, centre));
            &&& x >= 0
            &&& y >= 0
            &&& near(y * pow2(places(half)), x, half as int / 8)
            &&& x == 0 || x >= 8 * ((half * pow2(places(half))) * n)
        }),
    decreases sample.len(),
{
    let w = pow2(places(half)) as int;
    lemma_format(half);
    lemma_pow2_pos(places(half));
    let all = squares(half, sample, centre);
    if sample.len() > 0 {
        let front = sample.drop_last();
        let last = sample.last() as nat;
        assert(sample.last() == sample[sample.len() - 1]);
        assert(all.drop_last() =~= squares(half, front, centre));
        assert forall|i: int| 0 <= i < front.len() implies #[trigger] front[i] == sample[i] by {}
        assert(all_finite(half, front));
        assert(well_apart(half, front, centre, n)) by {
            assert forall|i: int| 0 <= i < front.len() implies apart(
                half,
                #[trigger] front[i] as nat,
                centre,
            ) == 0 || apart(half, front[i] as nat, centre) * apart(
                half,
                front[i] as nat,
                centre,
            ) >= 8 * ((half * pow2(places(half))) * n) by {
                assert(front[i] == sample[i]);
            }
        }
        lemma_squares_near(half, front, centre, n);
        let g = half * pow2(places(half));
        assert(g * n >= g) by (nonlinear_arith)
            requires
                n >= 1,
                g >= 0,
        ;
        assert(squared(half, last, centre) < infinity(half));
        lemma_squared(half, last, centre);
        let e = apart(half, last, centre);
        let q = units(half, squared(half, last, centre)) as int;
        let y = exact_total(half, squares(half, front, centre));
        let x = exact_squares(half, front, centre);
        assert(all.last() == squared(half, last, centre));
        lemma_near_sum(y * w, x, q * w, e * e, half as int / 8);
        assert((y + q) * w == y * w + q * w) by (nonlinear_arith);
        assert(e * e >= 0) by (nonlinear_arith);
        if e == 0 {
            assert(e * e == 0) by (nonlinear_arith)
                requires
                    e == 0,
            ;
        }
    } else {
        assert(all =~= Seq::<u64>::empty());
        assert(0 * w == 0 && (0 - 0) * (half as int / 8) == 0) by (nonlinear_arith);
    }
}

/// The standard deviation of numbers that are not negative is the root of their mean square
/// distance from their mean: its square, times their number, is the sum of the squared
/// distances, up to one part in half the width of the mantissa for each of them and a few more.
pub proof fn law_deviation_is_root_mean_square(half: nat, sample: Seq<u64>)
    requires
        is_format(half),
        all_finite(half, sample),
        0 < 2 * sample.len() <= half,
        mean(half, sample) < infinity(half),
        forall|i: int|
            0 <= i < sample.len() ==> squared(
                half,
                #[trigger] sample[i] as nat,
                mean(half, sample),
            ) < infinity(half),
        squared_total(half, sample, mean(half, sample)) < infinity(half),
        well_apart(half, sample, mean(half, sample), sample.len()),
    ensures
        ({
            let d = units(half, deviation(half, sample)) as int;
            let x = exact_squares(half, sample, mean(half, sample));
            let n = sample.len() as int;
            &&& deviation(half, sample) < infinity(half)
            &&& -((2 * n + 64) * x) <= ((d * d) * n - x) * half <= (2 * n + 64) * x
        }),
{
    let w = pow2(places(half)) as int;
    let (n, h) = (sample.len() as int, half as int);
    let centre = mean(half, sample);
    let all = squares(half, sample, centre);
    lemma_format(half);
    lemma_pow2_pos(places(half));
    lemma_squares_near(half, sample, centre, sample.len());
    let x = exact_squares(half, sample, centre);
    let y = exact_total(half, all);
    assert forall|i: int| 0 <= i < all.len() implies #[trigger] all[i] < infinity(half) by {
        assert(squared(half, sample[i] as nat, centre) < infinity(half));
    }
    lemma_squares_summed(half, sample, centre);
    let sp = squared_total(half, sample, centre);
    lemma_total_error(half, all);
    let s = units(half, sp) as int;
    let vp = quotient(half, sp, integer(half, sample.len()));
    let dp = deviation(half, sample);
    assert(dp == square_root(half, vp));
    let d = units(half, dp) as int;
    law_integer_is_exact(half, sample.len());
    assert(y * w <= 2 * x) by (nonlinear_arith)
        requires
            (y * w - x) * (h / 8) <= x,
            h / 8 >= 1,
            x >= 0,
    ;
    assert(2 * (y * w) >= x) by (nonlinear_arith)
        requires
            -x <= (y * w - x) * (h / 8),
            h / 8 >= 2,
            x >= 0,
    ;
    assert(2 * (n * y) <= h * y) by (nonlinear_arith)
        requires
            2 * n <= h,
            y >= 0,
    ;
    assert(s <= 2 * y && 2 * s >= y) by (nonlinear_arith)
        requires
            -(2 * (n * y)) <= (s - y) * (2 * h) <= 2 * (n * y),
            2 * (n * y) <= h * y,
            h >= 1,
            y >= 0,
    {
        assert((s - y) * (2 * h) <= h * y && -(h * y) <= (s - y) * (2 * h));
        assert(2 * (s - y) <= y && -y <= 2 * (s - y)) by (nonlinear_arith)
            requires
                -(h * y) <= (s - y) * (2 * h) <= h * y,
                h >= 1,
        ;
    }
    if x == 0 {
        // All squares are zero, and so is the root.
        assert(y == 0) by (nonlinear_arith)
            requires
                y * w <= 2 * x,
                x == 0,
                w > 0,
                y >= 0,
        ;
        assert(s == 0);
        lemma_units_zero(half, sp);
        lemma_units_zero(half, 0);
        let dn = integer(half, sample.len());
        assert(units(half, dn) > 0) by (nonlinear_arith)
            requires
                units(half, dn) == n * w,
                n > 0,
                w > 0,
        ;
        lemma_units_zero(half, dn);
        crate::ieee::law_quotient_of_zero(half, dn);
        assert(vp == 0);
        assert(d == 0);
        assert((d * d) * n == 0 && (2 * n + 64) * x == 0 && (0 - 0) * h == 0) by (nonlinear_arith)
            requires
                d == 0,
                x == 0,
        ;
    } else {
        let g = half * pow2(places(half));
        assert(s >= h * n) by (nonlinear_arith)
            requires
                x >= 8 * (g * n),
                g == h * w,
                2 * (y * w) >= x,
                2 * s >= y,
                w > 0,
                h > 0,
                n > 0,
        {
            assert(g * n == (h * n) * w) by (nonlinear_arith)
                requires
                    g == h * w,
            ;
            assert(y >= 4 * (h * n)) by (nonlinear_arith)
                requires
                    2 * (y * w) >= 8 * ((h * n) * w),
                    w > 0,
            ;
        }
        lemma_divided(half, sp, sample.len());
        let v = units(half, vp) as int;
        assert(v > 0) by (nonlinear_arith)
            requires
                -s <= (v * n - s) * (2 * h),
                s >= h * n,
                h >= 1,
                n > 0,
        {
            assert(h * n > 0) by (nonlinear_arith)
                requires
                    h >= 1,
                    n > 0,
            ;
            assert(v * n > 0) by (nonlinear_arith)
                requires
                    -s <= (v * n - s) * (2 * h),
                    s > 0,
                    h >= 1,
            ;
            assert(v > 0) by (nonlinear_arith)
                requires
                    v * n > 0,
                    n > 0,
            ;
        }
        lemma_units_zero(half, vp);
        law_root_error(half, vp);
        lemma_deviation_sums(d, v, s, y, x, n, h, w);
    }
}

/// The errors of the single steps add up.
proof fn lemma_deviation_sums(d: int, v: int, s: int, y: int, x: int, n: int, h: int, w: int)
    requires
        h >= 64,
        h % 8 == 0,
        0 < 2 * n <= h,
        w > 0,
        x >= 0,
        y >= 0,
        v >= 0,
        0 <= s <= 2 * y,
        y * w <= 2 * x,
        -(2 * (v * w)) <= (d * d - v * w) * h <= 2 * (v * w),
        near(v * n, s, 2 * h),
        -(2 * (n * y)) <= (s - y) * (2 * h) <= 2 * (n * y),
        near(y * w, x, h / 8),
    ensures
        -((2 * n + 64) * x) <= ((d * d) * n - x) * h <= (2 * n + 64) * x,
{
    let (vn, vw, yw, sw) = ((v * n) * w, v * w, y * w, s * w);
    // From the root to the quotient.
    let a = (d * d) * n - vn;
    assert(-(2 * vn) <= a * h <= 2 * vn) by (nonlinear_arith)
        requires
            -(2 * vw) <= (d * d - vw) * h <= 2 * vw,
            a == (d * d) * n - vn,
            vn == (v * n) * w,
            vw == v * w,
            n > 0,
    {
        let r = (d * d - vw) * h;
        assert(vn == vw * n) by (nonlinear_arith)
            requires
                vn == (v * n) * w,
                vw == v * w,
        ;
        assert(a * h == r * n) by (nonlinear_arith)
            requires
                a == (d * d) * n - vw * n,
                r == (d * d - vw) * h,
        ;
        assert(-(2 * vw) * n <= r * n <= (2 * vw) * n) by (nonlinear_arith)
            requires
                -(2 * vw) <= r <= 2 * vw,
                n > 0,
        ;
        assert((2 * vw) * n == 2 * vn && (-(2 * vw)) * n == -(2 * vn)) by (nonlinear_arith)
            requires
                vn == vw * n,
        ;
    }
    // From the quotient to the sum.
    let b = vn - sw;
    assert(-sw <= b * (2 * h) <= sw) by (nonlinear_arith)
        requires
            -s <= (v * n - s) * (2 * h) <= s,
            b == vn - sw,
            vn == (v * n) * w,
            sw == s * w,
            w > 0,
    {
        let r = (v * n - s) * (2 * h);
        assert(b * (2 * h) == r * w) by (nonlinear_arith)
            requires
                b == (v * n) * w - s * w,
                r == (v * n - s) * (2 * h),
        ;
        assert((-s) * w <= r * w <= s * w) by (nonlinear_arith)
            requires
                -s <= r <= s,
                w > 0,
        ;
        assert((-s) * w == -sw) by (nonlinear_arith)
            requires
                sw == s * w,
        ;
    }
    // From the sum to the squares.
    let c = sw - yw;
    let ny = n * yw;
    assert(-(2 * ny) <= c * (2 * h) <= 2 * ny) by (nonlinear_arith)
        requires
            -(2 * (n * y)) <= (s - y) * (2 * h) <= 2 * (n * y),
            c == sw - yw,
            sw == s * w,
            yw == y * w,
            ny == n * yw,
            w > 0,
    {
        let r = (s - y) * (2 * h);
        let k = 2 * (n * y);
        assert(c * (2 * h) == r * w) by (nonlinear_arith)
            requires
                c == s * w - y * w,
                r == (s - y) * (2 * h),
        ;
        assert((-k) * w <= r * w <= k * w) by (nonlinear_arith)
            requires
                -k <= r <= k,
                w > 0,
        ;
        assert(k * w == 2 * ny && (-k) * w == -(2 * ny)) by (nonlinear_arith)
            requires
                k == 2 * (n * y),
                ny == n * yw,
                yw == y * w,
        ;
    }
    // The bounds.
    assert(sw <= 2 * yw) by (nonlinear_arith)
        requires
            s <= 2 * y,
            sw == s * w,
            yw == y * w,
            w > 0,
    ;
    assert(sw >= 0) by (nonlinear_arith)
        requires
            sw == s * w,
            s >= 0,
            w > 0,
    ;
    assert(vn <= 2 * sw) by (nonlinear_arith)
        requires
            b == vn - sw,
            b * (2 * h) <= sw,
            h >= 1,
            sw >= 0,
    ;
    assert(ny <= 2 * (n * x)) by (nonlinear_arith)
        requires
            ny == n * yw,
            yw <= 2 * x,
            n > 0,
    ;
    let f = h / 8;
    assert(h == 8 * f);
    let e = yw - x;
    assert(-(8 * x) <= e * h <= 8 * x) by (nonlinear_arith)
        requires
            -x <= e * f <= x,
            h == 8 * f,
    ;
    assert(((d * d) * n - x) * h == a * h + b * h + c * h + e * h) by (nonlinear_arith)
        requires
            a == (d * d) * n - vn,
            b == vn - sw,
            c == sw - yw,
            e == yw - x,
    ;
    assert(b * (2 * h) == 2 * (b * h) && c * (2 * h) == 2 * (c * h)) by (nonlinear_arith);
    assert((2 * n + 64) * x == 2 * (n * x) + 64 * x) by (nonlinear_arith);
}

/// Packet sizes as numbers in single precision.
pub open spec fn as_singles(sizes: Seq<u16>) -> Seq<u64> {
    sizes.map_values(|size: u16| of_int(size as nat).bits as u64)
}

/// The mean and the deviation of packet sizes are those of the sizes as numbers in single
/// precision.
pub proof fn law_sizes_are_averaged_as_numbers(sizes: Seq<u16>)
    ensures
        crate::stats::mean(sizes).bits == mean(SINGLE as nat, as_singles(sizes)),
        crate::stats::deviation(sizes).bits == deviation(SINGLE as nat, as_singles(sizes)),
{
    let half = SINGLE as nat;
    lemma_format(half);
    lemma_sizes_total(sizes);
    lemma_sizes_squares(sizes, crate::stats::mean(sizes));
    reveal(over);
    reveal(of_int);
    reveal(root);
    if sizes.len() > 0 {
        let s = crate::stats::total(sizes);
        let d = integer(half, sizes.len());
        lemma_pattern(half, integer(half, sizes.len()));
        law_integers_keep_order(half, sizes.len(), sizes.len());
        assert(of_int(sizes.len()).bits == d);
        assert(over(s, of_int(sizes.len())).bits == quotient(half, s.bits as nat, d)) by {
            lemma_quotient_pattern(half, s.bits as nat, d);
        }
        let t = crate::stats::squared_distances(sizes, crate::stats::mean(sizes));
        let q = over(t, of_int(sizes.len()));
        assert(q.bits == quotient(half, t.bits as nat, d)) by {
            lemma_quotient_pattern(half, t.bits as nat, d);
        }
        lemma_root_pattern(half, q.bits as nat);
    }
}

/// Nothing is lost of a pattern of the format.
proof fn lemma_pattern(half: nat, a: nat)
    requires
        half == SINGLE,
    ensures
        a < 2 * sign_bit(half) ==> a as u32 == a,
{
    lemma_format(half);
}

/// A rounded result is a pattern.
proof fn lemma_packed_pattern(half: nat, sign: bool, n: nat, d: nat)
    requires
        is_format(half),
        d > 0,
    ensures
        packed(half, sign, n, d) < 2 * sign_bit(half),
{
    lemma_format(half);
}

/// A quotient is a pattern.
proof fn lemma_quotient_pattern(half: nat, a: nat, b: nat)
    requires
        is_format(half),
        is_pattern(half, a),
        is_pattern(half, b),
    ensures
        quotient(half, a, b) < 2 * sign_bit(half),
{
    lemma_format(half);
    if units(half, b) > 0 {
        lemma_packed_pattern(
            half,
            negative(half, a) != negative(half, b),
            units(half, a) * pow2(places(half)),
            units(half, b),
        );
    }
}

/// A sum is a pattern.
proof fn lemma_sum_pattern(half: nat, a: nat, b: nat)
    requires
        is_format(half),
        is_pattern(half, a),
        is_pattern(half, b),
    ensures
        sum(half, a, b) < 2 * sign_bit(half),
{
    lemma_format(half);
}

/// A product is a pattern.
proof fn lemma_product_pattern(half: nat, a: nat, b: nat)
    requires
        is_format(half),
        is_pattern(half, a),
        is_pattern(half, b),
    ensures
        product(half, a, b) < 2 * sign_bit(half),
{
    lemma_format(half);
    lemma_pow2_pos(places(half));
}

/// Sizes are added as numbers.
proof fn lemma_sizes_total(sizes: Seq<u16>)
    ensures
        crate::stats::total(sizes).bits == total(SINGLE as nat, as_singles(sizes)),
    decreases sizes.len(),
{
    let half = SINGLE as nat;
    lemma_format(half);
    if sizes.len() > 0 {
        let front = sizes.drop_last();
        lemma_sizes_total(front);
        assert(as_singles(sizes).drop_last() =~= as_singles(front));
        reveal(plus);
        let x = of_int(sizes.last() as nat);
        assert(as_singles(sizes).last() == x.bits);
        lemma_sum_pattern(half, crate::stats::total(front).bits as nat, x.bits as nat);
    }
}

/// The squared distances of sizes are added as those of numbers.
proof fn lemma_sizes_squares(sizes: Seq<u16>, centre: Single)
    ensures
        crate::stats::squared_distances(sizes, centre).bits == squared_total(
            SINGLE as nat,
            as_singles(sizes),
            centre.bits as nat,
        ),
    decreases sizes.len(),
{
    let half = SINGLE as nat;
    lemma_format(half);
    if sizes.len() > 0 {
        let front = sizes.drop_last();
        lemma_sizes_squares(front, centre);
        assert(as_singles(sizes).drop_last() =~= as_singles(front));
        reveal(plus);
        reveal(minus);
        reveal(times);
        let x = of_int(sizes.last() as nat);
        assert(as_singles(sizes).last() == x.bits);
        let c = centre.bits as nat;
        lemma_sum_pattern(half, x.bits as nat, negated(half, c));
        let d = minus(x, centre);
        assert(d.bits == difference(half, x.bits as nat, c));
        lemma_product_pattern(half, d.bits as nat, d.bits as nat);
        let q = square(d);
        assert(q.bits == squared(half, x.bits as nat, c));
        let before = crate::stats::squared_distances(front, centre);
        lemma_sum_pattern(half, before.bits as nat, q.bits as nat);
    }
}

/// The mean of packet sizes is their sum divided by their number, up to one part in `2^23` for
/// each of them and one more; in units of `2^-149`.
pub proof fn law_mean_of_sizes_is_the_average(sizes: Seq<u16>)
    requires
        0 < sizes.len() <= 0x40_0000,
        sizes.fold_left(0int, |acc: int, size: u16| acc + size) > 0,
    ensures
        ({
            let m = units(SINGLE as nat, crate::stats::mean(sizes).bits as nat) as int;
            let x = sizes.fold_left(0int, |acc: int, size: u16| acc + size) * pow2(149);
            let n = sizes.len() as int;
            &&& crate::stats::mean(sizes).bits < 0x7f80_0000
            &&& -((2 * n + 2) * x) <= (m * n - x) * 0x100_0000 <= (2 * n + 2) * x
        }),
{
    let half = SINGLE as nat;
    let p = pow2(149) as int;
    lemma_format(half);
    lemma_pow2_pos(149);
    lemma_pow2_strictly_increases(63, 149);
    lemma2_to64_rest();
    law_sizes_are_averaged_as_numbers(sizes);
    lemma_sizes_exact(sizes);
    let x = sizes.fold_left(0int, |acc: int, size: u16| acc + size);
    assert(x * p >= p) by (nonlinear_arith)
        requires
            x >= 1,
            p > 0,
    ;
    law_mean_is_the_average(half, as_singles(sizes));
}

/// Sizes are exact in single precision, and so is their sum in units; it is finite.
proof fn lemma_sizes_exact(sizes: Seq<u16>)
    requires
        sizes.len() <= 0x40_0000,
    ensures
        ({
            let half = SINGLE as nat;
            let x = sizes.fold_left(0int, |acc: int, size: u16| acc + size);
            &&& all_finite(half, as_singles(sizes))
            &&& exact_total(half, as_singles(sizes)) == x * pow2(149)
            &&& 0 <= x <= 65535 * sizes.len()
            &&& total(half, as_singles(sizes)) < infinity(half)
        }),
    decreases sizes.len(),
{
    let half = SINGLE as nat;
    let p = pow2(149) as int;
    let all = as_singles(sizes);
    lemma_format(half);
    lemma_pow2_pos(149);
    reveal(Seq::fold_left);
    reveal(of_int);
    assert forall|i: int| 0 <= i < all.len() implies #[trigger] all[i] < infinity(half) by {
        law_integer_is_exact(half, sizes[i] as nat);
    }
    if sizes.len() > 0 {
        let front = sizes.drop_last();
        lemma_sizes_exact(front);
        assert(all.drop_last() =~= as_singles(front));
        let last = sizes.last() as nat;
        law_integer_is_exact(half, last);
        assert(all.last() == of_int(last).bits);
        let x = front.fold_left(0int, |acc: int, size: u16| acc + size);
        assert((x + last) * p == x * p + last * p) by (nonlinear_arith);
        // The rounded sum so far is at most twice the exact one, far from infinity.
        let before = total(half, as_singles(front));
        lemma_total_error(half, as_singles(front));
        let s = units(half, before) as int;
        let y = exact_total(half, as_singles(front));
        let n = front.len() as int;
        assert(n * y <= 0x40_0000 * y) by (nonlinear_arith)
            requires
                n <= 0x40_0000,
                y >= 0,
        ;
        assert(s <= 2 * y);
        assert(y <= 274873712640 * p) by (nonlinear_arith)
            requires
                y == x * p,
                x <= 274873712640,
                p > 0,
        ;
        let top = s + last * p;
        assert(last * p <= 65535 * p) by (nonlinear_arith)
            requires
                last <= 65535,
                p > 0,
        ;
        law_integer_is_finite(0x1_0000_0000_0000);
        assert(top <= 0x1_0000_0000_0000 * p);
        law_nearest_keeps_order(half, top as nat, 1, (0x1_0000_0000_0000 * p) as nat, 1);
        assert(total(half, all) == nearest(half, top as nat, 1));
        assert(exact_total(half, all) == x * p + last * p);
    } else {
        assert(all =~= Seq::<u64>::empty());
        assert(0 * p == 0);
    }
}

} // verus!
