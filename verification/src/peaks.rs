//! What holds of all modes of packet sizes.
use crate::float_bits::single_is_nan;
use crate::ieee::{
    body, is_nan, law_integer_is_exact, law_integer_is_finite, law_nearest_to_itself,
    lemma_exact_units, lemma_format, lemma_nearest_common_factor, lemma_pattern_units,
    lemma_root_pattern, lemma_units_zero, nearest, negated, units,
};
use crate::modes::{
    bin_center, bin_count, bin_of, bin_width, histogram, is_peak, largest,
    law_histogram_is_complete, peak_at, peaks_below, rounded_len, size_modes, smallest, spread,
    sum_of, Mode,
};
use crate::monotone::{
    finite_from_zero, from_zero, law_nearest_keeps_order, lemma_fraction_bits, lemma_ints,
    lemma_less_by_bits, lemma_over, lemma_plus, lemma_rounds_close, lemma_times, lemma_units_order,
};
use crate::precision::{law_quotient_error, lemma_near_scaled, lemma_rounding_bound, near};
use crate::single::{
    fraction, less, minus, of_int, over, plus, root, square, times, whole, zero, Single,
};
use crate::soft_float::SINGLE;
use crate::stats::{
    deviation, law_share_is_a_fraction, law_whole_share, mean, share, squared_distances, total,
};
use vstd::arithmetic::power2::{
    lemma2_to64, lemma2_to64_rest, lemma_pow2_adds, lemma_pow2_pos, lemma_pow2_strictly_increases,
    lemma_pow2_unfold, pow2,
};
use vstd::prelude::*;

verus! {

/// The number of units of a number in single precision.
spec fn amount(a: Single) -> nat {
    units(SINGLE as nat, a.bits as nat)
}

/// A width of bins: between one and 65535.
spec fn is_width(w: Single) -> bool {
    &&& 0 < w.bits < 0x7f80_0000
    &&& pow2(149) <= amount(w) <= 65535 * pow2(149)
}

/// A small integer in single precision.
proof fn lemma_small(n: nat)
    requires
        n < 0x100_0000,
    ensures
        finite_from_zero(of_int(n)),
        amount(of_int(n)) == n * pow2(149),
        n > 0 ==> of_int(n).bits > 0,
{
    let half = SINGLE as nat;
    reveal(of_int);
    lemma_format(half);
    law_integer_is_exact(half, n);
    law_integer_is_finite(n);
}

/// A number divided by one.
proof fn lemma_over_one(a: Single)
    requires
        finite_from_zero(a),
    ensures
        over(a, of_int(1)) == a,
{
    let half = SINGLE as nat;
    let (u, p) = (amount(a), pow2(149));
    lemma_small(1);
    lemma_format(half);
    lemma_pow2_pos(149);
    reveal(over);
    lemma_nearest_common_factor(half, u, 1, p);
    assert(p * u == u * p) by (nonlinear_arith);
    law_nearest_to_itself(half, a.bits as nat);
}

/// The width of the bins of sizes.
proof fn lemma_width(low: u16, high: u16, num_bins: nat)
    requires
        low <= high,
        0 < num_bins <= u64::MAX,
    ensures
        is_width(bin_width(low, high, num_bins)),
{
    let half = SINGLE as nat;
    let range = (high - low) as nat;
    let (r, n, one, top) = (of_int(range), of_int(num_bins), of_int(1), of_int(65535));
    lemma_format(half);
    lemma_small(range);
    lemma_small(1);
    lemma_small(65535);
    lemma_ints(1, num_bins);
    lemma_ints(range, 65535);
    lemma_ints(1, 65535);
    assert(n.bits < 0x7f80_0000) by {
        reveal(of_int);
        law_integer_is_finite(num_bins);
    }
    lemma_over(r, n, r, one);
    lemma_over_one(r);
    let q = over(r, n);
    lemma_less_by_bits(q, one);
    let w = bin_width(low, high, num_bins);
    lemma_units_order(half, one.bits as nat, w.bits as nat);
    lemma_units_order(half, w.bits as nat, top.bits as nat);
    assert(1 * pow2(149) == pow2(149));
}

/// A bin into which a size falls does not lie far beyond the sizes.
proof fn lemma_bin_bounded(size: u16, low: u16, w: Single, num_bins: nat)
    requires
        low <= size,
        is_width(w),
        num_bins > 0,
    ensures
        bin_of(size, low, w, num_bins) * amount(w) <= 65535 * pow2(149) + amount(w),
{
    let half = SINGLE as nat;
    let offset = (size - low) as nat;
    let (p, g, u) = (pow2(149), pow2(144), amount(w));
    let m = minus(of_int(size as nat), of_int(low as nat));
    lemma_format(half);
    lemma2_to64();
    lemma_pow2_pos(149);
    lemma_pow2_pos(144);
    lemma_pow2_adds(5, 144);
    lemma_pow2_adds(18, 149);
    lemma_small(size as nat);
    lemma_small(low as nat);
    lemma_exact_units(half, offset, 149);
    assert(size * p - low * p == offset * p) by (nonlinear_arith)
        requires
            offset == size - low,
    ;
    let b = of_int(low as nat).bits as nat;
    assert(body(half, negated(half, b)) == b);
    assert(amount(m) == offset * p && finite_from_zero(m)) by {
        reveal(minus);
        law_nearest_to_itself(half, 0);
        lemma_units_zero(half, 0);
        assert(low < size ==> low * p < size * p) by (nonlinear_arith)
            requires
                p > 0,
        ;
        assert(0 * p == 0);
    }
    let n = (offset * p) * p;
    assert(offset * p <= 65535 * p) by (nonlinear_arith)
        requires
            offset <= 65535,
    ;
    assert(n <= pow2(167) * u) by (nonlinear_arith)
        requires
            n == (offset * p) * p,
            offset * p <= 65535 * p,
            pow2(167) == 0x40000 * p,
            u >= p,
            p > 0,
    ;
    lemma_rounds_close(n, u);
    lemma_units_zero(half, w.bits as nat);
    let q = over(m, w);
    assert(q.bits == nearest(half, n, u)) by {
        reveal(over);
    }
    let j = bin_of(size, low, w, num_bins);
    let v = amount(q);
    assert(j <= v / p) by {
        reveal(whole);
    }
    vstd::arithmetic::div_mod::lemma_fundamental_div_mod(v as int, p as int);
    assert(j * p <= v) by (nonlinear_arith)
        requires
            j <= v / p,
            v == p * (v / p) + v % p,
            v % p >= 0,
            p > 0,
    ;
    assert(g <= p);
    assert(j * u <= 65535 * p + u) by (nonlinear_arith)
        requires
            j * p <= v,
            v * u <= n + g * u,
            n == (offset * p) * p,
            offset * p <= 65535 * p,
            g <= p,
            p > 0,
            u > 0,
    {
        assert((j * p) * u <= v * u);
        assert((offset * p) * p <= (65535 * p) * p);
        assert(g * u <= p * u);
        assert((j * u) * p == (j * p) * u);
        assert((65535 * p + u) * p == (65535 * p) * p + p * u);
        assert((j * u) * p <= (65535 * p + u) * p);
    }
}

/// Half in single precision.
proof fn lemma_half()
    ensures
        fraction(1, 2).bits == 126 * SINGLE,
        amount(fraction(1, 2)) == pow2(148),
{
    let half = SINGLE as nat;
    lemma_format(half);
    lemma2_to64();
    assert(pow2(24) == 0x100_0000 && pow2(23) == 0x80_0000);
    lemma_fraction_bits(1, 2, 24);
    lemma_pattern_units(half, 125, half);
    lemma_pow2_adds(23, 125);
}

/// A bin number plus one half, in units.
proof fn lemma_middle(j: nat)
    requires
        j <= 65536,
    ensures
        finite_from_zero(plus(of_int(j), fraction(1, 2))),
        amount(plus(of_int(j), fraction(1, 2))) == (2 * j + 1) * pow2(148),
{
    let half = SINGLE as nat;
    let q = pow2(148);
    lemma_format(half);
    lemma_small(j);
    lemma_half();
    lemma_pow2_unfold(149);
    lemma_exact_units(half, 2 * j + 1, 148);
    assert(j * pow2(149) + q == (2 * j + 1) * q) by (nonlinear_arith)
        requires
            pow2(149) == 2 * q,
    ;
    reveal(plus);
}

/// The centre of a bin that does not lie far beyond the sizes: a finite number, an eighth
/// or less from where it lies exactly.
proof fn lemma_center(low: u16, w: Single, j: nat)
    requires
        is_width(w),
        j * amount(w) <= 65535 * pow2(149) + amount(w),
    ensures
        finite_from_zero(bin_center(low, w, j)),
        2 * amount(bin_center(low, w, j)) <= 2 * low * pow2(149) + (2 * j + 1) * amount(w) + 4
            * pow2(144),
        2 * amount(bin_center(low, w, j)) + 4 * pow2(144) >= 2 * low * pow2(149) + (2 * j + 1)
            * amount(w),
{
    let half = SINGLE as nat;
    let (p, q, g, u) = (pow2(149), pow2(148), pow2(144), amount(w));
    lemma_format(half);
    lemma2_to64();
    lemma_pow2_pos(144);
    lemma_pow2_pos(148);
    lemma_pow2_unfold(149);
    lemma_pow2_adds(5, 144);
    lemma_pow2_adds(18, 149);
    assert(j <= 65536) by (nonlinear_arith)
        requires
            j * u <= 65535 * p + u,
            u >= p,
            p > 0,
    ;
    lemma_middle(j);
    lemma_small(low as nat);
    let a = plus(of_int(j), fraction(1, 2));
    let x = (2 * j + 1) * u;
    assert(x <= 327675 * p) by (nonlinear_arith)
        requires
            x == (2 * j + 1) * u,
            j * u <= 65535 * p + u,
            u <= 65535 * p,
    ;
    let n = amount(a) * u;
    assert(n == x * q) by (nonlinear_arith)
        requires
            n == ((2 * j + 1) * q) * u,
            x == (2 * j + 1) * u,
    ;
    assert(n <= pow2(167) * p) by (nonlinear_arith)
        requires
            n == x * q,
            x <= 327675 * p,
            pow2(167) == 0x40000 * p,
            p == 2 * q,
            q > 0,
    ;
    lemma_rounds_close(n, p);
    let t = times(a, w);
    assert(t.bits == nearest(half, n, p)) by {
        reveal(times);
    }
    let v = amount(t);
    assert(x <= 2 * (v + g)) by (nonlinear_arith)
        requires
            n == x * q,
            n <= (v + g) * p,
            p == 2 * q,
            q > 0,
    ;
    assert(2 * v <= x + 2 * g) by (nonlinear_arith)
        requires
            n == x * q,
            v * p <= n + g * p,
            p == 2 * q,
            q > 0,
    ;
    let s = low * p + v;
    assert(low * p <= 65535 * p) by (nonlinear_arith)
        requires
            low <= 65535,
    ;
    lemma_rounds_close(s as nat, 1);
    assert(bin_center(low, w, j).bits == nearest(half, s as nat, 1)) by {
        reveal(plus);
    }
    assert(2 * low * p == 2 * (low * p)) by (nonlinear_arith);
}

/// The centres of two bins are in the order of the bins.
proof fn lemma_centers_in_order(low: u16, w: Single, i: nat, j: nat)
    requires
        is_width(w),
        i < j,
        i * amount(w) <= 65535 * pow2(149) + amount(w),
        j * amount(w) <= 65535 * pow2(149) + amount(w),
    ensures
        less(bin_center(low, w, i), bin_center(low, w, j)),
{
    let half = SINGLE as nat;
    let (x, y) = (bin_center(low, w, i), bin_center(low, w, j));
    let u = amount(w);
    lemma_center(low, w, i);
    lemma_center(low, w, j);
    lemma2_to64();
    lemma_pow2_pos(144);
    lemma_pow2_adds(5, 144);
    lemma_format(half);
    assert((2 * j + 1) * u >= (2 * i + 1) * u + 2 * u) by (nonlinear_arith)
        requires
            i < j,
    ;
    lemma_units_order(half, x.bits as nat, y.bits as nat);
    lemma_less_by_bits(x, y);
}

/// A bin with sizes has one of them.
proof fn lemma_counted(sizes: Seq<u16>, low: u16, w: Single, num_bins: nat, bin: nat)
    requires
        bin_count(sizes, low, w, num_bins, bin) > 0,
    ensures
        exists|i: int|
            0 <= i < sizes.len() && bin_of(#[trigger] sizes[i], low, w, num_bins) == bin,
    decreases sizes.len(),
{
    let last = sizes.len() - 1;
    if bin_of(sizes.last(), low, w, num_bins) == bin {
        assert(bin_of(sizes[last], low, w, num_bins) == bin);
    } else {
        let front = sizes.drop_last();
        lemma_counted(front, low, w, num_bins, bin);
        let i = choose|i: int|
            0 <= i < front.len() && bin_of(#[trigger] front[i], low, w, num_bins) == bin;
        assert(sizes[i] == front[i]);
    }
}

/// All sizes lie between the smallest and the largest.
proof fn lemma_extremes(sizes: Seq<u16>)
    requires
        sizes.len() > 0,
    ensures
        smallest(sizes) <= largest(sizes),
        forall|i: int|
            0 <= i < sizes.len() ==> smallest(sizes) <= #[trigger] sizes[i] <= largest(sizes),
    decreases sizes.len(),
{
    if sizes.len() > 1 {
        let front = sizes.drop_last();
        lemma_extremes(front);
        assert forall|i: int| 0 <= i < sizes.len() implies smallest(sizes) <= #[trigger] sizes[i]
            <= largest(sizes) by {
            if i < front.len() {
                assert(front[i] == sizes[i]);
            }
        }
    }
}

/// The bins of the peaks among the first `n` bins.
pub open spec fn peak_bins(counts: Seq<nat>, len: nat, n: nat) -> Seq<nat>
    decreases n,
{
    if n == 0 {
        Seq::empty()
    } else {
        let before = peak_bins(counts, len, (n - 1) as nat);
        if is_peak(counts, len, n - 1) {
            before.push((n - 1) as nat)
        } else {
            before
        }
    }
}

/// The counts of the peaks among the first `n` bins.
pub open spec fn peak_counts(counts: Seq<nat>, len: nat, n: nat) -> Seq<nat> {
    peak_bins(counts, len, n).map_values(|bin: nat| counts[bin as int])
}

/// The peaks are those of their bins, in order.
proof fn lemma_peak_bins(counts: Seq<nat>, low: u16, w: Single, len: nat, n: nat)
    ensures
        ({
            let bins = peak_bins(counts, len, n);
            let peaks = peaks_below(counts, low, w, len, n);
            &&& bins.len() == peaks.len()
            &&& forall|k: int|
                0 <= k < bins.len() ==> #[trigger] bins[k] < n && is_peak(
                    counts,
                    len,
                    bins[k] as int,
                ) && peaks[k] == peak_at(counts, low, w, len, bins[k])
            &&& forall|i: int, j: int|
                0 <= i < j < bins.len() ==> #[trigger] bins[i] < #[trigger] bins[j]
        }),
    decreases n,
{
    if n > 0 {
        lemma_peak_bins(counts, low, w, len, (n - 1) as nat);
    }
}

/// The counts of the peaks add up to no more than all counts.
proof fn lemma_peak_sum(counts: Seq<nat>, len: nat, n: nat)
    requires
        n <= counts.len(),
    ensures
        sum_of(peak_counts(counts, len, n)) <= sum_of(counts.take(n as int)),
    decreases n,
{
    if n > 0 {
        let m = (n - 1) as nat;
        lemma_peak_sum(counts, len, m);
        assert(counts.take(n as int).drop_last() =~= counts.take(m as int));
        if is_peak(counts, len, m as int) {
            assert(peak_counts(counts, len, n).drop_last() =~= peak_counts(counts, len, m));
        }
    }
}

/// A count is no more than the sum.
proof fn lemma_one_of_sum(counts: Seq<nat>, k: int)
    requires
        0 <= k < counts.len(),
    ensures
        counts[k] <= sum_of(counts),
    decreases counts.len(),
{
    if k < counts.len() - 1 {
        lemma_one_of_sum(counts.drop_last(), k);
    }
}

/// A difference of a finite number and one that is not negative is a number.
proof fn lemma_difference(a: Single, b: Single)
    requires
        finite_from_zero(a),
        from_zero(b),
    ensures
        !is_nan(SINGLE as nat, minus(a, b).bits as nat),
{
    let half = SINGLE as nat;
    lemma_format(half);
    reveal(minus);
    assert(body(half, negated(half, b.bits as nat)) == b.bits);
}

/// A square is not negative.
proof fn lemma_square(a: Single)
    requires
        !is_nan(SINGLE as nat, a.bits as nat),
    ensures
        from_zero(square(a)),
{
    let half = SINGLE as nat;
    lemma_format(half);
    reveal(times);
    lemma_units_zero(half, a.bits as nat);
}

/// A positive number times one that is not negative is not negative.
proof fn lemma_scaled(a: Single, b: Single)
    requires
        0 < a.bits < 0x7f80_0000,
        from_zero(b),
    ensures
        from_zero(times(a, b)),
{
    let half = SINGLE as nat;
    if b.bits < 0x7f80_0000 {
        lemma_times(a, b, a, b);
    } else {
        lemma_format(half);
        reveal(times);
        lemma_units_zero(half, a.bits as nat);
        lemma_units_zero(half, b.bits as nat);
    }
}

/// A number that is not negative, divided by a positive one, has a root that is not
/// negative.
proof fn lemma_root_of_part(a: Single, b: Single)
    requires
        from_zero(a),
        0 < b.bits < 0x7f80_0000,
    ensures
        from_zero(over(a, b)),
        from_zero(root(over(a, b))),
{
    let half = SINGLE as nat;
    lemma_format(half);
    if a.bits < 0x7f80_0000 {
        lemma_over(a, b, a, b);
    } else {
        reveal(over);
    }
    reveal(root);
    lemma_root_pattern(half, over(a, b).bits as nat);
}

/// The spread of a histogram is not negative.
proof fn lemma_spread(counts: Seq<nat>, low: u16, w: Single, center: Single)
    requires
        finite_from_zero(center),
        forall|j: int| 0 <= j < counts.len() ==> #[trigger] counts[j] <= u64::MAX,
        forall|j: int|
            0 <= j < counts.len() && #[trigger] counts[j] > 0 ==> finite_from_zero(
                bin_center(low, w, j as nat),
            ),
    ensures
        from_zero(spread(counts, low, w, center)),
    decreases counts.len(),
{
    if counts.len() > 0 {
        let front = counts.drop_last();
        let j = counts.len() - 1;
        assert forall|k: int| 0 <= k < front.len() implies #[trigger] front[k] == counts[k] by {}
        lemma_spread(front, low, w, center);
        if counts[j] > 0 {
            let x = bin_center(low, w, j as nat);
            let c = of_int(counts[j]);
            lemma_difference(x, center);
            lemma_square(minus(x, center));
            assert(0 < c.bits < 0x7f80_0000) by {
                reveal(of_int);
                lemma_format(SINGLE as nat);
                law_integer_is_finite(counts[j]);
            }
            let term = times(c, square(minus(x, center)));
            lemma_scaled(c, square(minus(x, center)));
            let before = spread(front, low, w, center);
            lemma_plus(before, term, before, term);
        }
    }
}

/// The sum of sizes is not negative.
proof fn lemma_total(sizes: Seq<u16>)
    ensures
        from_zero(total(sizes)),
    decreases sizes.len(),
{
    if sizes.len() > 0 {
        let x = of_int(sizes.last() as nat);
        lemma_total(sizes.drop_last());
        lemma_small(sizes.last() as nat);
        lemma_plus(total(sizes.drop_last()), x, total(sizes.drop_last()), x);
    }
}

/// The squared distances of sizes from a centre are not negative.
proof fn lemma_distances(sizes: Seq<u16>, centre: Single)
    requires
        from_zero(centre),
    ensures
        from_zero(squared_distances(sizes, centre)),
    decreases sizes.len(),
{
    if sizes.len() > 0 {
        let x = of_int(sizes.last() as nat);
        let before = squared_distances(sizes.drop_last(), centre);
        lemma_distances(sizes.drop_last(), centre);
        lemma_small(sizes.last() as nat);
        lemma_difference(x, centre);
        lemma_square(minus(x, centre));
        lemma_plus(before, square(minus(x, centre)), before, square(minus(x, centre)));
    }
}

/// The standard deviation of sizes is not negative.
proof fn lemma_deviation(sizes: Seq<u16>)
    requires
        sizes.len() <= u64::MAX,
    ensures
        from_zero(deviation(sizes)),
{
    if sizes.len() > 0 {
        let n = of_int(sizes.len());
        assert(0 < n.bits < 0x7f80_0000) by {
            reveal(of_int);
            lemma_format(SINGLE as nat);
            law_integer_is_finite(sizes.len());
        }
        lemma_total(sizes);
        lemma_root_of_part(total(sizes), n);
        lemma_distances(sizes, mean(sizes));
        lemma_root_of_part(squared_distances(sizes, mean(sizes)), n);
    }
}

/// The peaks of a histogram of sizes.
pub open spec fn sample_peaks(sizes: Seq<u16>, num_bins: nat) -> Seq<Mode> {
    let low = smallest(sizes);
    let width = bin_width(low, largest(sizes), num_bins);
    peaks_below(histogram(sizes, low, width, num_bins), low, width, sizes.len(), num_bins)
}

/// The numbers of sizes in the peaks of a histogram.
pub open spec fn sample_peak_counts(sizes: Seq<u16>, num_bins: nat) -> Seq<nat> {
    let low = smallest(sizes);
    let width = bin_width(low, largest(sizes), num_bins);
    peak_counts(histogram(sizes, low, width, num_bins), sizes.len(), num_bins)
}

/// A mode with a deviation that is not negative and a weight above zero and at most one.
pub open spec fn is_sound(mode: Mode) -> bool {
    &&& !single_is_nan(mode.std_dev.bits)
    &&& !less(mode.std_dev, zero())
    &&& !single_is_nan(mode.weight.bits)
    &&& less(zero(), mode.weight)
    &&& !less(of_int(1), mode.weight)
}

/// A mode whose deviation has the pattern of a number that is not negative.
proof fn lemma_sound(mode: Mode, count: nat, len: nat)
    requires
        from_zero(mode.std_dev),
        0 < count <= len <= u64::MAX,
        mode.weight == share(count, len),
    ensures
        is_sound(mode),
{
    lemma_less_by_bits(mode.std_dev, zero());
    law_share_is_a_fraction(count, len);
}

/// The peaks of a histogram are sound modes in ascending order of their centres.
proof fn lemma_peaks(sizes: Seq<u16>, num_bins: nat)
    requires
        0 < sizes.len() <= u64::MAX,
        0 < num_bins <= u64::MAX,
    ensures
        ({
            let peaks = sample_peaks(sizes, num_bins);
            &&& forall|k: int| 0 <= k < peaks.len() ==> is_sound(#[trigger] peaks[k])
            &&& forall|i: int, j: int|
                0 <= i < j < peaks.len() ==> less(
                    (#[trigger] peaks[i]).center,
                    (#[trigger] peaks[j]).center,
                )
        }),
{
    let (low, high) = (smallest(sizes), largest(sizes));
    let w = bin_width(low, high, num_bins);
    let counts = histogram(sizes, low, w, num_bins);
    let len = sizes.len();
    let bins = peak_bins(counts, len, num_bins);
    let peaks = sample_peaks(sizes, num_bins);
    lemma_extremes(sizes);
    lemma_width(low, high, num_bins);
    law_histogram_is_complete(sizes, low, w, num_bins);
    lemma_peak_bins(counts, low, w, len, num_bins);
    assert forall|j: int| 0 <= j < counts.len() && #[trigger] counts[j] > 0 implies j * amount(w)
        <= 65535 * pow2(149) + amount(w) && finite_from_zero(bin_center(low, w, j as nat)) by {
        lemma_counted(sizes, low, w, num_bins, j as nat);
        let i = choose|i: int|
            0 <= i < sizes.len() && bin_of(#[trigger] sizes[i], low, w, num_bins) == j;
        lemma_bin_bounded(sizes[i], low, w, num_bins);
        lemma_center(low, w, j as nat);
    }
    assert forall|j: int| 0 <= j < counts.len() implies #[trigger] counts[j] <= len by {
        lemma_one_of_sum(counts, j);
    }
    let n = of_int(len);
    assert(0 < n.bits < 0x7f80_0000) by {
        reveal(of_int);
        lemma_format(SINGLE as nat);
        law_integer_is_finite(len);
    }
    assert forall|k: int| 0 <= k < peaks.len() implies is_sound(#[trigger] peaks[k]) by {
        let bin = bins[k];
        let center = bin_center(low, w, bin);
        assert(counts[bin as int] > 0);
        lemma_spread(counts, low, w, center);
        lemma_root_of_part(spread(counts, low, w, center), n);
        lemma_sound(peaks[k], counts[bin as int], len);
    }
    assert forall|i: int, j: int| 0 <= i < j < peaks.len() implies less(
        (#[trigger] peaks[i]).center,
        (#[trigger] peaks[j]).center,
    ) by {
        let (a, b) = (bins[i], bins[j]);
        assert(counts[a as int] > 0 && counts[b as int] > 0);
        lemma_centers_in_order(low, w, a, b);
    }
}

/// The modes of packet sizes lie in strictly ascending order of their centres. The
/// deviation of each is not negative, and its weight is above zero and at most one.
pub proof fn law_modes_are_in_order(sizes: Seq<u16>, num_bins: nat)
    requires
        sizes.len() <= u64::MAX,
        num_bins <= u64::MAX,
        sizes.len() > 0 ==> num_bins > 0,
    ensures
        size_modes(sizes, num_bins).len() >= 1,
        forall|k: int|
            0 <= k < size_modes(sizes, num_bins).len() ==> is_sound(
                #[trigger] size_modes(sizes, num_bins)[k],
            ),
        forall|i: int, j: int|
            0 <= i < j < size_modes(sizes, num_bins).len() ==> less(
                (#[trigger] size_modes(sizes, num_bins)[i]).center,
                (#[trigger] size_modes(sizes, num_bins)[j]).center,
            ),
{
    law_whole_share(1);
    lemma_small(32);
    let modes = size_modes(sizes, num_bins);
    if sizes.len() == 0 {
        lemma_sound(modes[0], 1, 1);
    } else {
        lemma_peaks(sizes, num_bins);
        if sample_peaks(sizes, num_bins).len() == 0 {
            lemma_deviation(sizes);
            lemma_sound(modes[0], 1, 1);
        }
    }
}

/// The weight of each peak is its share in the sizes, and the peaks together hold no more
/// sizes than there are.
pub proof fn law_weights_are_shares(sizes: Seq<u16>, num_bins: nat)
    requires
        num_bins > 0,
    ensures
        sample_peaks(sizes, num_bins).len() == sample_peak_counts(sizes, num_bins).len(),
        forall|k: int|
            0 <= k < sample_peaks(sizes, num_bins).len() ==> (#[trigger] sample_peaks(
                sizes,
                num_bins,
            )[k]).weight == share(sample_peak_counts(sizes, num_bins)[k], sizes.len()),
        sum_of(sample_peak_counts(sizes, num_bins)) <= sizes.len(),
        sizes.len() > 0 && sample_peaks(sizes, num_bins).len() > 0 ==> size_modes(sizes, num_bins)
            == sample_peaks(sizes, num_bins),
{
    let low = smallest(sizes);
    let w = bin_width(low, largest(sizes), num_bins);
    let counts = histogram(sizes, low, w, num_bins);
    lemma_peak_bins(counts, low, w, sizes.len(), num_bins);
    lemma_peak_sum(counts, sizes.len(), num_bins);
    assert(counts.take(num_bins as int) =~= counts);
    law_histogram_is_complete(sizes, low, w, num_bins);
}

/// The smallest size of a sample is one of its sizes, and none is smaller; the largest is one of
/// its sizes, and none is larger.
pub proof fn law_extremes_bound_sizes(sizes: Seq<u16>)
    requires
        sizes.len() > 0,
    ensures
        sizes.contains(smallest(sizes)),
        sizes.contains(largest(sizes)),
        forall|i: int|
            0 <= i < sizes.len() ==> smallest(sizes) <= #[trigger] sizes[i] <= largest(sizes),
    decreases sizes.len(),
{
    assert(sizes[sizes.len() - 1] == sizes.last());
    if sizes.len() > 1 {
        let front = sizes.drop_last();
        law_extremes_bound_sizes(front);
        let j = choose|j: int| 0 <= j < front.len() && front[j] == smallest(front);
        let k = choose|k: int| 0 <= k < front.len() && front[k] == largest(front);
        assert(sizes[j] == front[j] && sizes[k] == front[k]);
        assert forall|i: int| 0 <= i < sizes.len() implies smallest(sizes) <= #[trigger] sizes[i]
            <= largest(sizes) by {
            if i < front.len() {
                assert(front[i] == sizes[i]);
            }
        }
    }
}

/// A bin counts the sizes that fall into it.
proof fn lemma_bin_filtered(sizes: Seq<u16>, low: u16, width: Single, num_bins: nat, bin: nat)
    ensures
        bin_count(sizes, low, width, num_bins, bin) == sizes.filter(
            |size: u16| bin_of(size, low, width, num_bins) == bin,
        ).len(),
    decreases sizes.len(),
{
    reveal(Seq::filter);
    if sizes.len() > 0 {
        lemma_bin_filtered(sizes.drop_last(), low, width, num_bins, bin);
    }
}

/// A number of sizes below `2^24` keeps its value in single precision.
proof fn lemma_len_kept(len: nat)
    requires
        len < 0x100_0000,
    ensures
        rounded_len(len) == len,
{
    let half = SINGLE as nat;
    lemma_small(len);
    reveal(whole);
    lemma_format(half);
    lemma_pow2_pos(149);
    vstd::arithmetic::div_mod::lemma_div_multiples_vanish(len as int, pow2(149) as int);
    assert(len * pow2(149) == pow2(149) * len) by (nonlinear_arith);
}

/// The peaks below a bound are those of the bins that pass the test, in their order.
proof fn lemma_peaks_filtered(counts: Seq<nat>, low: u16, width: Single, len: nat, n: nat)
    ensures
        ({
            let bins = Seq::new(n, |b: int| b).filter(|b: int| is_peak(counts, len, b));
            let found = peaks_below(counts, low, width, len, n);
            &&& found.len() == bins.len()
            &&& forall|k: int| 0 <= k < bins.len() ==> 0 <= #[trigger] bins[k] < n
            &&& forall|k: int|
                0 <= k < found.len() ==> #[trigger] found[k] == peak_at(
                    counts,
                    low,
                    width,
                    len,
                    bins[k] as nat,
                )
        }),
    decreases n,
{
    reveal(Seq::filter);
    if n > 0 {
        let all = Seq::new(n, |b: int| b);
        lemma_peaks_filtered(counts, low, width, len, (n - 1) as nat);
        assert(all.drop_last() =~= Seq::new((n - 1) as nat, |b: int| b));
        assert(all.last() == n - 1);
        let before = Seq::new((n - 1) as nat, |b: int| b).filter(|b: int| is_peak(counts, len, b));
        let bins = all.filter(|b: int| is_peak(counts, len, b));
        let earlier = peaks_below(counts, low, width, len, (n - 1) as nat);
        let found = peaks_below(counts, low, width, len, n);
        assert(bins == if is_peak(counts, len, n - 1) {
            before.push(n - 1)
        } else {
            before
        });
        assert forall|k: int| 0 <= k < bins.len() implies 0 <= #[trigger] bins[k] < n by {
            if k < before.len() {
                assert(bins[k] == before[k]);
            }
        }
        assert forall|k: int| 0 <= k < found.len() implies #[trigger] found[k] == peak_at(
            counts,
            low,
            width,
            len,
            bins[k] as nat,
        ) by {
            if k < earlier.len() {
                assert(found[k] == earlier[k]);
                assert(bins[k] == before[k]);
            }
        }
    }
}

/// The modes of fewer than `2^24` sizes are the bins, in ascending order, that hold more sizes
/// than either neighbour and more than a twentieth of all; the first and the last bin are none.
/// Each mode lies in the middle of its bin and has the share of the sizes that fall into it.
/// Where there is no such bin, all sizes are one mode of weight one with their mean and their
/// deviation, and where there are no sizes, it is 64 with a deviation of 32.
pub proof fn law_modes_are_the_peaks(sizes: Seq<u16>, num_bins: nat)
    requires
        sizes.len() < 0x100_0000,
        num_bins > 0,
    ensures
        sizes.len() == 0 ==> size_modes(sizes, num_bins) == seq![
            Mode { center: of_int(64), std_dev: of_int(32), weight: of_int(1) },
        ],
        sizes.len() > 0 ==> ({
            let low = smallest(sizes);
            let width = bin_width(low, largest(sizes), num_bins);
            let count = |bin: int|
                sizes.filter(|size: u16| bin_of(size, low, width, num_bins) == bin).len();
            let bins = Seq::new(num_bins, |b: int| b).filter(
                |b: int|
                    1 <= b < num_bins - 1 && count(b) > count(b - 1) && count(b) > count(b + 1)
                        && count(b) > sizes.len() / 20,
            );
            let modes = size_modes(sizes, num_bins);
            &&& bins.len() == 0 ==> modes == seq![
                Mode { center: mean(sizes), std_dev: deviation(sizes), weight: of_int(1) },
            ]
            &&& bins.len() > 0 ==> modes.len() == bins.len() && forall|k: int|
                0 <= k < modes.len() ==> (#[trigger] modes[k]).center == plus(
                    of_int(low as nat),
                    times(plus(of_int(bins[k] as nat), fraction(1, 2)), width),
                ) && modes[k].weight == share(count(bins[k]), sizes.len())
        }),
{
    if sizes.len() > 0 {
        let low = smallest(sizes);
        let width = bin_width(low, largest(sizes), num_bins);
        let len = sizes.len();
        let counts = histogram(sizes, low, width, num_bins);
        let count = |bin: int|
            sizes.filter(|size: u16| bin_of(size, low, width, num_bins) == bin).len();
        let test = |b: int|
            1 <= b < num_bins - 1 && count(b) > count(b - 1) && count(b) > count(b + 1) && count(b)
                > len / 20;
        lemma_len_kept(len);
        assert forall|b: int| 0 <= b < num_bins implies #[trigger] counts[b] == count(b) by {
            lemma_bin_filtered(sizes, low, width, num_bins, b as nat);
            let exact = |size: u16| bin_of(size, low, width, num_bins) == b as nat;
            let other = |size: u16| bin_of(size, low, width, num_bins) == b;
            assert(exact =~= other);
        }
        let peak = |b: int| is_peak(counts, len, b);
        assert forall|b: int| #[trigger] peak(b) == test(b) by {
            if 1 <= b < num_bins - 1 {
                assert(counts[b] == count(b) && counts[b - 1] == count(b - 1) && counts[b + 1]
                    == count(b + 1));
            }
        }
        assert(peak =~= test);
        lemma_peaks_filtered(counts, low, width, len, num_bins);
        let bins = Seq::new(num_bins, |b: int| b).filter(test);
        let found = peaks_below(counts, low, width, len, num_bins);
        assert forall|k: int| 0 <= k < found.len() implies (#[trigger] found[k]).center == plus(
            of_int(low as nat),
            times(plus(of_int(bins[k] as nat), fraction(1, 2)), width),
        ) && found[k].weight == share(count(bins[k]), len) by {
            assert(found[k] == peak_at(counts, low, width, len, bins[k] as nat));
            assert(counts[bins[k]] == count(bins[k]));
        }
    }
}

/// Where the sizes span no more than as many bytes as there are bins, each bin is one byte
/// wide: a size falls into the bin of its distance from the smallest one, and the last bin takes
/// what lies beyond it.
pub proof fn law_narrow_bins_are_one_byte(size: u16, low: u16, high: u16, num_bins: nat)
    requires
        low <= size <= high,
        high - low <= num_bins < 0x100_0000,
        num_bins > 0,
    ensures
        bin_width(low, high, num_bins) == of_int(1),
        bin_of(size, low, bin_width(low, high, num_bins), num_bins) == if size - low < num_bins {
            (size - low) as nat
        } else {
            (num_bins - 1) as nat
        },
{
    let half = SINGLE as nat;
    let p = pow2(149);
    let range = (high - low) as nat;
    lemma_format(half);
    lemma_pow2_pos(149);
    lemma_small(1);
    lemma_small(range);
    lemma_small(num_bins);
    // The width.
    let q = over(of_int(range), of_int(num_bins));
    lemma_ints(range, num_bins);
    lemma_over(of_int(range), of_int(num_bins), of_int(num_bins), of_int(num_bins));
    law_whole_share(num_bins);
    lemma_less_by_bits(q, of_int(1));
    assert(bin_width(low, high, num_bins) == of_int(1)) by {
        if q.bits == of_int(1).bits {
            assert(q == of_int(1));
        }
    }
    // The distance from the smallest size.
    let d = (size - low) as nat;
    lemma_small(size as nat);
    lemma_small(low as nat);
    lemma_small(d);
    let z = minus(of_int(size as nat), of_int(low as nat));
    assert(z == of_int(d)) by {
        reveal(minus);
        lemma_exact_difference(size as nat, low as nat);
    }
    lemma_over_one(of_int(d));
    assert(whole(of_int(d), (num_bins - 1) as nat) == if d < num_bins {
        d
    } else {
        (num_bins - 1) as nat
    }) by {
        reveal(whole);
        vstd::arithmetic::div_mod::lemma_div_multiples_vanish(d as int, p as int);
        assert(d * p == p * d) by (nonlinear_arith);
    }
}

/// The difference of two small integers is exact.
proof fn lemma_exact_difference(a: nat, b: nat)
    requires
        b <= a < 0x100_0000,
    ensures
        minus(of_int(a), of_int(b)) == of_int((a - b) as nat),
{
    let half = SINGLE as nat;
    let p = pow2(149);
    let d = (a - b) as nat;
    lemma_format(half);
    lemma_pow2_pos(149);
    lemma_small(a);
    lemma_small(b);
    lemma_small(d);
    reveal(minus);
    let (x, y) = (of_int(a).bits as nat, of_int(b).bits as nat);
    assert(body(half, negated(half, y)) == y);
    assert(a * p - b * p == d * p) by (nonlinear_arith)
        requires
            d == a - b,
    ;
    law_nearest_to_itself(half, of_int(d).bits as nat);
    lemma_units_zero(half, of_int(d).bits as nat);
    if d > 0 {
        assert(a * p > b * p) by (nonlinear_arith)
            requires
                a > b,
                p > 0,
        ;
    }
}

/// Where the sizes span more bytes than there are bins, the bins divide the span evenly: a size
/// falls into the bin that its distance from the smallest one reaches, to within one part in
/// `2^20`; the last bin takes what lies beyond it.
pub proof fn law_wide_bins_divide_span(size: u16, low: u16, high: u16, num_bins: nat)
    requires
        low <= size <= high,
        0 < num_bins < high - low,
    ensures
        ({
            let bin = bin_of(size, low, bin_width(low, high, num_bins), num_bins);
            let range = high - low;
            let distance = size - low;
            &&& bin <= num_bins - 1
            &&& (bin * range) * 0x10_0000 <= (distance * num_bins) * 0x10_0001
            &&& bin < num_bins - 1 ==> (distance * num_bins) * 0x10_0000 <= ((bin + 1) * range)
                * 0x10_0001
        }),
{
    let half = SINGLE as nat;
    let p = pow2(149) as int;
    let range = (high - low) as nat;
    let d = (size - low) as nat;
    lemma_format(half);
    lemma_pow2_pos(149);
    lemma_pow2_strictly_increases(63, 149);
    lemma2_to64_rest();
    lemma_small(1);
    lemma_small(range);
    lemma_small(num_bins);
    lemma_small(d);
    lemma_width(low, high, num_bins);
    let w = over(of_int(range), of_int(num_bins));
    let width = bin_width(low, high, num_bins);
    // The width is the quotient.
    lemma_ints(num_bins, range);
    lemma_over(of_int(num_bins), of_int(num_bins), of_int(range), of_int(num_bins));
    law_whole_share(num_bins);
    lemma_less_by_bits(w, of_int(1));
    assert(width == w);
    assert(amount(w) <= 65535 * p);
    let (r, v) = (range * pow2(149), num_bins * pow2(149));
    reveal(over);
    assert(r >= v && v > 0) by (nonlinear_arith)
        requires
            r == range * p,
            v == num_bins * p,
            num_bins < range,
            num_bins > 0,
            p > 0,
    ;
    assert(r * p >= half * v) by (nonlinear_arith)
        requires
            r >= v,
            v > 0,
            p >= half,
            half >= 0,
    ;
    law_quotient_error(half, of_int(range).bits as nat, of_int(num_bins).bits as nat);
    let uw = amount(w) as int;
    assert(uw * v == (uw * num_bins) * p && r * p == (range * p) * p) by (nonlinear_arith)
        requires
            r == range * p,
            v == num_bins * p,
    ;
    lemma_near_scaled(uw * num_bins, range * p, p, 0x100_0000);
    // The number of widths to the size.
    lemma_exact_difference(size as nat, low as nat);
    let q = over(of_int(d), w);
    let dp = d * pow2(149);
    let n = dp * pow2(149);
    assert(n * 1 <= dp * uw) by (nonlinear_arith)
        requires
            n == dp * p,
            uw >= p,
            dp >= 0,
    ;
    law_nearest_to_itself(half, of_int(d).bits as nat);
    law_nearest_keeps_order(half, n, uw as nat, d * pow2(149), 1);
    assert(q.bits == nearest(half, n, uw as nat));
    lemma_rounding_bound(half, n, uw as nat);
    let uq = amount(q) as int;
    let b = bin_of(size, low, width, num_bins);
    let floor = (uq as nat / pow2(149)) as int;
    vstd::arithmetic::div_mod::lemma_fundamental_div_mod(uq, p);
    assert(b == if floor > num_bins - 1 {
        num_bins - 1
    } else {
        floor
    }) by {
        reveal(whole);
    }
    assert(floor * p <= uq < (floor + 1) * p) by (nonlinear_arith)
        requires
            uq == p * floor + uq % p,
            0 <= uq % p < p,
    ;
    assert(half * uw == 0x80_0000 * uw);
    lemma_bin_bounds(b as int, floor, uq, uw, d as int, range as int, num_bins as int, p);
}

/// The bounds of a bin.
proof fn lemma_bin_bounds(b: int, floor: int, q: int, w: int, d: int, range: int, bins: int, p: int)
    requires
        p >= 0x4000_0000_0000_0000,
        w >= p,
        q >= 0,
        d >= 0,
        range > 0,
        bins > 0,
        0 <= b <= floor,
        b < bins - 1 ==> b == floor,
        floor * p <= q < (floor + 1) * p,
        near(w * bins, range * p, 0x100_0000),
        -((d * p) * p + 0x80_0000 * w) <= (q * w - (d * p) * p) * 0x100_0000 <= (d * p) * p
            + 0x80_0000 * w,
        w <= 65535 * p,
    ensures
        (b * range) * 0x10_0000 <= (d * bins) * 0x10_0001,
        b < bins - 1 ==> (d * bins) * 0x10_0000 <= ((b + 1) * range) * 0x10_0001,
{
    let dp = d * p;
    let small = 549747425280int;
    assert(0x80_0000 * w <= small * p);
    assert(b * p <= q) by (nonlinear_arith)
        requires
            b <= floor,
            floor * p <= q,
            p > 0,
    ;
    assert(dp >= 0) by (nonlinear_arith)
        requires
            dp == d * p,
            d >= 0,
            p > 0,
    ;
    // Both sides in units of the ones place.
    if b > 0 {
        assert(b * w <= 2 * dp + small) by (nonlinear_arith)
            requires
                b * p <= q,
                (q * w - dp * p) * 0x100_0000 <= dp * p + small * p,
                w >= p,
                p > 0,
                dp >= 0,
                small >= 0,
                q >= 0,
        {
            assert((b * p) * w <= q * w) by (nonlinear_arith)
                requires
                    b * p <= q,
                    w >= 0,
            ;
            assert(dp * p >= 0 && small * p >= 0) by (nonlinear_arith)
                requires
                    dp >= 0,
                    small >= 0,
                    p > 0,
            ;
            assert(q * w <= 2 * (dp * p) + small * p);
            assert((b * w) * p == (b * p) * w) by (nonlinear_arith);
            assert((b * w) * p <= (2 * dp + small) * p) by (nonlinear_arith)
                requires
                    (b * w) * p <= 2 * (dp * p) + small * p,
            ;
            assert(b * w <= 2 * dp + small) by (nonlinear_arith)
                requires
                    (b * w) * p <= (2 * dp + small) * p,
                    p > 0,
            ;
        }
        assert(d >= 1) by (nonlinear_arith)
            requires
                b * w <= 2 * dp + small,
                b >= 1,
                w >= p,
                p > small,
                dp == d * p,
                d >= 0,
                p >= 0x4000_0000_0000_0000,
                small == 549747425280,
        ;
    }
    let z = dp * p;
    assert(z >= 0 && small * p >= 0) by (nonlinear_arith)
        requires
            z == dp * p,
            dp == d * p,
            d >= 0,
            p > 0,
            small >= 0,
    ;
    if d >= 1 {
        assert(small * p * 0x100 <= z) by (nonlinear_arith)
            requires
                z == dp * p,
                dp == d * p,
                d >= 1,
                p >= small * 0x100,
                p > 0,
                small >= 0,
        {
            assert(dp >= p) by (nonlinear_arith)
                requires
                    dp == d * p,
                    d >= 1,
                    p > 0,
            ;
            assert(dp * p >= p * p) by (nonlinear_arith)
                requires
                    dp >= p,
                    p > 0,
            ;
            assert(p * p >= (small * 0x100) * p) by (nonlinear_arith)
                requires
                    p >= small * 0x100,
                    p > 0,
            ;
            assert((small * 0x100) * p == small * p * 0x100) by (nonlinear_arith);
        }
        assert(-z <= (q * w - z) * 0x80_0000 <= z);
    }
    let u = w * bins;
    if b > 0 {
        // The lower bound.
        assert((b * p) * w <= q * w) by (nonlinear_arith)
            requires
                b * p <= q,
                w >= 0,
        ;
        let bw = b * w;
        assert((b * p) * w == bw * p) by (nonlinear_arith)
            requires
                bw == b * w,
        ;
        assert(bw * 0x80_0000 <= dp * 0x80_0001) by (nonlinear_arith)
            requires
                (bw * p) * 0x80_0000 <= (dp * p) * 0x80_0001,
                p > 0,
        ;
        lemma_lower(b, w, d, range, bins, p);
    } else {
        assert(b * range == 0 && d * bins >= 0) by (nonlinear_arith)
            requires
                b == 0,
                d >= 0,
                bins > 0,
        ;
    }
    if b < bins - 1 {
        if d >= 1 {
            let c = floor + 1;
            assert(q * w <= (c * p) * w) by (nonlinear_arith)
                requires
                    q < c * p,
                    w >= 0,
            ;
            let cw = c * w;
            assert((c * p) * w == cw * p) by (nonlinear_arith)
                requires
                    cw == c * w,
            ;
            assert(dp * 0x7f_ffff <= cw * 0x80_0000) by (nonlinear_arith)
                requires
                    (dp * p) * 0x7f_ffff <= (cw * p) * 0x80_0000,
                    p > 0,
            ;
            lemma_upper(c, w, d, range, bins, p);
        } else {
            assert(d * bins == 0 && (b + 1) * range >= 0) by (nonlinear_arith)
                requires
                    d == 0,
                    b >= 0,
                    range > 0,
            ;
        }
    }
}

/// A bin does not start behind the size.
proof fn lemma_lower(b: int, w: int, d: int, range: int, bins: int, p: int)
    requires
        (b * w) * 0x80_0000 <= (d * p) * 0x80_0001,
        near(w * bins, range * p, 0x100_0000),
        b >= 0,
        d >= 0,
        bins > 0,
        range > 0,
        p > 0,
    ensures
        (b * range) * 0x10_0000 <= (d * bins) * 0x10_0001,
{
    let (x, y) = (b * range, d * bins);
    let u = w * bins;
    assert(x >= 0 && y >= 0) by (nonlinear_arith)
        requires
            x == b * range,
            y == d * bins,
            b >= 0,
            d >= 0,
            range > 0,
            bins > 0,
    ;
    assert((b * u) * 0x80_0000 <= (y * p) * 0x80_0001) by (nonlinear_arith)
        requires
            (b * w) * 0x80_0000 <= (d * p) * 0x80_0001,
            u == w * bins,
            y == d * bins,
            bins > 0,
    {
        assert(((b * w) * 0x80_0000) * bins <= ((d * p) * 0x80_0001) * bins) by (nonlinear_arith)
            requires
                (b * w) * 0x80_0000 <= (d * p) * 0x80_0001,
                bins > 0,
        ;
        assert(((b * w) * 0x80_0000) * bins == (b * u) * 0x80_0000) by (nonlinear_arith)
            requires
                u == w * bins,
        ;
        assert(((d * p) * 0x80_0001) * bins == (y * p) * 0x80_0001) by (nonlinear_arith)
            requires
                y == d * bins,
        ;
    }
    assert((x * p) * 0xff_ffff <= (b * u) * 0x100_0000) by (nonlinear_arith)
        requires
            -(range * p) <= (u - range * p) * 0x100_0000,
            x == b * range,
            b >= 0,
    {
        assert((range * p) * 0xff_ffff <= u * 0x100_0000);
        assert(b * ((range * p) * 0xff_ffff) <= b * (u * 0x100_0000)) by (nonlinear_arith)
            requires
                (range * p) * 0xff_ffff <= u * 0x100_0000,
                b >= 0,
        ;
        assert(b * ((range * p) * 0xff_ffff) == (x * p) * 0xff_ffff) by (nonlinear_arith)
            requires
                x == b * range,
        ;
        assert(b * (u * 0x100_0000) == (b * u) * 0x100_0000) by (nonlinear_arith);
    }
    assert((x * p) * 0xff_ffff <= 2 * ((y * p) * 0x80_0001));
    assert(x * 0xff_ffff <= 2 * (y * 0x80_0001)) by (nonlinear_arith)
        requires
            (x * p) * 0xff_ffff <= 2 * ((y * p) * 0x80_0001),
            p > 0,
    ;
}

/// A bin does not end before the size.
proof fn lemma_upper(c: int, w: int, d: int, range: int, bins: int, p: int)
    requires
        (d * p) * 0x7f_ffff <= (c * w) * 0x80_0000,
        near(w * bins, range * p, 0x100_0000),
        c >= 0,
        d >= 0,
        bins > 0,
        range > 0,
        p > 0,
    ensures
        (d * bins) * 0x10_0000 <= (c * range) * 0x10_0001,
{
    let (x, y) = (c * range, d * bins);
    let u = w * bins;
    assert(x >= 0 && y >= 0) by (nonlinear_arith)
        requires
            x == c * range,
            y == d * bins,
            c >= 0,
            d >= 0,
            range > 0,
            bins > 0,
    ;
    assert((y * p) * 0x7f_ffff <= (c * u) * 0x80_0000) by (nonlinear_arith)
        requires
            (d * p) * 0x7f_ffff <= (c * w) * 0x80_0000,
            u == w * bins,
            y == d * bins,
            bins > 0,
    {
        assert(((d * p) * 0x7f_ffff) * bins <= ((c * w) * 0x80_0000) * bins) by (nonlinear_arith)
            requires
                (d * p) * 0x7f_ffff <= (c * w) * 0x80_0000,
                bins > 0,
        ;
        assert(((c * w) * 0x80_0000) * bins == (c * u) * 0x80_0000) by (nonlinear_arith)
            requires
                u == w * bins,
        ;
        assert(((d * p) * 0x7f_ffff) * bins == (y * p) * 0x7f_ffff) by (nonlinear_arith)
            requires
                y == d * bins,
        ;
    }
    assert((c * u) * 0x100_0000 <= (x * p) * 0x100_0001) by (nonlinear_arith)
        requires
            (u - range * p) * 0x100_0000 <= range * p,
            x == c * range,
            c >= 0,
    {
        assert(u * 0x100_0000 <= (range * p) * 0x100_0001);
        assert(c * (u * 0x100_0000) <= c * ((range * p) * 0x100_0001)) by (nonlinear_arith)
            requires
                u * 0x100_0000 <= (range * p) * 0x100_0001,
                c >= 0,
        ;
        assert(c * ((range * p) * 0x100_0001) == (x * p) * 0x100_0001) by (nonlinear_arith)
            requires
                x == c * range,
        ;
        assert(c * (u * 0x100_0000) == (c * u) * 0x100_0000) by (nonlinear_arith);
    }
    assert(2 * ((y * p) * 0x7f_ffff) <= (x * p) * 0x100_0001);
    assert(2 * (y * 0x7f_ffff) <= x * 0x100_0001) by (nonlinear_arith)
        requires
            2 * ((y * p) * 0x7f_ffff) <= (x * p) * 0x100_0001,
            p > 0,
    ;
}

/// The deviation of a mode is the root of the mean square distance of all sizes from its centre,
/// each size taken at the middle of its bin: the squares are weighted by the counts, added from
/// the first bin that holds sizes to the last, and divided by the number of sizes.
pub proof fn law_mode_deviation_is_of_all_sizes(
    counts: Seq<nat>,
    low: u16,
    width: Single,
    len: nat,
    bin: nat,
)
    ensures
        ({
            let center = |b: int|
                plus(of_int(low as nat), times(plus(of_int(b as nat), fraction(1, 2)), width));
            let mode = peak_at(counts, low, width, len, bin);
            mode.std_dev == root(
                over(
                    Seq::new(counts.len(), |b: int| b).fold_left(
                        zero(),
                        |acc: Single, b: int|
                            if counts[b] == 0 {
                                acc
                            } else {
                                plus(
                                    acc,
                                    times(
                                        of_int(counts[b]),
                                        square(minus(center(b), center(bin as int))),
                                    ),
                                )
                            },
                    ),
                    of_int(len),
                ),
            )
        }),
{
    let center = |b: int|
        plus(of_int(low as nat), times(plus(of_int(b as nat), fraction(1, 2)), width));
    let step = |acc: Single, b: int|
        if counts[b] == 0 {
            acc
        } else {
            plus(acc, times(of_int(counts[b]), square(minus(center(b), center(bin as int)))))
        };
    assert(center(bin as int) == bin_center(low, width, bin));
    assert forall|acc: Single, b: int| 0 <= b < counts.len() implies #[trigger] step(acc, b)
        == if counts[b] == 0 {
        acc
    } else {
        plus(
            acc,
            times(
                of_int(counts[b]),
                square(minus(bin_center(low, width, b as nat), bin_center(low, width, bin))),
            ),
        )
    } by {
        assert(center(b) == bin_center(low, width, b as nat));
    }
    lemma_spread_folded(counts, low, width, bin_center(low, width, bin), counts.len(), step);
    assert(counts.take(counts.len() as int) =~= counts);
}

/// The spread of the first bins, added one after the other.
proof fn lemma_spread_folded(
    counts: Seq<nat>,
    low: u16,
    width: Single,
    center: Single,
    n: nat,
    step: spec_fn(Single, int) -> Single,
)
    requires
        n <= counts.len(),
        forall|acc: Single, b: int|
            0 <= b < counts.len() ==> #[trigger] step(acc, b) == if counts[b] == 0 {
                acc
            } else {
                plus(
                    acc,
                    times(
                        of_int(counts[b]),
                        square(minus(bin_center(low, width, b as nat), center)),
                    ),
                )
            },
    ensures
        spread(counts.take(n as int), low, width, center) == Seq::new(n, |b: int| b).fold_left(
            zero(),
            step,
        ),
    decreases n,
{
    reveal(Seq::fold_left);
    if n > 0 {
        let all = Seq::new(n, |b: int| b);
        lemma_spread_folded(counts, low, width, center, (n - 1) as nat, step);
        assert(all.drop_last() =~= Seq::new((n - 1) as nat, |b: int| b));
        assert(all.last() == n - 1);
        assert(counts.take(n as int).drop_last() =~= counts.take(n - 1));
        assert(counts.take(n as int).last() == counts[n - 1]);
    }
}

} // verus!
