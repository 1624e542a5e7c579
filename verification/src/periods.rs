//! Periods of inter-arrival times.
use crate::arrivals::{deviation, mean, mean_f64, std_dev_f64};
use crate::float_bits::{
    double_key, double_less, double_lt, double_value, law_double_key_orders,
    law_patterns_order_numbers, order_key,
};
use crate::ieee::{
    infinity, law_nearest_to_itself, lemma_format, lemma_pattern_units, lemma_units_zero, quotient,
    quotient_of, shorten, shortened, units,
};
use crate::ks::{all_numbers, count_up_to, lemma_count_by_keys};
use crate::monotone::law_nearest_keeps_order;
use crate::single::{of_int, Single};
use crate::soft_float::DOUBLE;
use crate::sorting::{ascending, keys_of, keys_up_to, lemma_count_unordered, sorted_keys};
use crate::stats::{share, share_of};
use vstd::arithmetic::power2::{lemma2_to64_rest, lemma_pow2_adds, lemma_pow2_pos, pow2};
use vstd::prelude::*;

verus! {

/// A period of inter-arrival times.
#[derive(Debug, Clone, Copy, PartialEq, Eq, Structural)]
pub struct Period {
    /// The mean time between packets, in milliseconds.
    pub period_ms: Single,
    /// The standard deviation of that time, in milliseconds.
    pub jitter_ms: Single,
    /// The share of the packets that follow the period.
    pub weight: Single,
}

/// `1e-9` in double precision: a mean below it is no period.
pub const NO_TIME: u64 = 0x3e11_2e0b_e826_d695;

/// `0.3` in double precision: the relative deviation below which times are steady.
pub const STEADY: u64 = 0x3fd3_3333_3333_3333;

/// A double-precision number in single precision.
pub open spec fn single_of(a: nat) -> Single {
    Single { bits: shortened(a) as u32 }
}

/// The period of a sample that is a part of `len` times.
pub open spec fn period_of(part: Seq<u64>, len: nat) -> Period {
    Period {
        period_ms: single_of(mean(DOUBLE as nat, part)),
        jitter_ms: single_of(deviation(DOUBLE as nat, part)),
        weight: share(part.len(), len),
    }
}

/// The number of elements of a sample that are less than `x`.
pub open spec fn count_less(sample: Seq<u64>, x: u64) -> nat
    decreases sample.len(),
{
    if sample.len() == 0 {
        0
    } else {
        count_less(sample.drop_last(), x) + if double_value(sample.last()) < double_value(x) {
            1nat
        } else {
            0
        }
    }
}

/// An element that stands in the middle when the sample is sorted; of an even number
/// of elements, the upper one of the two in the middle.
pub open spec fn is_median(sample: Seq<u64>, x: u64) -> bool {
    sample.contains(x) && count_less(sample, x) <= sample.len() / 2 < count_up_to(sample, x)
}

/// The elements of a sample up to `x`, or those above it, in order.
pub open spec fn side(sample: Seq<u64>, x: u64, upper: bool) -> Seq<u64>
    decreases sample.len(),
{
    if sample.len() == 0 {
        Seq::empty()
    } else {
        let before = side(sample.drop_last(), x, upper);
        if (double_value(sample.last()) > double_value(x)) == upper {
            before.push(sample.last())
        } else {
            before
        }
    }
}

/// The periods of times on either side of `x`.
pub open spec fn two_periods(sample: Seq<u64>, x: u64) -> Seq<Period> {
    let low = side(sample, x, false);
    let high = side(sample, x, true);
    let first = if low.len() == 0 {
        Seq::empty()
    } else {
        seq![period_of(low, sample.len())]
    };
    if high.len() == 0 {
        first
    } else {
        first.push(period_of(high, sample.len()))
    }
}

/// Times vary so much, in relation to their mean, that they are split in two.
pub open spec fn is_split(sample: Seq<u64>) -> bool {
    let m = mean(DOUBLE as nat, sample) as u64;
    let s = deviation(DOUBLE as nat, sample) as u64;
    &&& sample.len() >= 10
    &&& !double_less(m, NO_TIME)
    &&& !double_less(quotient(DOUBLE as nat, s as nat, m as nat) as u64, STEADY)
}

/// The periods of a sample of inter-arrival times: none for fewer than ten times or a
/// vanishing mean, one for steady times, and otherwise those on either side of the
/// median.
pub open spec fn are_periods(sample: Seq<u64>, periods: Seq<Period>) -> bool {
    let m = mean(DOUBLE as nat, sample) as u64;
    let s = deviation(DOUBLE as nat, sample) as u64;
    if sample.len() < 10 || double_less(m, NO_TIME) {
        periods == Seq::<Period>::empty()
    } else if !is_split(sample) {
        periods == seq![
            Period {
                period_ms: single_of(m as nat),
                jitter_ms: single_of(s as nat),
                weight: of_int(1),
            },
        ]
    } else {
        exists|x: u64| #[trigger] is_median(sample, x) && periods == two_periods(sample, x)
    }
}

/// Counting smaller elements by keys is counting them by numbers.
proof fn lemma_less_by_keys(sample: Seq<u64>, x: u64)
    ensures
        count_less(sample, x) == if double_key(x) as i64 > i64::MIN {
            keys_up_to(keys_of(sample), (double_key(x) - 1) as i64)
        } else {
            0
        },
    decreases sample.len(),
{
    let keys = keys_of(sample);
    if sample.len() > 0 {
        assert(keys.drop_last() =~= keys_of(sample.drop_last()));
        lemma_less_by_keys(sample.drop_last(), x);
        law_double_key_orders(sample.last(), x);
    }
}

/// The key that stands in the middle belongs to a median.
proof fn lemma_middle_is_median(sample: Seq<u64>, sorted: Seq<i64>, x: u64)
    requires
        sample.len() > 0,
        sorted.to_multiset() == keys_of(sample).to_multiset(),
        ascending(sorted),
        sorted.len() == sample.len(),
        sample.contains(x),
        double_key(x) == sorted[sample.len() as int / 2],
    ensures
        is_median(sample, x),
{
    let middle = sample.len() as int / 2;
    let k = sorted[middle];
    lemma_count_by_keys(sample, x);
    lemma_count_unordered(sorted, keys_of(sample), k);
    lemma_at_least(sorted, k, middle + 1);
    lemma_less_by_keys(sample, x);
    if k > i64::MIN {
        lemma_count_unordered(sorted, keys_of(sample), (k - 1) as i64);
        lemma_at_most(sorted, (k - 1) as i64, middle);
    }
}

/// In ascending keys, the first `n` keys up to `k` are counted.
proof fn lemma_at_least(keys: Seq<i64>, k: i64, n: int)
    requires
        0 <= n <= keys.len(),
        forall|i: int| 0 <= i < n ==> #[trigger] keys[i] <= k,
    ensures
        keys_up_to(keys, k) >= n,
    decreases keys.len(),
{
    if keys.len() > 0 {
        let front = keys.drop_last();
        if n == keys.len() {
            lemma_at_least(front, k, n - 1);
        } else {
            lemma_at_least(front, k, n);
        }
    }
}

/// Where the keys from `n` on are above `k`, at most `n` are counted.
proof fn lemma_at_most(keys: Seq<i64>, k: i64, n: int)
    requires
        0 <= n <= keys.len(),
        forall|i: int| n <= i < keys.len() ==> #[trigger] keys[i] > k,
    ensures
        keys_up_to(keys, k) <= n,
    decreases keys.len(),
{
    if keys.len() > 0 {
        let front = keys.drop_last();
        if n == keys.len() {
            lemma_at_most(front, k, n - 1);
        } else {
            lemma_at_most(front, k, n);
        }
    }
}

/// Splits times at a key: those up to it and those above it.
fn split_at_key(iats: &Vec<u64>, key: i64, Ghost(x): Ghost<u64>) -> (r: (Vec<u64>, Vec<u64>))
    requires
        key == double_key(x),
    ensures
        r.0@ == side(iats@, x, false),
        r.1@ == side(iats@, x, true),
{
    let mut low: Vec<u64> = Vec::new();
    let mut high: Vec<u64> = Vec::new();
    let mut i: usize = 0;
    assert(iats@.take(0) =~= Seq::<u64>::empty());
    while i < iats.len()
        invariant
            i <= iats@.len(),
            key == double_key(x),
            low@ == side(iats@.take(i as int), x, false),
            high@ == side(iats@.take(i as int), x, true),
        decreases iats@.len() - i,
    {
        let bits: u64 = iats[i];
        proof {
            let next = iats@.take(i + 1);
            assert(next.drop_last() =~= iats@.take(i as int));
            assert(next.last() == bits);
            law_double_key_orders(x, bits);
        }
        if order_key(bits) > key {
            high.push(bits);
        } else {
            low.push(bits);
        }
        i = i + 1;
    }
    assert(iats@.take(i as int) =~= iats@);
    (low, high)
}

/// The period of a sample that is a part of `len` times.
fn measure(part: &Vec<u64>, len: usize) -> (r: Period)
    ensures
        r == period_of(part@, len as nat),
{
    Period {
        period_ms: Single { bits: shorten(mean_f64(part)) },
        jitter_ms: Single { bits: shorten(std_dev_f64(part)) },
        weight: share_of(part.len() as u64, len as u64),
    }
}

/// The periods of inter-arrival times.
pub fn find_periods(iats: &Vec<u64>) -> (r: Vec<Period>)
    requires
        iats@.len() >= 10 ==> all_numbers(iats@),
    ensures
        are_periods(iats@, r@),
        r@.len() <= 2,
{
    let mut periods: Vec<Period> = Vec::new();
    if iats.len() < 10 {
        return periods;
    }
    let mean_iat: u64 = mean_f64(iats);
    let std_iat: u64 = std_dev_f64(iats);
    if double_lt(mean_iat, NO_TIME) {
        return periods;
    }
    proof {
        lemma_format(DOUBLE as nat);
    }
    if double_lt(quotient_of(DOUBLE, std_iat, mean_iat), STEADY) {
        periods.push(
            Period {
                period_ms: Single { bits: shorten(mean_iat) },
                jitter_ms: Single { bits: shorten(std_iat) },
                weight: Single::from_int(1),
            },
        );
        assert(periods@ =~= seq![periods@[0]]);
        return periods;
    }
    let sorted = sorted_keys(iats);
    let key: i64 = sorted[sorted.len() / 2];
    let ghost x = arbitrary_with_key(iats@, key);
    proof {
        let keys = keys_of(iats@);
        sorted@.to_multiset_ensures();
        keys.to_multiset_ensures();
        assert(sorted@.contains(key));
        assert(sorted@.to_multiset().count(key) > 0);
        let j = choose|j: int| 0 <= j < keys.len() && keys[j] == key;
        assert(iats@.contains(iats@[j]) && double_key(iats@[j]) == key);
        lemma_middle_is_median(iats@, sorted@, x);
    }
    let (low, high) = split_at_key(iats, key, Ghost(x));
    if low.len() > 0 {
        periods.push(measure(&low, iats.len()));
    }
    if high.len() > 0 {
        periods.push(measure(&high, iats.len()));
    }
    assert(periods@ =~= two_periods(iats@, x));
    periods
}

/// An element of a sample with a key.
spec fn arbitrary_with_key(sample: Seq<u64>, key: i64) -> u64 {
    choose|x: u64| #[trigger] sample.contains(x) && double_key(x) == key
}

/// Elements up to a smaller number are less than a larger one.
proof fn lemma_counts_nested(sample: Seq<u64>, x: u64, y: u64)
    requires
        double_value(x) < double_value(y),
    ensures
        count_up_to(sample, x) <= count_less(sample, y),
    decreases sample.len(),
{
    if sample.len() > 0 {
        lemma_counts_nested(sample.drop_last(), x, y);
    }
}

/// Equal numbers split a sample in the same way.
proof fn lemma_sides_agree(sample: Seq<u64>, x: u64, y: u64, upper: bool)
    requires
        double_value(x) == double_value(y),
    ensures
        side(sample, x, upper) == side(sample, y, upper),
    decreases sample.len(),
{
    if sample.len() > 0 {
        lemma_sides_agree(sample.drop_last(), x, y, upper);
    }
}

/// Inter-arrival times have one list of periods.
pub proof fn law_periods_are_unique(sample: Seq<u64>, a: Seq<Period>, b: Seq<Period>)
    requires
        are_periods(sample, a),
        are_periods(sample, b),
    ensures
        a == b,
{
    if is_split(sample) {
        let x = choose|x: u64| #[trigger] is_median(sample, x) && a == two_periods(sample, x);
        let y = choose|x: u64| #[trigger] is_median(sample, x) && b == two_periods(sample, x);
        if double_value(x) < double_value(y) {
            lemma_counts_nested(sample, x, y);
        }
        if double_value(y) < double_value(x) {
            lemma_counts_nested(sample, y, x);
        }
        lemma_sides_agree(sample, x, y, false);
        lemma_sides_agree(sample, x, y, true);
    }
}

/// Every time belongs to one side of a split, and the lower side is never empty.
pub proof fn law_sides_cover_sample(sample: Seq<u64>, x: u64)
    ensures
        side(sample, x, false).len() + side(sample, x, true).len() == sample.len(),
        side(sample, x, false).len() == count_up_to(sample, x),
        is_median(sample, x) ==> side(sample, x, false).len() > 0,
{
    lemma_sides_cover(sample, x);
}

/// Every element of a sample lies on one side of a number.
proof fn lemma_sides_cover(sample: Seq<u64>, x: u64)
    ensures
        side(sample, x, false).len() + side(sample, x, true).len() == sample.len(),
        side(sample, x, false).len() == count_up_to(sample, x),
    decreases sample.len(),
{
    if sample.len() > 0 {
        lemma_sides_cover(sample.drop_last(), x);
    }
}

/// Counting elements up to a number is counting those that pass the test.
proof fn lemma_counts_filtered(sample: Seq<u64>, x: u64)
    ensures
        count_up_to(sample, x) == sample.filter(
            |t: u64| double_value(t) <= double_value(x),
        ).len(),
        count_less(sample, x) == sample.filter(|t: u64| double_value(t) < double_value(x)).len(),
        side(sample, x, false) == sample.filter(|t: u64| double_value(t) <= double_value(x)),
        side(sample, x, true) == sample.filter(|t: u64| double_value(t) > double_value(x)),
    decreases sample.len(),
{
    reveal(Seq::filter);
    if sample.len() > 0 {
        lemma_counts_filtered(sample.drop_last(), x);
    }
}

/// Ten times or more with a mean of `1e-9` or more have one period, of weight one, where the
/// quotient of their deviation by their mean is below the double-precision number nearest to
/// `0.3`; otherwise they are split at a median. Fewer times, or a smaller mean, have none.
pub proof fn law_three_tenths_part_steady_from_split(sample: Seq<u64>, periods: Seq<Period>)
    requires
        are_periods(sample, periods),
    ensures
        ({
            let m = mean(DOUBLE as nat, sample) as u64;
            let s = deviation(DOUBLE as nat, sample) as u64;
            let ratio = quotient(DOUBLE as nat, s as nat, m as nat) as u64;
            &&& sample.len() < 10 || double_less(m, 0x3e11_2e0b_e826_d695) ==> periods.len() == 0
            &&& sample.len() >= 10 && !double_less(m, 0x3e11_2e0b_e826_d695) && double_less(
                ratio,
                0x3fd3_3333_3333_3333,
            ) ==> periods.len() == 1 && periods[0].period_ms == single_of(m as nat)
                && periods[0].jitter_ms == single_of(s as nat) && periods[0].weight == of_int(1)
            &&& sample.len() >= 10 && !double_less(m, 0x3e11_2e0b_e826_d695) && !double_less(
                ratio,
                0x3fd3_3333_3333_3333,
            ) ==> exists|x: u64|
                #[trigger] sample.contains(x) && is_split_at(sample, x, periods)
        }),
{
    if is_split(sample) {
        let x = choose|x: u64| #[trigger] is_median(sample, x) && periods == two_periods(sample, x);
        lemma_counts_filtered(sample, x);
        lemma_sides_cover(sample, x);
        assert(sample.contains(x) && is_split_at(sample, x, periods));
    }
}

/// Times are split at one of them that stands in the middle: the first period is that of the
/// times up to it, the second one that of the times above it, if there are any. Each has the
/// mean and the deviation of its times, and the share that they have in all times.
pub open spec fn is_split_at(sample: Seq<u64>, x: u64, periods: Seq<Period>) -> bool {
    let low = sample.filter(|t: u64| double_value(t) <= double_value(x));
    let high = sample.filter(|t: u64| double_value(t) > double_value(x));
    &&& sample.filter(|t: u64| double_value(t) < double_value(x)).len() <= sample.len() / 2
        < low.len()
    &&& periods.len() == if high.len() > 0 {
        2nat
    } else {
        1
    }
    &&& periods[0].period_ms == single_of(mean(DOUBLE as nat, low))
    &&& periods[0].jitter_ms == single_of(deviation(DOUBLE as nat, low))
    &&& periods[0].weight == share(low.len(), sample.len())
    &&& high.len() > 0 ==> {
        &&& periods[1].period_ms == single_of(mean(DOUBLE as nat, high))
        &&& periods[1].jitter_ms == single_of(deviation(DOUBLE as nat, high))
        &&& periods[1].weight == share(high.len(), sample.len())
    }
}

/// Times whose deviation is three tenths of their mean or more are split at a median; times
/// whose deviation is less than three tenths of their mean, by one part in `2^50` or more,
/// have one period. Both are finite numbers, in units of `2^-1074`.
pub proof fn law_deviation_decides_split(sample: Seq<u64>, periods: Seq<Period>)
    requires
        are_periods(sample, periods),
        sample.len() >= 10,
        0x3e11_2e0b_e826_d695 <= mean(DOUBLE as nat, sample) < 0x7ff0_0000_0000_0000,
        deviation(DOUBLE as nat, sample) < 0x7ff0_0000_0000_0000,
    ensures
        ({
            let m = units(DOUBLE as nat, mean(DOUBLE as nat, sample));
            let s = units(DOUBLE as nat, deviation(DOUBLE as nat, sample));
            &&& 10 * s >= 3 * m ==> exists|x: u64|
                #[trigger] sample.contains(x) && is_split_at(sample, x, periods)
            &&& 10 * s * 0x4_0000_0000_0000 <= 3 * m * 0x3_ffff_ffff_ffff ==> periods.len() == 1
                && periods[0].weight == of_int(1)
        }),
{
    let wide = DOUBLE as nat;
    let (mb, sb) = (mean(wide, sample), deviation(wide, sample));
    let (m, s) = (units(wide, mb), units(wide, sb));
    let w = pow2(1074);
    let g = pow2(1020);
    lemma_format(wide);
    law_three_tenths_part_steady_from_split(sample, periods);
    law_patterns_order_numbers(0, 0, mb as u64, 0x3e11_2e0b_e826_d695);
    lemma_pow2_pos(1020);
    lemma_pow2_adds(54, 1020);
    lemma2_to64_rest();
    let bound = 0x3fd3_3333_3333_3333nat;
    let below = (bound - 1) as nat;
    lemma_pattern_units(wide, 1020, 5404319552844595);
    lemma_pattern_units(wide, 1020, 5404319552844594);
    assert(1020 * wide + 5404319552844595 == bound);
    let (x, y) = (units(wide, bound), units(wide, below));
    lemma_units_zero(wide, mb);
    let ratio = quotient(wide, sb, mb);
    assert(ratio <= infinity(wide));
    law_patterns_order_numbers(0, 0, ratio as u64, bound as u64);
    law_nearest_to_itself(wide, bound);
    law_nearest_to_itself(wide, below);
    if 10 * s >= 3 * m {
        assert(x * m <= (s * w) * 1) by {
            let t = m * g;
            let u = s * g;
            assert(10 * u >= 3 * t) by (nonlinear_arith)
                requires
                    10 * s >= 3 * m,
                    t == m * g,
                    u == s * g,
                    g > 0,
            ;
            assert(s * w == 0x40_0000_0000_0000 * u && x * m == 5404319552844595 * t)
                by (nonlinear_arith)
                requires
                    w == 0x40_0000_0000_0000 * g,
                    x == 5404319552844595 * g,
                    t == m * g,
                    u == s * g,
            ;
        }
        law_nearest_keeps_order(wide, x, 1, s * w, m);
        assert(ratio >= bound);
    }
    if 10 * s * 0x4_0000_0000_0000 <= 3 * m * 0x3_ffff_ffff_ffff {
        assert((s * w) * 1 <= y * m) by {
            let t = m * g;
            let u = s * g;
            assert(10 * u * 0x4_0000_0000_0000 <= 3 * t * 0x3_ffff_ffff_ffff) by (nonlinear_arith)
                requires
                    10 * s * 0x4_0000_0000_0000 <= 3 * m * 0x3_ffff_ffff_ffff,
                    t == m * g,
                    u == s * g,
                    g > 0,
            ;
            assert(s * w == 0x40_0000_0000_0000 * u && y * m == 5404319552844594 * t)
                by (nonlinear_arith)
                requires
                    w == 0x40_0000_0000_0000 * g,
                    y == 5404319552844594 * g,
                    t == m * g,
                    u == s * g,
            ;
        }
        law_nearest_keeps_order(wide, s * w, m, y, 1);
        assert(ratio < bound);
    }
}

} // verus!
