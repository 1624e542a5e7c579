//! The test that a generated mask has to pass before it is used.
use crate::arrivals::{mean, mean_f64};
use crate::double::{smaller, smaller_of, DOUBLE_ONE};
use crate::float_bits::{
    double_is_nan, double_value, law_patterns_order_numbers, single_is_nan, single_value,
};
use crate::ieee::{
    body, difference, difference_of, infinity, integer, integer_of, law_integer_is_finite,
    law_nearest_to_itself, law_values_agree, law_widen_then_shorten, lemma_format,
    lemma_nearest_common_factor, lemma_pattern_units, lemma_units_zero, lemma_wide_value, nearest,
    negated, negative, shorten, shortened, units, widen, widened,
};
use crate::ks::{all_numbers, is_statistic, ks_test, lemma_statistic_bits};
use crate::monotone::{
    from_zero, law_nearest_keeps_order, lemma_fraction_bits, lemma_ints, lemma_less_by_bits,
    lemma_over, lemma_plus, lemma_units_order,
};
use crate::packet::{
    heading, law_directions_part_packets, packet_models, select, sizes_of, times_of, Direction,
    Packet, PacketMetadata,
};
use crate::precision::{lemma_fraction_near, lemma_rounding_bound, near};
use crate::single::{fraction, larger, law_small_sum, less, minus, of_int, over, plus, zero, Single};
use crate::soft_float::{DOUBLE, SINGLE};
use crate::stats::{law_proper_fraction, law_whole_share};
use vstd::arithmetic::power2::{
    lemma2_to64, lemma2_to64_rest, lemma_pow2_adds, lemma_pow2_pos, lemma_pow2_strictly_increases,
    lemma_pow2_unfold, pow2,
};
use vstd::prelude::*;

verus! {

/// The largest number of packets that is compared.
pub const MAX_SAMPLES: usize = 5000;

/// Seven in double precision: the entropy that is expected of encrypted payloads.
pub const HIGH_ENTROPY: u64 = 0x401c_0000_0000_0000;

/// The outcome of a self-test.
#[derive(Debug, Clone, Copy, PartialEq, Eq, Structural)]
pub struct SelfTestResult {
    /// The Kolmogorov-Smirnov statistic of the packet sizes.
    pub ks_size: Single,
    /// The Kolmogorov-Smirnov statistic of the inter-arrival times.
    pub ks_iat: Single,
    /// The distance of the mean entropy from the expected one, at most one.
    pub entropy_match: Single,
    pub passed: bool,
    pub confidence: Single,
}

/// The statistic below which two samples are taken as alike.
pub open spec fn ks_threshold() -> Single {
    fraction(2, 5)
}

/// What is decided on two statistics and an entropy.
pub open spec fn verdict(
    ks_size: Single,
    ks_iat: Single,
    entropy_match: Single,
) -> SelfTestResult {
    let passed = less(ks_size, ks_threshold()) && less(ks_iat, ks_threshold()) && less(
        entropy_match,
        fraction(1, 2),
    );
    let average = over(plus(ks_size, ks_iat), of_int(2));
    SelfTestResult {
        ks_size,
        ks_iat,
        entropy_match,
        passed,
        confidence: if passed {
            larger(minus(of_int(1), over(average, ks_threshold())), fraction(1, 10))
        } else {
            zero()
        },
    }
}

/// The packets that are compared: the first ones of the client.
pub open spec fn compared(packets: Seq<Packet>) -> Seq<Packet> {
    let up = heading(packets, Direction::Uplink);
    if up.len() < MAX_SAMPLES {
        up
    } else {
        up.take(MAX_SAMPLES as int)
    }
}

/// Sizes as double-precision numbers.
pub open spec fn as_doubles(sizes: Seq<u16>) -> Seq<u64> {
    sizes.map_values(|size: u16| integer(DOUBLE as nat, size as nat) as u64)
}

/// The entropies of packets in double precision.
pub open spec fn wide_entropies(packets: Seq<Packet>) -> Seq<u64> {
    packets.map_values(|p: Packet| widened(p.entropy as nat) as u64)
}

/// How far the mean entropy of packets is from the expected one, at most one.
pub open spec fn entropy_gap(packets: Seq<Packet>) -> Single {
    let measured = mean(DOUBLE as nat, wide_entropies(packets));
    let gap = body(DOUBLE as nat, difference(DOUBLE as nat, measured, HIGH_ENTROPY as nat)) as u64;
    Single { bits: shortened(smaller(gap, DOUBLE_ONE) as nat) as u32 }
}

/// Decides on two statistics and an entropy.
pub fn judge(ks_size: Single, ks_iat: Single, entropy_match: Single) -> (r: SelfTestResult)
    ensures
        r == verdict(ks_size, ks_iat, entropy_match),
{
    let threshold = Single::fraction(2, 5);
    let passed = ks_size.less(threshold) && ks_iat.less(threshold) && entropy_match.less(
        Single::fraction(1, 2),
    );
    let confidence = if passed {
        let average = ks_size.plus(ks_iat).over(Single::from_int(2));
        Single::from_int(1).minus(average.over(threshold)).larger(Single::fraction(1, 10))
    } else {
        Single { bits: 0 }
    };
    SelfTestResult { ks_size, ks_iat, entropy_match, passed, confidence }
}

/// The number of synthetic samples that a self-test asks for.
pub fn sample_count(packets: &Vec<PacketMetadata>) -> (r: usize)
    ensures
        r == compared(packet_models(packets@)).len(),
{
    let (sizes, _) = select(packets, Direction::Uplink);
    assert(sizes@.len() == heading(packet_models(packets@), Direction::Uplink).len());
    if sizes.len() < MAX_SAMPLES {
        sizes.len()
    } else {
        MAX_SAMPLES
    }
}

/// Sizes as double-precision numbers, at most `count` of them.
fn widen_sizes(sizes: &Vec<u16>, count: usize) -> (r: Vec<u64>)
    requires
        count <= sizes@.len(),
    ensures
        r@ == as_doubles(sizes@.take(count as int)),
        all_numbers(r@),
{
    proof {
        lemma_format(DOUBLE as nat);
    }
    let mut list: Vec<u64> = Vec::new();
    while list.len() < count
        invariant
            list@.len() <= count <= sizes@.len(),
            list@ == as_doubles(sizes@.take(list@.len() as int)),
            all_numbers(list@),
        decreases count - list@.len(),
    {
        let i: usize = list.len();
        let ghost before = list@;
        let bits: u64 = integer_of(DOUBLE, sizes[i] as u64);
        proof {
            lemma_size_is_number(sizes@[i as int]);
        }
        list.push(bits);
        assert(list@ =~= as_doubles(sizes@.take(i + 1)));
    }
    list
}

/// A size is a number in double precision.
proof fn lemma_size_is_number(size: u16)
    ensures
        !double_is_nan(integer(DOUBLE as nat, size as nat) as u64),
        integer(DOUBLE as nat, size as nat) <= u64::MAX,
{
    lemma_format(DOUBLE as nat);
    crate::ieee::law_integer_is_exact(DOUBLE as nat, size as nat);
}

/// The distance of the mean entropy of packets from the expected one.
pub fn measure_entropy(packets: &Vec<PacketMetadata>) -> (r: Single)
    ensures
        r == entropy_gap(packet_models(packets@)),
{
    let ghost models = packet_models(packets@);
    let mut wide: Vec<u64> = Vec::new();
    while wide.len() < packets.len()
        invariant
            wide@.len() <= packets@.len(),
            models == packet_models(packets@),
            wide@ == wide_entropies(models.take(wide@.len() as int)),
        decreases packets@.len() - wide@.len(),
    {
        let i: usize = wide.len();
        assert(models[i as int] == packets@[i as int]@);
        let bits: u64 = widen(packets[i].entropy);
        wide.push(bits);
        assert(wide@ =~= wide_entropies(models.take(i + 1)));
    }
    assert(models.take(wide@.len() as int) =~= models);
    proof {
        lemma_format(DOUBLE as nat);
    }
    let gap: u64 = difference_of(DOUBLE, mean_f64(&wide), HIGH_ENTROPY);
    let size: u64 = if gap >= 0x8000_0000_0000_0000 {
        gap - 0x8000_0000_0000_0000
    } else {
        gap
    };
    Single { bits: shorten(smaller_of(size, DOUBLE_ONE)) }
}

/// Tests a mask by samples that were drawn from it: their sizes and inter-arrival
/// times have to be distributed like those of the recorded packets, and the payloads
/// have to look encrypted.
pub fn self_test(
    packets: &Vec<PacketMetadata>,
    synthetic_sizes: &Vec<u16>,
    synthetic_iats: &Vec<u64>,
) -> (r: SelfTestResult)
    requires
        compared(packet_models(packets@)).len() > 0 && synthetic_iats@.len() > 0 ==> all_numbers(
            times_of(compared(packet_models(packets@))),
        ) && all_numbers(synthetic_iats@),
    ensures
        is_statistic(
            as_doubles(synthetic_sizes@),
            as_doubles(sizes_of(compared(packet_models(packets@)))),
            r.ks_size,
        ),
        is_statistic(
            synthetic_iats@,
            times_of(compared(packet_models(packets@))),
            r.ks_iat,
        ),
        r == verdict(r.ks_size, r.ks_iat, entropy_gap(packet_models(packets@))),
{
    let ghost models = packet_models(packets@);
    let ghost up = heading(models, Direction::Uplink);
    let (sizes, mut times) = select(packets, Direction::Uplink);
    let count: usize = if sizes.len() < MAX_SAMPLES {
        sizes.len()
    } else {
        MAX_SAMPLES
    };
    times.truncate(count);
    let real_sizes = widen_sizes(&sizes, count);
    let drawn_sizes = widen_sizes(synthetic_sizes, synthetic_sizes.len());
    proof {
        assert(sizes@.take(count as int) =~= sizes_of(compared(models)));
        assert(times@ =~= times_of(compared(models)));
        assert(synthetic_sizes@.take(synthetic_sizes@.len() as int) =~= synthetic_sizes@);
    }
    let ks_size = ks_test(&drawn_sizes, &real_sizes);
    let ks_iat = ks_test(synthetic_iats, &times);
    let entropy_match = measure_entropy(packets);
    judge(ks_size, ks_iat, entropy_match)
}

/// A mask that fails has no confidence; one that passes has one of at least a tenth.
pub proof fn law_confidence_follows_verdict(
    ks_size: Single,
    ks_iat: Single,
    entropy_match: Single,
)
    ensures
        ({
            let r = verdict(ks_size, ks_iat, entropy_match);
            if r.passed {
                !less(r.confidence, fraction(1, 10))
            } else {
                r.confidence == zero()
            }
        }),
{
    reveal(less);
}

/// One minus a number that is not negative is at most one.
proof fn lemma_at_most_one(y: Single)
    requires
        from_zero(y),
    ensures
        !less(of_int(1), minus(of_int(1), y)),
{
    let half = SINGLE as nat;
    let one = of_int(1);
    reveal(minus);
    reveal(of_int);
    reveal(less);
    lemma_format(half);
    crate::ieee::law_integer_is_exact(half, 1);
    lemma_pow2_pos(149);
    lemma_units_zero(half, one.bits as nat);
    let r = minus(one, y);
    let (a, b) = (one.bits as nat, y.bits as nat);
    assert(body(half, negated(half, b)) == b);
    let (u, v) = (units(half, a), units(half, b));
    law_nearest_to_itself(half, a);
    law_nearest_to_itself(half, 0);
    lemma_units_zero(half, 0);
    law_values_agree(0, r.bits);
    law_values_agree(0, one.bits);
    lemma_units_order(half, b, a);
    if b < a {
        law_nearest_keeps_order(half, (u - v) as nat, 1, u, 1);
        assert(r.bits <= one.bits);
        lemma_less_by_bits(one, r);
    } else if b < infinity(half) && u < v {
        assert(negative(half, r.bits as nat));
    } else if b == infinity(half) {
        assert(r.bits as nat == negated(half, b));
    }
}

/// The confidence of a self-test on the statistics of samples lies between zero and one.
pub proof fn law_confidence_is_a_fraction(
    drawn_sizes: Seq<u64>,
    real_sizes: Seq<u64>,
    ks_size: Single,
    drawn_times: Seq<u64>,
    real_times: Seq<u64>,
    ks_iat: Single,
    entropy_match: Single,
)
    requires
        drawn_sizes.len() <= u64::MAX,
        real_sizes.len() <= u64::MAX,
        drawn_times.len() <= u64::MAX,
        real_times.len() <= u64::MAX,
        is_statistic(drawn_sizes, real_sizes, ks_size),
        is_statistic(drawn_times, real_times, ks_iat),
    ensures
        ({
            let r = verdict(ks_size, ks_iat, entropy_match);
            &&& !single_is_nan(r.confidence.bits)
            &&& !less(r.confidence, zero())
            &&& !less(of_int(1), r.confidence)
        }),
{
    let r = verdict(ks_size, ks_iat, entropy_match);
    let one = of_int(1);
    lemma_statistic_bits(drawn_sizes, real_sizes, ks_size);
    lemma_statistic_bits(drawn_times, real_times, ks_iat);
    law_proper_fraction(1, 10);
    law_proper_fraction(2, 5);
    lemma2_to64();
    assert(pow2(25) == 0x200_0000 && pow2(27) == 0x800_0000);
    lemma_fraction_bits(2, 5, 25);
    lemma_fraction_bits(1, 10, 27);
    lemma_ints(1, 2);
    reveal(less);
    law_values_agree(0, one.bits);
    law_values_agree(0, 0);
    law_values_agree(0, r.confidence.bits);
    law_values_agree(0, fraction(1, 10).bits);
    lemma_units_zero(SINGLE as nat, 0);
    lemma_format(SINGLE as nat);
    if r.passed {
        let total = plus(ks_size, ks_iat);
        lemma_plus(ks_size, ks_iat, one, one);
        law_small_sum(1, 1);
        lemma_small_ints();
        lemma_over(total, of_int(2), total, of_int(2));
        let average = over(total, of_int(2));
        lemma_over(total, of_int(2), of_int(2), of_int(2));
        law_whole_share(2);
        lemma_over(average, ks_threshold(), average, ks_threshold());
        lemma_at_most_one(over(average, ks_threshold()));
    }
}

/// One and two are finite numbers above zero.
proof fn lemma_small_ints()
    ensures
        0 < of_int(1).bits < 0x7f80_0000,
        0 < of_int(2).bits < 0x7f80_0000,
{
    reveal(of_int);
    lemma_format(SINGLE as nat);
    law_integer_is_finite(1);
    law_integer_is_finite(2);
}

/// A number in single precision, in units of `2^-149`.
spec fn amount(a: Single) -> int {
    units(SINGLE as nat, a.bits as nat) as int
}

/// The bounds of the verdict in units of `2^-149`.
proof fn lemma_bounds()
    ensures
        fraction(2, 5).bits == 124 * SINGLE + 13421773,
        amount(fraction(2, 5)) == 13421773 * pow2(124),
        amount(fraction(1, 2)) == 0x100_0000 * pow2(124),
        fraction(1, 2).bits < 0x7f80_0000,
        fraction(1, 10).bits < 0x7f80_0000,
        near(10 * amount(fraction(1, 10)), pow2(149) as int, 0x100_0000),
        amount(of_int(1)) == pow2(149),
        0 < of_int(1).bits < 0x7f80_0000,
        pow2(149) == 0x200_0000 * pow2(124),
        pow2(124) > 0,
{
    let half = SINGLE as nat;
    lemma_format(half);
    lemma2_to64();
    lemma_pow2_pos(124);
    lemma_pow2_adds(25, 124);
    lemma_pow2_unfold(124);
    assert(pow2(24) == 0x100_0000 && pow2(25) == 0x200_0000);
    lemma_fraction_bits(2, 5, 25);
    lemma_fraction_bits(1, 2, 24);
    lemma_pattern_units(half, 124, 13421773);
    lemma_pattern_units(half, 125, half);
    lemma_pow2_unfold(125);
    lemma_fraction_near(1, 10);
    lemma_small_ints();
    reveal(of_int);
    crate::ieee::law_integer_is_exact(half, 1);
}

/// A mask passes exactly if both statistics are at most two fifths, to within one part in
/// `2^26`, and the entropy is less than a half away from the expected one. All numbers are in
/// units of `2^-149`.
pub proof fn law_verdict_goes_by_numbers(ks_size: Single, ks_iat: Single, entropy_match: Single)
    requires
        ks_size.bits <= 0x7f80_0000,
        ks_iat.bits <= 0x7f80_0000,
        entropy_match.bits <= 0x7f80_0000,
    ensures
        ({
            let one = pow2(149);
            let (a, b, c) = (
                single_value(ks_size.bits),
                single_value(ks_iat.bits),
                single_value(entropy_match.bits),
            );
            let r = verdict(ks_size, ks_iat, entropy_match);
            &&& r.passed <==> 5 * a * 0x400_0000 < 2 * one * 0x400_0001 && 5 * b * 0x400_0000 < 2
                * one * 0x400_0001 && 2 * c < one
            &&& r.ks_size == ks_size
            &&& r.ks_iat == ks_iat
            &&& r.entropy_match == entropy_match
        }),
{
    lemma_bounds();
    lemma_format(SINGLE as nat);
    reveal(less);
    law_values_agree(0, ks_size.bits);
    law_values_agree(0, ks_iat.bits);
    law_values_agree(0, entropy_match.bits);
    law_values_agree(0, fraction(2, 5).bits);
    law_values_agree(0, fraction(1, 2).bits);
}

/// The confidence in a mask that passes is one less the mean of both statistics as a part of
/// two fifths, and at least a tenth; to within `2^-16`. It is stated in twentieths, and all
/// numbers are in units of `2^-149`.
#[verifier::rlimit(60)]
#[verifier::spinoff_prover]
pub proof fn law_confidence_falls_with_statistics(
    ks_size: Single,
    ks_iat: Single,
    entropy_match: Single,
)
    requires
        ks_size.bits <= 0x7f80_0000,
        ks_iat.bits <= 0x7f80_0000,
        verdict(ks_size, ks_iat, entropy_match).passed,
    ensures
        ({
            let one = pow2(149);
            let both = single_value(ks_size.bits) + single_value(ks_iat.bits);
            let r = single_value(verdict(ks_size, ks_iat, entropy_match).confidence.bits);
            let exact = if 20 * one - 25 * both > 2 * one {
                20 * one - 25 * both
            } else {
                2 * one as int
            };
            -one <= (20 * r - exact) * 0x1_0000 <= one
        }),
{
    let half = SINGLE as nat;
    let g = pow2(124) as int;
    let p = pow2(149) as int;
    lemma_bounds();
    lemma_format(half);
    reveal(less);
    reveal(plus);
    reveal(over);
    reveal(minus);
    law_values_agree(0, ks_size.bits);
    law_values_agree(0, ks_iat.bits);
    law_values_agree(0, fraction(2, 5).bits);
    let limit = fraction(2, 5);
    let (x, a, b) = (amount(limit), amount(ks_size), amount(ks_iat));
    assert(a < x && b < x);
    lemma_units_order(half, ks_size.bits as nat, limit.bits as nat);
    lemma_units_order(half, ks_iat.bits as nat, limit.bits as nat);
    // The sum.
    let t = plus(ks_size, ks_iat);
    lemma_pattern_units(half, 125, 13421773);
    lemma_pow2_unfold(125);
    let twice = (125 * half + 13421773) as nat;
    law_nearest_to_itself(half, twice);
    law_nearest_keeps_order(half, (a + b) as nat, 1, (2 * x) as nat, 1);
    assert(t.bits <= twice);
    lemma_rounding_bound(half, (a + b) as nat, 1);
    let ut = amount(t);
    assert((ut * 1 - (a + b)) * (2 * half) == (ut - (a + b)) * (2 * half));
    assert(half * 1 == half);
    lemma_units_order(half, t.bits as nat, twice);
    // The mean of the two.
    let two = of_int(2);
    lemma_small_ints();
    assert(units(half, two.bits as nat) == 2 * p) by {
        reveal(of_int);
        crate::ieee::law_integer_is_exact(half, 2);
    }
    let average = over(t, two);
    lemma_nearest_common_factor(half, ut as nat, 2, p as nat);
    assert(ut * p == p * ut) by (nonlinear_arith);
    law_nearest_to_itself(half, limit.bits as nat);
    assert(ut * 1 <= x * 2);
    law_nearest_keeps_order(half, ut as nat, 2, x as nat, 1);
    assert(average.bits <= limit.bits);
    lemma_rounding_bound(half, ut as nat, 2);
    let ua = amount(average);
    lemma_units_order(half, average.bits as nat, limit.bits as nat);
    // The part of two fifths.
    let y = over(average, limit);
    let n = (ua * p) as nat;
    assert(n * 1 <= p * x) by (nonlinear_arith)
        requires
            n == ua * p,
            ua <= x,
            p >= 0,
    ;
    law_nearest_to_itself(half, of_int(1).bits as nat);
    law_nearest_keeps_order(half, n, x as nat, p as nat, 1);
    assert(y.bits <= of_int(1).bits);
    let uy = amount(y);
    lemma_rounding_bound(half, n, x as nat);
    let d = 13421773 * uy - 0x200_0000 * ua;
    assert(uy * x - n == d * g && n + half * x == (0x200_0000 * ua + half * 13421773) * g)
        by (nonlinear_arith)
        requires
            n == ua * p,
            p == 0x200_0000 * g,
            x == 13421773 * g,
            d == 13421773 * uy - 0x200_0000 * ua,
    ;
    let bound = 0x200_0000 * ua + half * 13421773;
    assert(-bound <= d * (2 * half) <= bound) by (nonlinear_arith)
        requires
            -(bound * g) <= (d * g) * (2 * half) <= bound * g,
            g > 0,
    {
        assert((d * g) * (2 * half) == (d * (2 * half)) * g) by (nonlinear_arith);
        assert(-bound <= d * (2 * half) <= bound) by (nonlinear_arith)
            requires
                -(bound * g) <= (d * (2 * half)) * g <= bound * g,
                g > 0,
        ;
    }
    lemma_units_order(half, y.bits as nat, of_int(1).bits as nat);
    // One less this part.
    let z = minus(of_int(1), y);
    assert(body(half, negated(half, y.bits as nat)) == y.bits);
    lemma_units_zero(half, 0);
    law_nearest_keeps_order(half, (p - uy) as nat, 1, p as nat, 1);
    lemma_rounding_bound(half, (p - uy) as nat, 1);
    let uz = amount(z);
    assert(z.bits <= of_int(1).bits);
    assert(-(p + half) <= (uz - (p - uy)) * (2 * half) <= p + half);
    let least = fraction(1, 10);
    law_values_agree(0, z.bits);
    law_values_agree(0, least.bits);
    let r = larger(z, least);
    law_values_agree(0, r.bits);
    lemma_pow2_strictly_increases(64, 124);
    lemma2_to64_rest();
    lemma_deviation(ut, a + b, ua, uy, uz, amount(least), amount(r), g);
}

/// The errors of the single steps add up to little.
proof fn lemma_deviation(
    ut: int,
    both: int,
    ua: int,
    uy: int,
    uz: int,
    least: int,
    r: int,
    g: int,
)
    requires
        g >= 0x1_0000_0000_0000_0000,
        0 <= both <= 26843546 * g,
        0 <= ut <= 26843546 * g,
        0 <= ua <= 13421773 * g,
        0 <= uy <= 0x200_0000 * g,
        -(both + 0x80_0000) <= (ut - both) * 0x100_0000 <= both + 0x80_0000,
        -(ut + 0x100_0000) <= (ua * 2 - ut) * 0x100_0000 <= ut + 0x100_0000,
        -(0x200_0000 * ua + 0x80_0000 * 13421773) <= (13421773 * uy - 0x200_0000 * ua)
            * 0x100_0000 <= 0x200_0000 * ua + 0x80_0000 * 13421773,
        -(0x200_0000 * g + 0x80_0000) <= (uz - (0x200_0000 * g - uy)) * 0x100_0000 <= 0x200_0000
            * g + 0x80_0000,
        near(10 * least, 0x200_0000 * g, 0x100_0000),
        r == if uz < least {
            least
        } else {
            uz
        },
    ensures
        ({
            let one = 0x200_0000 * g;
            let exact = if 20 * one - 25 * both > 2 * one {
                20 * one - 25 * both
            } else {
                2 * one
            };
            -one <= (20 * r - exact) * 0x1_0000 <= one
        }),
{
    let one = 0x200_0000 * g;
    // The part of two fifths is five quarters of the sum, to within one part in `2^20`.
    assert(-one <= (4 * uy - 5 * both) * 0x10_0000 <= one);
    assert(-one <= (20 * uz - (20 * one - 25 * both)) * 0x1_0000 * 2 <= one);
    assert(-one <= (20 * least - 2 * one) * 0x1_0000 * 2 <= one);
}

/// The packets that are compared are the first five thousand that the client sent, or all of
/// them where there are fewer.
pub proof fn law_first_packets_are_compared(packets: Seq<Packet>)
    ensures
        ({
            let up = packets.filter(|p: Packet| p.direction == Direction::Uplink);
            &&& compared(packets).len() == if up.len() < 5000 {
                up.len()
            } else {
                5000
            }
            &&& forall|i: int|
                0 <= i < compared(packets).len() ==> #[trigger] compared(packets)[i] == up[i]
        }),
{
    law_directions_part_packets(packets, Direction::Uplink);
}

/// Sizes are compared as the numbers that they are, and entropies keep their value in double
/// precision; in units of `2^-1074`.
pub proof fn law_samples_keep_their_numbers(sizes: Seq<u16>, packets: Seq<Packet>, i: int)
    ensures
        as_doubles(sizes).len() == sizes.len(),
        0 <= i < sizes.len() ==> double_value(as_doubles(sizes)[i]) == sizes[i] * pow2(1074),
        wide_entropies(packets).len() == packets.len(),
        0 <= i < packets.len() && packets[i].entropy < 0x7f80_0000 ==> double_value(
            wide_entropies(packets)[i],
        ) == single_value(packets[i].entropy) * pow2(925),
{
    let wide = DOUBLE as nat;
    lemma_format(wide);
    lemma_format(SINGLE as nat);
    if 0 <= i < sizes.len() {
        crate::ieee::law_integer_is_exact(wide, sizes[i] as nat);
        law_values_agree(as_doubles(sizes)[i], 0);
    }
    if 0 <= i < packets.len() && packets[i].entropy < 0x7f80_0000 {
        lemma_wide_value(packets[i].entropy as nat);
        law_values_agree(wide_entropies(packets)[i], packets[i].entropy);
    }
}

/// Seven and one in double precision.
proof fn lemma_double_numbers()
    ensures
        units(DOUBLE as nat, HIGH_ENTROPY as nat) == 7 * pow2(1074),
        units(DOUBLE as nat, DOUBLE_ONE as nat) == pow2(1074),
        shortened(DOUBLE_ONE as nat) == of_int(1).bits,
{
    let wide = DOUBLE as nat;
    let half = SINGLE as nat;
    lemma_format(wide);
    lemma_format(half);
    lemma2_to64_rest();
    lemma_pattern_units(wide, 1024, 0x1c_0000_0000_0000);
    lemma_pow2_adds(50, 1024);
    crate::profile::lemma_double_one();
    lemma_bounds();
    let one = of_int(1).bits;
    lemma_wide_value(one as nat);
    lemma_pow2_adds(149, 925);
    let w = widened(one as nat);
    lemma_units_order(wide, w, DOUBLE_ONE as nat);
    lemma_units_order(wide, DOUBLE_ONE as nat, w);
    law_widen_then_shorten(one);
}

/// The distance of the mean entropy of packets from the expected one is its distance from
/// seven bits: one where that is one or more, and otherwise the distance to within `2^-20`.
/// The mean is in units of `2^-1074`, the distance in units of `2^-149`.
pub proof fn law_entropy_is_compared_with_seven(packets: Seq<Packet>)
    requires
        mean(DOUBLE as nat, wide_entropies(packets)) < 0x7ff0_0000_0000_0000,
    ensures
        ({
            let one = pow2(1074) as int;
            let m = units(DOUBLE as nat, mean(DOUBLE as nat, wide_entropies(packets)));
            let exact = if m >= 7 * one {
                m - 7 * one
            } else {
                7 * one - m
            };
            let gap = entropy_gap(packets);
            &&& exact >= one ==> gap == of_int(1)
            &&& exact < one ==> -one <= (single_value(gap.bits) * pow2(925) - exact) * 0x10_0000
                <= one
        }),
{
    let wide = DOUBLE as nat;
    let half = SINGLE as nat;
    let (w, c) = (pow2(1074) as int, pow2(925) as int);
    lemma_format(wide);
    lemma_format(half);
    lemma_double_numbers();
    lemma_bounds();
    lemma_pow2_pos(1074);
    lemma_pow2_pos(925);
    lemma_pow2_adds(149, 925);
    lemma_pow2_strictly_increases(63, 149);
    lemma_pow2_adds(52, 24);
    lemma_pow2_strictly_increases(76, 1074);
    lemma2_to64();
    lemma2_to64_rest();
    let a = mean(wide, wide_entropies(packets));
    let m = units(wide, a) as int;
    let exact = if m >= 7 * w {
        m - 7 * w
    } else {
        7 * w - m
    };
    let b = HIGH_ENTROPY as nat;
    assert(body(wide, negated(wide, b)) == b);
    let d = difference(wide, a, b);
    let gap = body(wide, d);
    lemma_units_zero(wide, 0);
    // The size of the difference is the nearest number to the exact one.
    let n = nearest(wide, exact as nat, 1);
    if m == 7 * w {
        assert(gap == 0 && n == 0);
    }
    assert(gap == if n < infinity(wide) {
        n
    } else {
        infinity(wide)
    });
    law_nearest_to_itself(wide, DOUBLE_ONE as nat);
    law_values_agree(gap as u64, 0);
    law_values_agree(DOUBLE_ONE, 0);
    lemma_units_order(wide, gap, DOUBLE_ONE as nat);
    lemma_units_order(wide, DOUBLE_ONE as nat, gap);
    let least = smaller(gap as u64, DOUBLE_ONE);
    if exact >= w {
        law_nearest_keeps_order(wide, w as nat, 1, exact as nat, 1);
        assert(gap >= DOUBLE_ONE);
        if gap > DOUBLE_ONE {
            law_patterns_order_numbers(0, 0, DOUBLE_ONE, gap as u64);
        }
        assert(least == DOUBLE_ONE);
    } else {
        law_nearest_keeps_order(wide, exact as nat, 1, w as nat, 1);
        law_patterns_order_numbers(0, 0, DOUBLE_ONE, gap as u64);
        assert(least == gap);
        lemma_rounding_bound(wide, exact as nat, 1);
        let u = units(wide, gap) as int;
        // The number in single precision.
        let r = shortened(gap);
        law_nearest_to_itself(half, of_int(1).bits as nat);
        let p = pow2(149) as int;
        assert(u * 1 <= p * c) by (nonlinear_arith)
            requires
                u <= w,
                w == p * c,
        ;
        law_nearest_keeps_order(half, u as nat, c as nat, p as nat, 1);
        assert(r == nearest(half, u as nat, c as nat));
        lemma_rounding_bound(half, u as nat, c as nat);
        law_values_agree(0, r as u32);
        let v = units(half, r) as int;
        assert(half * c * 0x100_0000 <= w) by (nonlinear_arith)
            requires
                w == p * c,
                p >= half * 0x100_0000,
                c > 0,
        ;
        assert(wide * 0x100_0000 <= w);
        assert(-(exact + wide) <= (u - exact) * (2 * wide) <= exact + wide);
        lemma_small_gap(exact, u, v * c, w, (half * c) as int);
    }
}

/// Two roundings change little.
proof fn lemma_small_gap(exact: int, u: int, v: int, w: int, step: int)
    requires
        0 <= exact <= w,
        0 <= u <= w,
        -(exact + 0x10_0000_0000_0000) <= (u - exact) * 0x20_0000_0000_0000 <= exact
            + 0x10_0000_0000_0000,
        -(u + step) <= (v - u) * 0x100_0000 <= u + step,
        step * 0x100_0000 <= w,
        0x10_0000_0000_0000 * 0x100_0000 <= w,
        0 <= step,
    ensures
        -w <= (v - exact) * 0x10_0000 <= w,
{
}

} // verus!
