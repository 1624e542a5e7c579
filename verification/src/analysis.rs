//! The analysis of recorded traffic.
use crate::arrivals::{all_patterns, deviation, mean, mean_f32, mean_f64, std_dev_f64};
use crate::consensus::{
    consensus, header_consensus_with, header_models, infer_pattern, inferred, shape_of, Pattern,
};
use crate::error::Error;
use crate::float_bits::{single_is_nan, single_value};
use crate::fsm::{automaton, build_fsm_from_sizes};
use crate::ieee::{
    integer, law_integer_is_exact, law_nearest_to_itself, law_values_agree, lemma_format,
    lemma_nearest, lemma_pattern_units, lemma_units_zero, shorten, units,
};
use crate::ks::all_numbers;
use crate::mask::{state_models, FSMState};
use crate::mask_rng::random_bytes;
use crate::monotone::{
    law_nearest_keeps_order, lemma_fraction_bits, lemma_ints, lemma_less_by_bits, lemma_plus,
    lemma_plus_grows, lemma_plus_zero,
};
use crate::modes::{find_modes_histogram, size_modes, Mode};
use crate::packet::{
    collect, entropies_of, headers_of, heading, law_directions_part_packets, packet_models, select,
    sizes_of, times_of, Direction, Packet, PacketMetadata,
};
use crate::periods::{are_periods, find_periods, single_of, Period};
use crate::precision::{
    law_sum_error, lemma_fraction_near, lemma_near_chain, lemma_near_scaled, lemma_near_sum,
    lemma_near_weaker, near,
};
use crate::single::{fraction, less, of_int, plus, smaller, zero, Single};
use crate::soft_float::{half_even, lemma_round_shifted, round, Flt, DOUBLE, SINGLE};
use crate::stats::{law_proper_fraction, mean_u16, std_dev_u16};
use vstd::arithmetic::power2::{lemma2_to64, lemma_pow2_pos, lemma_pow2_unfold, pow2};
use vstd::prelude::*;

verus! {

/// The number of bins in which sizes are counted.
pub const SIZE_BINS: usize = 32;

/// The smallest number of packets of the client that an analysis needs.
pub const MIN_UPLINK: usize = 100;

/// What the analysis of a recording has found.
pub struct AnalysisResult {
    pub uplink_size_modes: Vec<Mode>,
    pub uplink_size_mean: Single,
    pub uplink_size_std: Single,
    pub downlink_size_modes: Vec<Mode>,
    pub uplink_iat_mean_ms: Single,
    pub uplink_iat_std_ms: Single,
    pub uplink_periods: Vec<Period>,
    pub downlink_iat_mean_ms: Single,
    pub downlink_iat_std_ms: Single,
    pub downlink_periods: Vec<Period>,
    pub header_template: Vec<u8>,
    pub header_pattern: Option<Pattern>,
    pub fsm_states: Vec<FSMState>,
    pub fsm_initial_state: u16,
    pub mean_entropy: Single,
    pub total_packets: u64,
    pub duration_secs: u64,
    pub confidence: Single,
}

/// What the number of packets adds to the confidence.
pub open spec fn packet_score(total_packets: nat) -> Single {
    if total_packets >= 10_000 {
        fraction(3, 10)
    } else if total_packets >= 5_000 {
        fraction(1, 4)
    } else if total_packets >= 1_000 {
        fraction(1, 5)
    } else if total_packets >= 500 {
        fraction(3, 20)
    } else {
        zero()
    }
}

/// What the number of modes adds to the confidence.
pub open spec fn mode_score(num_modes: nat) -> Single {
    if num_modes >= 2 {
        fraction(3, 10)
    } else if num_modes == 1 {
        fraction(1, 5)
    } else {
        zero()
    }
}

/// What the entropy adds to the confidence.
pub open spec fn entropy_score(mean_entropy: Single) -> Single {
    if less(of_int(7), mean_entropy) {
        fraction(1, 5)
    } else if less(of_int(6), mean_entropy) {
        fraction(3, 20)
    } else {
        zero()
    }
}

/// The confidence in an analysis.
pub open spec fn confidence(
    total_packets: nat,
    num_modes: nat,
    mean_entropy: Single,
) -> Single {
    smaller(
        plus(
            plus(plus(zero(), packet_score(total_packets)), mode_score(num_modes)),
            entropy_score(mean_entropy),
        ),
        of_int(1),
    )
}

/// The time from the first packet to the last, in whole seconds.
pub open spec fn recorded_secs(packets: Seq<Packet>) -> nat {
    if packets.len() < 2 || packets.last().timestamp_ns < packets[0].timestamp_ns {
        0
    } else {
        ((packets.last().timestamp_ns - packets[0].timestamp_ns) / 1_000_000_000) as nat
    }
}

/// The result of the analysis of packets; `draws` are the random bytes of the header
/// template.
pub open spec fn analysed(packets: Seq<Packet>, draws: Seq<u8>, a: AnalysisResult) -> bool {
    let up = heading(packets, Direction::Uplink);
    let down = heading(packets, Direction::Downlink);
    let headers = headers_of(packets);
    &&& a.uplink_size_modes@ == size_modes(sizes_of(up), SIZE_BINS as nat)
    &&& a.uplink_size_mean == crate::stats::mean(sizes_of(up))
    &&& a.uplink_size_std == crate::stats::deviation(sizes_of(up))
    &&& a.downlink_size_modes@ == size_modes(sizes_of(down), SIZE_BINS as nat)
    &&& a.uplink_iat_mean_ms == single_of(mean(DOUBLE as nat, times_of(up)))
    &&& a.uplink_iat_std_ms == single_of(deviation(DOUBLE as nat, times_of(up)))
    &&& are_periods(times_of(up), a.uplink_periods@)
    &&& a.downlink_iat_mean_ms == single_of(mean(DOUBLE as nat, times_of(down)))
    &&& a.downlink_iat_std_ms == single_of(deviation(DOUBLE as nat, times_of(down)))
    &&& are_periods(times_of(down), a.downlink_periods@)
    &&& a.header_template@ == consensus(headers, draws)
    &&& shape_of(a.header_pattern) == inferred(headers)
    &&& state_models(a.fsm_states@) == automaton(sizes_of(up))
    &&& a.fsm_initial_state == 0
    &&& a.mean_entropy.bits == mean(SINGLE as nat, entropies_of(packets))
    &&& a.total_packets == packets.len()
    &&& a.duration_secs == recorded_secs(packets)
    &&& a.confidence == confidence(
        packets.len(),
        a.uplink_size_modes@.len(),
        a.mean_entropy,
    )
}

/// Packets that can be analysed: where there are enough of them, the times that are
/// sorted are numbers, and the first header can be written in hexadecimal digits.
pub open spec fn analysable(packets: Seq<Packet>) -> bool {
    heading(packets, Direction::Uplink).len() >= MIN_UPLINK ==> {
        &&& all_numbers(times_of(heading(packets, Direction::Uplink)))
        &&& heading(packets, Direction::Downlink).len() >= 10 ==> all_numbers(
            times_of(heading(packets, Direction::Downlink)),
        )
        &&& packets.len() > 0 ==> 2 * packets[0].header_prefix.len() <= isize::MAX
    }
}

/// The confidence in an analysis.
pub fn compute_confidence(
    total_packets: usize,
    num_modes: usize,
    mean_entropy: Single,
) -> (r: Single)
    ensures
        r == confidence(total_packets as nat, num_modes as nat, mean_entropy),
{
    let nothing = Single { bits: 0 };
    let for_packets = if total_packets >= 10_000 {
        Single::fraction(3, 10)
    } else if total_packets >= 5_000 {
        Single::fraction(1, 4)
    } else if total_packets >= 1_000 {
        Single::fraction(1, 5)
    } else if total_packets >= 500 {
        Single::fraction(3, 20)
    } else {
        nothing
    };
    let for_modes = if num_modes >= 2 {
        Single::fraction(3, 10)
    } else if num_modes == 1 {
        Single::fraction(1, 5)
    } else {
        nothing
    };
    let for_entropy = if Single::from_int(7).less(mean_entropy) {
        Single::fraction(1, 5)
    } else if Single::from_int(6).less(mean_entropy) {
        Single::fraction(3, 20)
    } else {
        nothing
    };
    let score = nothing.plus(for_packets).plus(for_modes).plus(for_entropy);
    score.smaller(Single::from_int(1))
}

/// The time from the first packet to the last, in whole seconds.
pub fn recorded_time(packets: &Vec<PacketMetadata>) -> (r: u64)
    ensures
        r == recorded_secs(packet_models(packets@)),
{
    let ghost models = packet_models(packets@);
    if packets.len() < 2 {
        return 0;
    }
    let first: u64 = packets[0].timestamp_ns;
    let last: u64 = packets[packets.len() - 1].timestamp_ns;
    assert(models[0] == packets@[0]@);
    assert(models.last() == packets@[packets@.len() - 1]@);
    if last < first {
        0
    } else {
        (last - first) / 1_000_000_000
    }
}

/// Analyses recorded packets, for given random bytes of the header template.
pub fn analyze_traffic_with(packets: &Vec<PacketMetadata>, draws: &Vec<u8>) -> (r: Result<
    AnalysisResult,
    Error,
>)
    requires
        analysable(packet_models(packets@)),
        draws@.len() >= 16,
    ensures
        match r {
            Ok(a) => heading(packet_models(packets@), Direction::Uplink).len() >= MIN_UPLINK
                && analysed(packet_models(packets@), draws@, a),
            Err(e) => heading(packet_models(packets@), Direction::Uplink).len() < MIN_UPLINK && (
            e matches Error::Mask(text) && text@ == "Too few uplink packets (need >= 100)"@),
        },
        r is Ok <==> heading(packet_models(packets@), Direction::Uplink).len() >= 100,
{
    let ghost models = packet_models(packets@);
    let (up_sizes, up_times) = select(packets, Direction::Uplink);
    let (down_sizes, down_times) = select(packets, Direction::Downlink);
    if up_sizes.len() < MIN_UPLINK {
        return Err(Error::Mask("Too few uplink packets (need >= 100)".to_owned()));
    }
    let uplink_size_modes = find_modes_histogram(up_sizes.as_slice(), SIZE_BINS);
    let uplink_size_mean = mean_u16(up_sizes.as_slice());
    let uplink_size_std = std_dev_u16(up_sizes.as_slice());
    let downlink_size_modes = find_modes_histogram(down_sizes.as_slice(), SIZE_BINS);
    let uplink_periods = find_periods(&up_times);
    let downlink_periods = find_periods(&down_times);
    let (headers, entropies) = collect(packets);
    proof {
        assert(header_models(headers@) == headers_of(models));
        lemma_format(SINGLE as nat);
        assert(models.len() > 0) by {
            if models.len() == 0 {
                assert(heading(models, Direction::Uplink).len() == 0);
            }
        }
        assert(headers_of(models)[0] == models[0].header_prefix);
        assert(header_models(headers@)[0] == headers@[0]@);
        assert(all_patterns(SINGLE as nat, entropies@)) by {
            assert forall|i: int| 0 <= i < entropies@.len() implies crate::ieee::is_pattern(
                SINGLE as nat,
                #[trigger] entropies@[i] as nat,
            ) by {
                assert(entropies@[i] == models[i].entropy as u64);
            }
        }
    }
    let header_template = header_consensus_with(&headers, draws);
    let header_pattern = infer_pattern(&headers);
    let (fsm_states, fsm_initial_state) = build_fsm_from_sizes(up_sizes.as_slice());
    let mean_entropy = mean_f32(&entropies);
    let confidence = compute_confidence(packets.len(), uplink_size_modes.len(), mean_entropy);
    Ok(
        AnalysisResult {
            uplink_size_modes,
            uplink_size_mean,
            uplink_size_std,
            downlink_size_modes,
            uplink_iat_mean_ms: Single { bits: shorten(mean_f64(&up_times)) },
            uplink_iat_std_ms: Single { bits: shorten(std_dev_f64(&up_times)) },
            uplink_periods,
            downlink_iat_mean_ms: Single { bits: shorten(mean_f64(&down_times)) },
            downlink_iat_std_ms: Single { bits: shorten(std_dev_f64(&down_times)) },
            downlink_periods,
            header_template,
            header_pattern,
            fsm_states,
            fsm_initial_state,
            mean_entropy,
            total_packets: packets.len() as u64,
            duration_secs: recorded_time(packets),
            confidence,
        },
    )
}

/// Analyses recorded packets.
pub fn analyze_traffic(packets: &Vec<PacketMetadata>) -> (r: Result<AnalysisResult, Error>)
    requires
        analysable(packet_models(packets@)),
    ensures
        match r {
            Ok(a) => heading(packet_models(packets@), Direction::Uplink).len() >= MIN_UPLINK
                && exists|draws: Seq<u8>|
                draws.len() == 16 && #[trigger] analysed(packet_models(packets@), draws, a),
            Err(e) => heading(packet_models(packets@), Direction::Uplink).len() < MIN_UPLINK && (
            e matches Error::Mask(text) && text@ == "Too few uplink packets (need >= 100)"@),
        },
        r is Ok <==> heading(packet_models(packets@), Direction::Uplink).len() >= 100,
{
    let draws = random_bytes(16);
    analyze_traffic_with(packets, &draws)
}

/// The patterns of the scores.
proof fn lemma_scores()
    ensures
        fraction(3, 20).bits == 123 * SINGLE + 10066330,
        fraction(1, 5).bits == 123 * SINGLE + 13421773,
        fraction(1, 4).bits == 125 * SINGLE,
        fraction(3, 10).bits == 124 * SINGLE + 10066330,
        fraction(4, 5).bits == 125 * SINGLE + 13421773,
{
    lemma2_to64();
    assert(pow2(24) == 0x100_0000 && pow2(25) == 0x200_0000 && pow2(26) == 0x400_0000);
    lemma_fraction_bits(3, 20, 26);
    lemma_fraction_bits(1, 5, 26);
    lemma_fraction_bits(1, 4, 25);
    lemma_fraction_bits(3, 10, 25);
    lemma_fraction_bits(4, 5, 24);
}

/// The scores grow with what they are given for.
proof fn lemma_scores_grow(p: nat, m: nat, e: Single, q: nat, n: nat, f: Single)
    requires
        p <= q,
        m <= n,
        !single_is_nan(f.bits),
        !less(f, e),
    ensures
        packet_score(p).bits <= packet_score(q).bits <= fraction(3, 10).bits,
        mode_score(m).bits <= mode_score(n).bits <= fraction(3, 10).bits,
        entropy_score(e).bits <= entropy_score(f).bits <= fraction(1, 5).bits,
        fraction(3, 10).bits < 0x7f80_0000,
        fraction(1, 5).bits < 0x7f80_0000,
{
    lemma_scores();
    reveal(less);
}

/// The largest scores add up to four fifths.
proof fn lemma_largest_scores()
    ensures
        plus(fraction(3, 10), fraction(3, 10)).bits == 125 * SINGLE + 10066330,
        plus(plus(plus(zero(), fraction(3, 10)), fraction(3, 10)), fraction(1, 5)).bits
            <= fraction(4, 5).bits,
{
    let half = SINGLE as nat;
    lemma_scores();
    lemma_format(half);
    lemma2_to64();
    let (a, b) = (fraction(3, 10), fraction(1, 5));
    lemma_plus_zero(a);
    reveal(plus);
    lemma_pattern_units(half, 124, 10066330);
    lemma_pattern_units(half, 125, 10066330);
    lemma_pattern_units(half, 123, 13421773);
    lemma_pow2_unfold(124);
    lemma_pow2_unfold(125);
    let p = pow2(123);
    lemma_pow2_pos(123);
    let twice = (125 * half + 10066330) as nat;
    law_nearest_to_itself(half, twice);
    assert(plus(a, a).bits == twice);
    let n = (53687093 * p) as nat;
    assert(units(half, twice) + units(half, b.bits as nat) == n);
    reveal_with_fuel(round, 3);
    assert(half_even(53687093, 4) == 13421773);
    assert(round(half, 53687093, 1) == (Flt { mant: 13421773, exp: 2 }));
    lemma_round_shifted(half, 53687093, 1, 123, 0);
    assert(1 * pow2(0) == 1);
    lemma_nearest(half, n, 1);
}

/// The confidence in an analysis lies between zero and four fifths.
pub proof fn law_confidence_is_bounded(total_packets: nat, num_modes: nat, mean_entropy: Single)
    ensures
        !single_is_nan(confidence(total_packets, num_modes, mean_entropy).bits),
        !less(confidence(total_packets, num_modes, mean_entropy), zero()),
        !less(fraction(4, 5), confidence(total_packets, num_modes, mean_entropy)),
{
    let c = confidence(total_packets, num_modes, mean_entropy);
    lemma_confidence(total_packets, num_modes, mean_entropy);
    lemma_scores();
    lemma_less_by_bits(c, zero());
    lemma_less_by_bits(fraction(4, 5), c);
}

/// The sum of the scores, which is never cut.
proof fn lemma_confidence(total_packets: nat, num_modes: nat, mean_entropy: Single)
    ensures
        confidence(total_packets, num_modes, mean_entropy) == plus(
            plus(plus(zero(), packet_score(total_packets)), mode_score(num_modes)),
            entropy_score(mean_entropy),
        ),
        confidence(total_packets, num_modes, mean_entropy).bits <= fraction(4, 5).bits,
{
    let (a, b, c) = (
        packet_score(total_packets),
        mode_score(num_modes),
        entropy_score(mean_entropy),
    );
    let (x, y) = (fraction(3, 10), fraction(1, 5));
    lemma_scores();
    lemma_plus(zero(), a, zero(), x);
    lemma_plus_zero(x);
    lemma_plus(plus(zero(), a), b, plus(zero(), x), x);
    lemma_plus(plus(plus(zero(), a), b), c, plus(plus(zero(), x), x), y);
    lemma_largest_scores();
    let sum = plus(plus(plus(zero(), a), b), c);
    law_proper_fraction(4, 5);
    lemma_ints(0, 1);
    lemma_less_by_bits(fraction(4, 5), of_int(1));
    lemma_less_by_bits(of_int(1), sum);
}

/// More packets, more modes and more entropy never lower the confidence.
pub proof fn law_confidence_grows(
    total_packets: nat,
    num_modes: nat,
    mean_entropy: Single,
    more_packets: nat,
    more_modes: nat,
    more_entropy: Single,
)
    requires
        total_packets <= more_packets,
        num_modes <= more_modes,
        !single_is_nan(more_entropy.bits),
        !less(more_entropy, mean_entropy),
    ensures
        !less(
            confidence(more_packets, more_modes, more_entropy),
            confidence(total_packets, num_modes, mean_entropy),
        ),
{
    let (a, b, c) = (
        packet_score(total_packets),
        mode_score(num_modes),
        entropy_score(mean_entropy),
    );
    let (x, y, z) = (
        packet_score(more_packets),
        mode_score(more_modes),
        entropy_score(more_entropy),
    );
    lemma_scores_grow(
        total_packets,
        num_modes,
        mean_entropy,
        more_packets,
        more_modes,
        more_entropy,
    );
    lemma_plus(zero(), a, zero(), x);
    lemma_plus(plus(zero(), a), b, plus(zero(), x), y);
    lemma_plus(plus(plus(zero(), a), b), c, plus(plus(zero(), x), y), z);
    lemma_confidence(total_packets, num_modes, mean_entropy);
    lemma_confidence(more_packets, more_modes, more_entropy);
    lemma_scores();
    lemma_less_by_bits(
        confidence(more_packets, more_modes, more_entropy),
        confidence(total_packets, num_modes, mean_entropy),
    );
}

/// The confidence is zero exactly for fewer than 500 packets without a mode whose entropy
/// does not exceed six bits.
pub proof fn law_no_confidence_without_evidence(
    total_packets: nat,
    num_modes: nat,
    mean_entropy: Single,
)
    ensures
        confidence(total_packets, num_modes, mean_entropy) == zero() <==> (total_packets < 500
            && num_modes == 0 && !less(of_int(6), mean_entropy)),
{
    let (a, b, c) = (
        packet_score(total_packets),
        mode_score(num_modes),
        entropy_score(mean_entropy),
    );
    let half = SINGLE as nat;
    lemma_scores();
    lemma_format(half);
    lemma_confidence(total_packets, num_modes, mean_entropy);
    let first = plus(zero(), a);
    let second = plus(first, b);
    assert(plus(zero(), zero()) == zero()) by {
        reveal(plus);
        law_nearest_to_itself(half, 0);
        lemma_units_zero(half, 0);
    }
    if a.bits > 0 {
        lemma_plus_zero(a);
    }
    lemma_plus_grows(first, b);
    lemma_plus(first, b, fraction(3, 10), fraction(3, 10));
    lemma_largest_scores();
    lemma_plus(second, zero(), second, c);
    if second.bits > 0 {
        lemma_plus_zero(second);
    }
    if c.bits > 0 {
        lemma_plus(zero(), c, second, c);
        lemma_plus_zero(c);
    }
    assert(less(of_int(7), mean_entropy) ==> less(of_int(6), mean_entropy)) by {
        reveal(less);
        lemma_ints(6, 7);
        lemma_less_by_bits(of_int(7), of_int(6));
    }
}

/// A number in single precision, in units of `2^-149`.
spec fn amount(a: Single) -> int {
    units(SINGLE as nat, a.bits as nat) as int
}

/// A score of so many twentieths, up to rounding.
spec fn is_score(a: Single, twentieths: int, parts: int) -> bool {
    &&& a.bits < 0x7f80_0000
    &&& near(20 * amount(a), twentieths * pow2(149), parts)
}

/// A fraction as a score.
proof fn lemma_fraction_score(n: nat, d: nat, twentieths: nat)
    requires
        0 < n <= d < 0x80_0000,
        twentieths * d == 20 * n,
    ensures
        is_score(fraction(n, d), twentieths as int, 0x100_0000),
{
    let p = pow2(149) as int;
    let q = amount(fraction(n, d));
    lemma_fraction_near(n, d);
    lemma_near_scaled(d * q, n * p, 20, 0x100_0000);
    assert((d * q) * 20 == (20 * q) * d && (n * p) * 20 == (twentieths * p) * d)
        by (nonlinear_arith)
        requires
            twentieths * d == 20 * n,
    ;
    lemma_near_scaled(20 * q, twentieths * p, d as int, 0x100_0000);
}

/// No score.
proof fn lemma_zero_score(parts: int)
    ensures
        is_score(zero(), 0, parts),
{
    let half = SINGLE as nat;
    lemma_format(half);
    lemma_units_zero(half, 0);
    assert(0 * pow2(149) == 0 && (20 * 0 - 0) * parts == 0) by (nonlinear_arith);
}

/// The sum of two scores is their sum, up to rounding.
proof fn lemma_scores_add(a: Single, b: Single, m: int, n: int, parts: int, fewer: int)
    requires
        is_score(a, m, parts),
        is_score(b, n, parts),
        0 <= m <= 20,
        0 <= n <= 20,
        0 < fewer,
        3 * fewer <= parts,
        parts <= 0x100_0000,
    ensures
        is_score(plus(a, b), m + n, fewer),
{
    let half = SINGLE as nat;
    let p = pow2(149) as int;
    let (u, v) = (amount(a), amount(b));
    lemma_format(half);
    lemma_pow2_pos(149);
    reveal(plus);
    assert(0 <= m * p <= 20 * p && 0 <= n * p <= 20 * p) by (nonlinear_arith)
        requires
            0 <= m <= 20,
            0 <= n <= 20,
            p > 0,
    ;
    // Both are below two.
    assert(u <= 2 * p) by (nonlinear_arith)
        requires
            (20 * u - m * p) * parts <= m * p,
            0 <= m * p <= 20 * p,
            parts >= 1,
    ;
    assert(v <= 2 * p) by (nonlinear_arith)
        requires
            (20 * v - n * p) * parts <= n * p,
            0 <= n * p <= 20 * p,
            parts >= 1,
    ;
    law_integer_is_exact(half, 4);
    law_nearest_to_itself(half, integer(half, 4));
    law_nearest_keeps_order(half, (u + v) as nat, 1, (4 * p) as nat, 1);
    let s = plus(a, b);
    law_sum_error(half, a.bits as nat, b.bits as nat);
    lemma_near_sum(20 * u, m * p, 20 * v, n * p, parts);
    assert(m * p + n * p == (m + n) * p) by (nonlinear_arith);
    lemma_near_scaled(amount(s), u + v, 20, 0x100_0000);
    lemma_near_weaker(20 * amount(s), 20 * (u + v), 0x100_0000, parts);
    lemma_near_chain(20 * amount(s), 20 * (u + v), (m + n) * p, parts, fewer);
}

/// The confidence in an analysis is the sum of three scores, up to what rounding changes:
/// three tenths for ten thousand packets or more, a quarter for five thousand, a fifth for a
/// thousand and three twentieths for five hundred; three tenths for two modes or more and a
/// fifth for one; a fifth for an entropy above seven and three twentieths for one above six.
/// It is stated in twentieths, and the entropy and the confidence in units of `2^-149`.
pub proof fn law_confidence_adds_up_scores(
    total_packets: nat,
    num_modes: nat,
    mean_entropy: Single,
)
    requires
        mean_entropy.bits <= 0x7f80_0000,
    ensures
        ({
            let entropy = single_value(mean_entropy.bits);
            let for_packets: int = if total_packets >= 10_000 {
                6
            } else if total_packets >= 5_000 {
                5
            } else if total_packets >= 1_000 {
                4
            } else if total_packets >= 500 {
                3
            } else {
                0
            };
            let for_modes: int = if num_modes >= 2 {
                6
            } else if num_modes == 1 {
                4
            } else {
                0
            };
            let for_entropy: int = if entropy > 7 * pow2(149) {
                4
            } else if entropy > 6 * pow2(149) {
                3
            } else {
                0
            };
            let r = confidence(total_packets, num_modes, mean_entropy);
            &&& r.bits < 0x7f80_0000
            &&& near(
                20 * single_value(r.bits),
                (for_packets + for_modes + for_entropy) * pow2(149),
                0x8_0000,
            )
        }),
{
    let half = SINGLE as nat;
    let p = pow2(149) as int;
    let e = 0x100_0000;
    lemma_format(half);
    lemma_pow2_pos(149);
    lemma_fraction_score(3, 10, 6);
    lemma_fraction_score(1, 4, 5);
    lemma_fraction_score(1, 5, 4);
    lemma_fraction_score(3, 20, 3);
    lemma_zero_score(e);
    reveal(less);
    assert(of_int(7).bits < 0x7f80_0000 && of_int(6).bits < 0x7f80_0000 && amount(of_int(7)) == 7
        * p && amount(of_int(6)) == 6 * p && amount(of_int(1)) == p && of_int(1).bits
        < 0x7f80_0000) by {
        reveal(of_int);
        law_integer_is_exact(half, 7);
        law_integer_is_exact(half, 6);
        law_integer_is_exact(half, 1);
    }
    law_values_agree(0, of_int(7).bits);
    law_values_agree(0, of_int(6).bits);
    law_values_agree(0, of_int(1).bits);
    let (x, y, z) = (
        packet_score(total_packets),
        mode_score(num_modes),
        entropy_score(mean_entropy),
    );
    let a: int = if total_packets >= 10_000 {
        6
    } else if total_packets >= 5_000 {
        5
    } else if total_packets >= 1_000 {
        4
    } else if total_packets >= 500 {
        3
    } else {
        0
    };
    let b: int = if num_modes >= 2 {
        6
    } else if num_modes == 1 {
        4
    } else {
        0
    };
    let entropy = single_value(mean_entropy.bits);
    let c: int = if entropy > 7 * p {
        4
    } else if entropy > 6 * p {
        3
    } else {
        0
    };
    assert(is_score(x, a, e) && is_score(y, b, e));
    assert(is_score(z, c, e));
    lemma_scores_add(zero(), x, 0, a, e, 0x50_0000);
    assert(b * p >= 0 && c * p >= 0 && (a + b + c) * p >= 0 && (a + b + c) * p <= 16 * p)
        by (nonlinear_arith)
        requires
            0 <= a <= 6,
            0 <= b <= 6,
            0 <= c <= 4,
            p > 0,
    ;
    lemma_near_weaker(20 * amount(y), b * p, e, 0x50_0000);
    lemma_scores_add(plus(zero(), x), y, a, b, 0x50_0000, 0x18_0000);
    lemma_near_weaker(20 * amount(z), c * p, e, 0x18_0000);
    let s = plus(plus(plus(zero(), x), y), z);
    lemma_scores_add(plus(plus(zero(), x), y), z, a + b, c, 0x18_0000, 0x8_0000);
    law_values_agree(0, s.bits);
    assert(amount(s) < p) by (nonlinear_arith)
        requires
            (20 * amount(s) - (a + b + c) * p) * 0x8_0000 <= (a + b + c) * p,
            0 <= (a + b + c) * p <= 16 * p,
            p > 0,
    ;
    assert(confidence(total_packets, num_modes, mean_entropy) == s);
}

/// An analysis describes the recording that it was made from: the sizes and the times of the
/// packets that the client sent, and of those that it received, and the headers and the
/// entropies of all packets; it counts all packets, and the whole seconds between the first
/// one and the last one.
pub proof fn law_analysis_describes_recording(
    packets: Seq<Packet>,
    draws: Seq<u8>,
    a: AnalysisResult,
)
    requires
        analysed(packets, draws, a),
    ensures
        ({
            let up = packets.filter(|p: Packet| p.direction == Direction::Uplink);
            let down = packets.filter(|p: Packet| p.direction == Direction::Downlink);
            let up_sizes = Seq::new(up.len(), |i: int| up[i].size);
            let down_sizes = Seq::new(down.len(), |i: int| down[i].size);
            let up_times = Seq::new(up.len(), |i: int| up[i].iat_ms);
            let down_times = Seq::new(down.len(), |i: int| down[i].iat_ms);
            let headers = Seq::new(packets.len(), |i: int| packets[i].header_prefix);
            let entropies = Seq::new(packets.len(), |i: int| packets[i].entropy as u64);
            &&& a.uplink_size_modes@ == size_modes(up_sizes, 32)
            &&& a.downlink_size_modes@ == size_modes(down_sizes, 32)
            &&& a.uplink_size_mean == crate::stats::mean(up_sizes)
            &&& a.uplink_size_std == crate::stats::deviation(up_sizes)
            &&& a.uplink_iat_mean_ms == single_of(mean(DOUBLE as nat, up_times))
            &&& a.uplink_iat_std_ms == single_of(deviation(DOUBLE as nat, up_times))
            &&& a.downlink_iat_mean_ms == single_of(mean(DOUBLE as nat, down_times))
            &&& a.downlink_iat_std_ms == single_of(deviation(DOUBLE as nat, down_times))
            &&& are_periods(up_times, a.uplink_periods@)
            &&& are_periods(down_times, a.downlink_periods@)
            &&& a.header_template@ == consensus(headers, draws)
            &&& shape_of(a.header_pattern) == inferred(headers)
            &&& state_models(a.fsm_states@) == automaton(up_sizes)
            &&& a.fsm_initial_state == 0
            &&& a.mean_entropy.bits == mean(SINGLE as nat, entropies)
            &&& a.total_packets == packets.len()
            &&& a.confidence == confidence(
                packets.len(),
                a.uplink_size_modes@.len(),
                a.mean_entropy,
            )
        }),
{
    law_directions_part_packets(packets, Direction::Uplink);
    law_directions_part_packets(packets, Direction::Downlink);
    let up = heading(packets, Direction::Uplink);
    let down = heading(packets, Direction::Downlink);
    assert(sizes_of(up) =~= Seq::new(up.len(), |i: int| up[i].size));
    assert(sizes_of(down) =~= Seq::new(down.len(), |i: int| down[i].size));
    assert(times_of(up) =~= Seq::new(up.len(), |i: int| up[i].iat_ms));
    assert(times_of(down) =~= Seq::new(down.len(), |i: int| down[i].iat_ms));
    assert(headers_of(packets) =~= Seq::new(packets.len(), |i: int| packets[i].header_prefix));
    assert(entropies_of(packets) =~= Seq::new(packets.len(), |i: int| packets[i].entropy as u64));
}

/// The recorded time is the number of whole seconds from the first packet to the last; a
/// clock that ran backwards, and a single packet, count as none.
pub proof fn law_recorded_time_is_in_seconds(packets: Seq<Packet>)
    ensures
        packets.len() < 2 ==> recorded_secs(packets) == 0,
        packets.len() >= 2 ==> ({
            let first = packets[0].timestamp_ns;
            let last = packets[packets.len() - 1].timestamp_ns;
            &&& last < first ==> recorded_secs(packets) == 0
            &&& last >= first ==> recorded_secs(packets) * 1_000_000_000 <= last - first
                < (recorded_secs(packets) + 1) * 1_000_000_000
        }),
{
}

} // verus!
