//! Mask profiles built from the analysis of recorded traffic.
use crate::analysis::AnalysisResult;
use crate::consensus::{shape_of, shape_spec, Pattern, Shape};
use crate::header::{
    drawn_to_length, fields_len, header_bytes, law_protocol_lengths, spec_fields,
};
use crate::double::DOUBLE_ONE;
use crate::float_bits::{double_is_nan, double_less, law_patterns_order_numbers, single_value};
use crate::ieee::{
    infinity, is_infinite, law_integer_is_exact, law_nearest_to_itself, law_values_agree,
    lemma_format, lemma_pattern_units, lemma_units_zero, lemma_wide_value, product, product_of,
    quotient, quotient_of, units, widen, widened,
};
use crate::mask::{
    default_signature, has_arrival_params, has_curve_params, state_models, Arrivals, IATDistType,
    IATDistribution, MaskProfile, PaddingStrategy, ParametricType, SizeDistType, SizeDistribution,
    Sizes, SpoofProtocol,
};
use crate::mask_rng::DrawLog;
use crate::modes::Mode;
use crate::monotone::{law_nearest_keeps_order, lemma_ints, lemma_units_order};
use crate::periods::Period;
use crate::single::{
    fraction, larger, law_small_sum, law_whole_is_capped, law_whole_of_int, law_whole_of_larger,
    less, minus, of_int, over, plus, square, times, whole, Single,
};
use crate::soft_float::{DOUBLE, SINGLE};
use vstd::arithmetic::power2::{lemma2_to64_rest, lemma_pow2_adds, lemma_pow2_pos, pow2};
use vstd::prelude::*;
use vstd::string::{StrSliceExecFns, StringExecFns};

verus! {

/// A tenth in double precision.
pub const DOUBLE_TENTH: u64 = 0x3fb9_9999_9999_999a;

/// Ten in double precision.
pub const DOUBLE_TEN: u64 = 0x4024_0000_0000_0000;

/// The seconds for which a generated mask is valid: a year.
pub const VALID_SECS: u64 = 31_536_000;

/// What `str::to_lowercase` makes of a text.
pub uninterp spec fn lowercase(text: Seq<char>) -> Seq<char>;

/// Calls `str::to_lowercase`. Its result is a function of the text.
#[verifier::external_body]
fn lowered(text: &str) -> (r: String)
    ensures
        r@ == lowercase(text@),
{
    text.to_lowercase()
}

/// A text with underscores in place of spaces.
pub open spec fn without_spaces(text: Seq<char>) -> Seq<char> {
    text.map_values(
        |c: char|
            if c == ' ' {
                '_'
            } else {
                c
            },
    )
}

/// Puts an underscore in place of every space.
fn underscored(text: &str) -> (r: String)
    ensures
        r@ == without_spaces(text@),
{
    proof {
        reveal_strlit("");
        reveal_strlit("_");
    }
    let len: usize = text.unicode_len();
    let mut r: String = "".to_owned();
    let mut i: usize = 0;
    assert(r@ =~= without_spaces(text@).take(0));
    while i < len
        invariant
            i <= len,
            len == text@.len(),
            "_"@ == seq!['_'],
            r@ == without_spaces(text@).take(i as int),
        decreases len - i,
    {
        if text.get_char(i) == ' ' {
            r.append("_");
        } else {
            r.append(text.substring_char(i, i + 1));
        }
        assert(r@ =~= without_spaces(text@).take(i + 1));
        i = i + 1;
    }
    assert(r@ =~= without_spaces(text@));
    r
}

/// The identifier of a generated mask, from the name of its service in lower case.
pub fn mask_id_for(name: &str) -> (r: String)
    ensures
        r@ == "auto_"@ + name@ + "_v1"@,
{
    "auto_".to_owned().concat(name).concat("_v1")
}

/// The identifier of the mask that is generated for a service.
pub fn mask_id_of(service: &str) -> (r: String)
    ensures
        r@ == "auto_"@ + lowercase(without_spaces(service@)) + "_v1"@,
{
    let plain = underscored(service);
    let name = lowered(plain.as_str());
    mask_id_for(name.as_str())
}

/// The smallest size of a mode's bin: at least one.
pub open spec fn bin_low(mode: Mode) -> u16 {
    whole(larger(minus(mode.center, mode.std_dev), of_int(1)), 65535) as u16
}

/// The largest size of a mode's bin: at least one more than the smallest.
pub open spec fn bin_high(mode: Mode) -> u16 {
    whole(
        larger(
            plus(mode.center, mode.std_dev),
            plus(of_int(bin_low(mode) as nat), of_int(1)),
        ),
        65535,
    ) as u16
}

/// The bins of modes: one standard deviation to either side of each.
pub open spec fn mode_bins(modes: Seq<Mode>) -> Seq<(u16, u16, u32)> {
    modes.map_values(|m: Mode| (bin_low(m), bin_high(m), m.weight.bits))
}

/// The distribution of sizes: the bins of the modes, or where there are none a curve;
/// `log` is the logarithm of [`size_log_argument`].
pub open spec fn profile_sizes(
    modes: Seq<Mode>,
    mean: Single,
    std_dev: Single,
    log: Single,
) -> Sizes {
    if modes.len() == 0 {
        Sizes {
            dist_type: SizeDistType::Parametric,
            bins: Seq::empty(),
            parametric_type: Some(ParametricType::LogNormal),
            parametric_params: Some(
                seq![
                    widened(log.bits as nat) as u64,
                    wide_ratio(std_dev, mean),
                ],
            ),
        }
    } else {
        Sizes {
            dist_type: SizeDistType::Histogram,
            bins: mode_bins(modes),
            parametric_type: None,
            parametric_params: None,
        }
    }
}

/// A deviation in relation to a mean of at least one, itself at least a tenth, in
/// double precision.
pub open spec fn wide_ratio(std_dev: Single, mean: Single) -> u64 {
    widened(
        larger(over(std_dev, larger(mean, of_int(1))), fraction(1, 10)).bits as nat,
    ) as u64
}

/// The number whose logarithm describes the sizes of an analysis without modes.
pub open spec fn size_log_argument(mean: Single) -> Single {
    larger(mean, of_int(1))
}

/// The number whose logarithm describes the inter-arrival times of an analysis with at
/// most one period.
pub open spec fn iat_log_argument(mean: Single, periods: Seq<Period>) -> Single {
    if periods.len() == 0 {
        larger(mean, of_int(1))
    } else {
        larger(periods[0].period_ms, of_int(1))
    }
}

/// The mean of two periods by their weights.
pub open spec fn weighted_mean(a: Period, b: Period) -> Single {
    plus(times(a.period_ms, a.weight), times(b.period_ms, b.weight))
}

/// The distribution of inter-arrival times; `log` is the logarithm of
/// [`iat_log_argument`].
pub open spec fn profile_arrivals(
    mean: Single,
    std_dev: Single,
    periods: Seq<Period>,
    log: Single,
) -> Arrivals {
    let bound = larger(std_dev, of_int(1));
    let jitter = product(DOUBLE as nat, widened(bound.bits as nat), DOUBLE_TENTH as nat) as u64;
    if periods.len() >= 2 {
        let centre = weighted_mean(periods[0], periods[1]);
        let k = larger(square(over(centre, bound)), of_int(1));
        let theta = quotient(
            DOUBLE as nat,
            widened(square(std_dev).bits as nat),
            widened(larger(centre, of_int(1)).bits as nat),
        ) as u64;
        Arrivals {
            dist_type: IATDistType::Gamma,
            params: seq![widened(k.bits as nat) as u64, theta],
            jitter_range_ms: (0, jitter),
        }
    } else if periods.len() == 1 {
        Arrivals {
            dist_type: IATDistType::LogNormal,
            params: seq![
                widened(log.bits as nat) as u64,
                wide_ratio(periods[0].jitter_ms, periods[0].period_ms),
            ],
            jitter_range_ms: (0, jitter),
        }
    } else {
        Arrivals {
            dist_type: IATDistType::LogNormal,
            params: seq![widened(log.bits as nat) as u64, wide_ratio(std_dev, mean)],
            jitter_range_ms: (0, DOUBLE_TEN),
        }
    }
}

/// The protocol that a mask with a header pattern looks like.
pub open spec fn spoofed(shape: Option<Shape>) -> SpoofProtocol {
    match shape {
        Some(Shape::StunBinding(_)) => SpoofProtocol::WebRTC_STUN,
        Some(Shape::QuicInitial(_, _)) => SpoofProtocol::QUIC,
        Some(Shape::DnsQuery(_)) => SpoofProtocol::DNS_over_UDP,
        Some(Shape::TlsRecord(_, _)) => SpoofProtocol::HTTPS_H2,
        _ => SpoofProtocol::QUIC,
    }
}

/// Where the ephemeral public key stands: behind the generated header, or behind the
/// first bytes of the template. The position is kept in 16 bits.
pub open spec fn key_offset(shape: Option<Shape>, template_len: nat) -> nat {
    match shape {
        Some(s) => fields_len(spec_fields(shape_spec(s))) % 65536,
        None => if template_len < 4 {
            template_len
        } else {
            4
        },
    }
}

/// The lower bound of the size bin of a mode.
fn low_of(mode: &Mode) -> (r: u16)
    ensures
        r == bin_low(*mode),
{
    mode.center.minus(mode.std_dev).larger(Single::from_int(1)).whole(65535) as u16
}

/// The upper bound of the size bin of a mode.
fn high_of(mode: &Mode, low: u16) -> (r: u16)
    requires
        low == bin_low(*mode),
    ensures
        r == bin_high(*mode),
{
    let least = Single::from_int(low as u64).plus(Single::from_int(1));
    mode.center.plus(mode.std_dev).larger(least).whole(65535) as u16
}

/// A deviation in relation to a mean.
fn relate(std_dev: Single, mean: Single) -> (r: u64)
    ensures
        r == wide_ratio(std_dev, mean),
{
    let ratio = std_dev.over(mean.larger(Single::from_int(1)));
    widen(ratio.larger(Single::fraction(1, 10)).bits)
}

/// The number whose logarithm describes the sizes of an analysis without modes.
pub fn log_argument_of_sizes(analysis: &AnalysisResult) -> (r: Single)
    ensures
        r == size_log_argument(analysis.uplink_size_mean),
{
    analysis.uplink_size_mean.larger(Single::from_int(1))
}

/// The number whose logarithm describes the inter-arrival times of an analysis with at
/// most one period.
pub fn log_argument_of_times(analysis: &AnalysisResult) -> (r: Single)
    ensures
        r == iat_log_argument(analysis.uplink_iat_mean_ms, analysis.uplink_periods@),
{
    let unit = Single::from_int(1);
    if analysis.uplink_periods.len() == 0 {
        analysis.uplink_iat_mean_ms.larger(unit)
    } else {
        analysis.uplink_periods[0].period_ms.larger(unit)
    }
}

/// The distribution of sizes.
fn build_sizes(modes: &Vec<Mode>, mean: Single, std_dev: Single, log: Single) -> (r:
    SizeDistribution)
    ensures
        r@ == profile_sizes(modes@, mean, std_dev, log),
{
    let mut bins: Vec<(u16, u16, u32)> = Vec::new();
    while bins.len() < modes.len()
        invariant
            bins@.len() <= modes@.len(),
            bins@ == mode_bins(modes@).take(bins@.len() as int),
        decreases modes@.len() - bins@.len(),
    {
        let mode = &modes[bins.len()];
        let low: u16 = low_of(mode);
        let high: u16 = high_of(mode, low);
        let ghost count = bins@.len();
        bins.push((low, high, mode.weight.bits));
        assert(bins@ =~= mode_bins(modes@).take(count as int + 1));
    }
    assert(bins@ =~= mode_bins(modes@));
    if modes.len() == 0 {
        let params: Vec<u64> = vec![widen(log.bits), relate(std_dev, mean)];
        let sizes = SizeDistribution {
            dist_type: SizeDistType::Parametric,
            bins,
            parametric_type: Some(ParametricType::LogNormal),
            parametric_params: Some(params),
        };
        assert(params@ =~= profile_sizes(modes@, mean, std_dev, log).parametric_params->0);
        assert(bins@ =~= Seq::<(u16, u16, u32)>::empty());
        sizes
    } else {
        SizeDistribution {
            dist_type: SizeDistType::Histogram,
            bins,
            parametric_type: None,
            parametric_params: None,
        }
    }
}

/// The distribution of inter-arrival times.
fn build_arrivals(mean: Single, std_dev: Single, periods: &Vec<Period>, log: Single) -> (r:
    IATDistribution)
    ensures
        r@ == profile_arrivals(mean, std_dev, periods@, log),
{
    proof {
        lemma_format(DOUBLE as nat);
    }
    let unit = Single::from_int(1);
    let bound = std_dev.larger(unit);
    let jitter: u64 = product_of(DOUBLE, widen(bound.bits), DOUBLE_TENTH);
    if periods.len() >= 2 {
        let first = periods[0].period_ms.times(periods[0].weight);
        let second = periods[1].period_ms.times(periods[1].weight);
        let centre = first.plus(second);
        let k = centre.over(bound).square().larger(unit);
        let theta: u64 = quotient_of(
            DOUBLE,
            widen(std_dev.square().bits),
            widen(centre.larger(unit).bits),
        );
        let params: Vec<u64> = vec![widen(k.bits), theta];
        assert(params@ =~= profile_arrivals(mean, std_dev, periods@, log).params);
        IATDistribution { dist_type: IATDistType::Gamma, params, jitter_range_ms: (0, jitter) }
    } else if periods.len() == 1 {
        let params: Vec<u64> = vec![
            widen(log.bits),
            relate(periods[0].jitter_ms, periods[0].period_ms),
        ];
        assert(params@ =~= profile_arrivals(mean, std_dev, periods@, log).params);
        IATDistribution { dist_type: IATDistType::LogNormal, params, jitter_range_ms: (0, jitter) }
    } else {
        let params: Vec<u64> = vec![widen(log.bits), relate(std_dev, mean)];
        assert(params@ =~= profile_arrivals(mean, std_dev, periods@, log).params);
        IATDistribution {
            dist_type: IATDistType::LogNormal,
            params,
            jitter_range_ms: (0, DOUBLE_TEN),
        }
    }
}

/// The protocol that a mask with a header pattern looks like.
pub fn spoof_protocol_of(pattern: &Option<Pattern>) -> (r: SpoofProtocol)
    ensures
        r == spoofed(shape_of(*pattern)),
{
    match pattern {
        Some(Pattern::StunBinding { .. }) => SpoofProtocol::WebRTC_STUN,
        Some(Pattern::QuicInitial { .. }) => SpoofProtocol::QUIC,
        Some(Pattern::DnsQuery { .. }) => SpoofProtocol::DNS_over_UDP,
        Some(Pattern::TlsRecord { .. }) => SpoofProtocol::HTTPS_H2,
        Some(Pattern::RawPrefix { .. }) => SpoofProtocol::QUIC,
        None => SpoofProtocol::QUIC,
    }
}

/// The profile that is built for a service from an analysis. `size_log` and `iat_log`
/// are the logarithms that [`log_argument_of_sizes`] and [`log_argument_of_times`] ask
/// for; `now` is the time in seconds since the epoch.
pub fn build_mask_profile(
    service: &str,
    analysis: AnalysisResult,
    size_log: Single,
    iat_log: Single,
    now: u64,
) -> (r: MaskProfile)
    requires
        now <= u64::MAX - VALID_SECS,
    ensures
        r.mask_id@ == "auto_"@ + lowercase(without_spaces(service@)) + "_v1"@,
        r.version == 2,
        r.created_at == now,
        r.expires_at == now + VALID_SECS,
        r.expires_at == now + 365 * 24 * 3600,
        r.spoof_protocol == spoofed(shape_of(analysis.header_pattern)),
        r.header_template@ == analysis.header_template@,
        r.eph_pub_offset == key_offset(
            shape_of(analysis.header_pattern),
            analysis.header_template@.len(),
        ),
        r.eph_pub_length == 32,
        r.size_distribution@ == profile_sizes(
            analysis.uplink_size_modes@,
            analysis.uplink_size_mean,
            analysis.uplink_size_std,
            size_log,
        ),
        r.iat_distribution@ == profile_arrivals(
            analysis.uplink_iat_mean_ms,
            analysis.uplink_iat_std_ms,
            analysis.uplink_periods@,
            iat_log,
        ),
        r.padding_strategy == (PaddingStrategy::RandomUniform { min: 0, max: 64 }),
        state_models(r.fsm_states@) == state_models(analysis.fsm_states@),
        r.fsm_initial_state == analysis.fsm_initial_state,
        r.signature_vector@ == Seq::new(64, |i: int| 0u32),
        r.reverse_profile is None,
        r.signature@ == Seq::new(64, |i: int| 0u8),
        match (r.header_spec, shape_of(analysis.header_pattern)) {
            (Some(spec), Some(shape)) => spec@ == shape_spec(shape),
            (None, None) => true,
            _ => false,
        },
{
    let size_distribution = build_sizes(
        &analysis.uplink_size_modes,
        analysis.uplink_size_mean,
        analysis.uplink_size_std,
        size_log,
    );
    let iat_distribution = build_arrivals(
        analysis.uplink_iat_mean_ms,
        analysis.uplink_iat_std_ms,
        &analysis.uplink_periods,
        iat_log,
    );
    let header_spec = match &analysis.header_pattern {
        Some(pattern) => {
            proof {
                lemma_shape_len(pattern@);
            }
            Some(pattern.to_spec())
        },
        None => None,
    };
    let eph_pub_offset: u16 = match &header_spec {
        Some(spec) => (spec.min_length() % 65536) as u16,
        None => {
            if analysis.header_template.len() < 4 {
                analysis.header_template.len() as u16
            } else {
                4
            }
        },
    };
    let signature_vector: Vec<u32> = vec![0; 64];
    assert(signature_vector@ =~= Seq::new(64, |i: int| 0u32));
    MaskProfile {
        mask_id: mask_id_of(service),
        version: 2,
        created_at: now,
        expires_at: now + VALID_SECS,
        spoof_protocol: spoof_protocol_of(&analysis.header_pattern),
        header_template: analysis.header_template,
        eph_pub_offset,
        eph_pub_length: 32,
        size_distribution,
        iat_distribution,
        padding_strategy: PaddingStrategy::RandomUniform { min: 0, max: 64 },
        fsm_states: analysis.fsm_states,
        fsm_initial_state: analysis.fsm_initial_state,
        signature_vector,
        reverse_profile: None,
        signature: default_signature(),
        header_spec,
    }
}

/// The headers of a known protocol are short.
proof fn lemma_shape_len(shape: Shape)
    ensures
        shape_spec(shape) is Structured ==> fields_len(spec_fields(shape_spec(shape))) <= 26,
{
    match shape {
        Shape::StunBinding(magic_cookie) => {
            law_protocol_lengths(magic_cookie, 0, 0, 0, 0, 0);
        },
        Shape::QuicInitial(version, dcid_len) => {
            law_protocol_lengths(false, version, dcid_len, 0, 0, 0);
        },
        Shape::DnsQuery(flags) => {
            law_protocol_lengths(false, 0, 0, flags, 0, 0);
        },
        Shape::TlsRecord(content_type, version) => {
            law_protocol_lengths(false, 0, 0, 0, content_type, version);
        },
        Shape::RawPrefix(_, _) => {},
    }
}

/// In every header of a mask whose template has a pattern, the ephemeral public key
/// stands directly behind the generated bytes.
pub proof fn law_key_stands_behind_header(shape: Shape, template_len: nat, log: DrawLog)
    requires
        drawn_to_length(spec_fields(shape_spec(shape)), log),
        fields_len(spec_fields(shape_spec(shape))) < 65536,
    ensures
        key_offset(Some(shape), template_len) == header_bytes(
            spec_fields(shape_spec(shape)),
            log,
        ).len(),
{
    let fields = spec_fields(shape_spec(shape));
    assert(fields.take(fields.len() as int) =~= fields);
}

/// Every bin of a generated mask holds a size: its bounds are at least one and in order,
/// and more than one size lies between them unless the lower one is the largest size.
pub proof fn law_bins_hold_sizes(mode: Mode)
    ensures
        1 <= bin_low(mode) <= bin_high(mode),
        bin_low(mode) < bin_high(mode) || bin_low(mode) == 65535,
{
    let low = bin_low(mode) as nat;
    let narrow = larger(minus(mode.center, mode.std_dev), of_int(1));
    let wide = larger(plus(mode.center, mode.std_dev), plus(of_int(low), of_int(1)));
    law_whole_is_capped(narrow, 65535);
    law_whole_is_capped(wide, 65535);
    law_whole_of_int(1, 65535);
    law_whole_of_larger(minus(mode.center, mode.std_dev), of_int(1), 65535);
    law_small_sum(low, 1);
    law_whole_of_int(low + 1, 65535);
    law_whole_of_larger(plus(mode.center, mode.std_dev), of_int(low + 1), 65535);
}

/// From the sizes of a generated mask a packet size can be drawn, whatever the curve
/// and the weights give: both parameters of the curve are there, and every bin holds a
/// size.
pub proof fn law_generated_sizes_can_be_drawn(
    modes: Seq<Mode>,
    mean: Single,
    std_dev: Single,
    log: Single,
    pick: usize,
)
    ensures
        ({
            let sizes = profile_sizes(modes, mean, std_dev, log);
            &&& has_curve_params(sizes)
            &&& pick < sizes.bins.len() ==> sizes.bins[pick as int].0 <= sizes.bins[pick as int].1
        }),
{
    if pick < modes.len() {
        law_bins_hold_sizes(modes[pick as int]);
    }
}

/// From the times of a generated mask an inter-arrival time can be drawn: all parameters
/// of its curve are there, and the jitter range reaches from zero to a number that is not
/// negative, and that is finite unless the deviation of the recorded times is not.
pub proof fn law_generated_times_can_be_drawn(
    mean: Single,
    std_dev: Single,
    periods: Seq<Period>,
    log: Single,
)
    ensures
        ({
            let arrivals = profile_arrivals(mean, std_dev, periods, log);
            let (low, high) = arrivals.jitter_range_ms;
            &&& has_arrival_params(arrivals)
            &&& low == 0
            &&& !double_is_nan(high)
            &&& !double_less(high, low)
            &&& !is_infinite(SINGLE as nat, std_dev.bits as nat) ==> !is_infinite(
                DOUBLE as nat,
                high as nat,
            )
        }),
{
    let (half, wide) = (SINGLE as nat, DOUBLE as nat);
    let bound = larger(std_dev, of_int(1));
    let b = bound.bits as nat;
    lemma_format(half);
    lemma_format(wide);
    lemma_ints(1, 1);
    law_whole_of_int(1, 1);
    lemma_unit_bits();
    assert(b <= infinity(half)) by {
        reveal(less);
        law_values_agree(0, std_dev.bits);
        law_values_agree(0, of_int(1).bits);
    }
    let tenth = DOUBLE_TENTH as nat;
    let jitter = product(wide, widened(b), tenth);
    lemma_units_order(wide, tenth, DOUBLE_ONE as nat);
    lemma_double_one();
    lemma_units_zero(wide, tenth);
    if b < infinity(half) {
        lemma_wide_value(b);
        let w = widened(b);
        let (u, t, p) = (units(wide, w), units(wide, tenth), pow2(1074));
        lemma_pow2_pos(1074);
        assert((u * t) * 1 <= u * p) by (nonlinear_arith)
            requires
                t <= p,
        ;
        law_nearest_to_itself(wide, w);
        law_nearest_keeps_order(wide, u * t, p, u, 1);
    } else {
        lemma_units_zero(wide, infinity(wide));
    }
    assert(jitter <= infinity(wide));
    assert(b < infinity(half) ==> jitter < infinity(wide));
    law_patterns_order_numbers(0, 0, jitter as u64, 0);
    law_patterns_order_numbers(0, 0, DOUBLE_TEN, 0);
}

/// One is a positive number in single precision.
proof fn lemma_unit_bits()
    ensures
        0 < of_int(1).bits < 0x7f80_0000,
        single_value(of_int(1).bits) > 0,
{
    let half = SINGLE as nat;
    reveal(of_int);
    lemma_format(half);
    law_integer_is_exact(half, 1);
    lemma_pow2_pos(149);
    lemma_units_zero(half, of_int(1).bits as nat);
    law_values_agree(0, of_int(1).bits);
}

/// The units of one in double precision.
pub proof fn lemma_double_one()
    ensures
        units(DOUBLE as nat, DOUBLE_ONE as nat) == pow2(1074),
{
    let wide = DOUBLE as nat;
    lemma_format(wide);
    lemma_pattern_units(wide, 1022, wide);
    lemma2_to64_rest();
    lemma_pow2_adds(52, 1022);
}

/// A mask looks like the protocol that its headers were taken for; headers that were taken for
/// none, and those of a raw prefix, pass as QUIC.
pub proof fn law_protocol_follows_headers(
    magic_cookie: bool,
    version: u32,
    dcid_len: u8,
    flags: u16,
    content_type: u8,
    tls_version: u16,
    text: Seq<char>,
    indices: Seq<usize>,
)
    ensures
        spoofed(Some(Shape::StunBinding(magic_cookie))) == SpoofProtocol::WebRTC_STUN,
        spoofed(Some(Shape::QuicInitial(version, dcid_len))) == SpoofProtocol::QUIC,
        spoofed(Some(Shape::DnsQuery(flags))) == SpoofProtocol::DNS_over_UDP,
        spoofed(Some(Shape::TlsRecord(content_type, tls_version))) == SpoofProtocol::HTTPS_H2,
        spoofed(Some(Shape::RawPrefix(text, indices))) == SpoofProtocol::QUIC,
        spoofed(None) == SpoofProtocol::QUIC,
{
}

/// Without a pattern the key stands behind the first four bytes of the template, or behind all
/// of a shorter one.
pub proof fn law_key_stands_behind_four_bytes(template_len: nat)
    ensures
        template_len >= 4 ==> key_offset(None, template_len) == 4,
        template_len < 4 ==> key_offset(None, template_len) == template_len,
{
}

/// Where there are modes, sizes are drawn from one bin for each mode, in their order and with
/// their weights.
pub proof fn law_bins_follow_modes(
    modes: Seq<Mode>,
    mean: Single,
    std_dev: Single,
    log: Single,
    i: int,
)
    requires
        0 <= i < modes.len(),
    ensures
        ({
            let sizes = profile_sizes(modes, mean, std_dev, log);
            &&& sizes.dist_type == SizeDistType::Histogram
            &&& sizes.bins.len() == modes.len()
            &&& sizes.bins[i].0 == bin_low(modes[i])
            &&& sizes.bins[i].1 == bin_high(modes[i])
            &&& sizes.bins[i].2 == modes[i].weight.bits
            &&& sizes.parametric_type is None
            &&& sizes.parametric_params is None
        }),
{
}

/// The identifier of a mask has an underscore wherever the name of the service has a space, and
/// every other character as it is.
pub proof fn law_spaces_become_underscores(text: Seq<char>, i: int)
    requires
        0 <= i < text.len(),
    ensures
        without_spaces(text).len() == text.len(),
        text[i] == ' ' ==> without_spaces(text)[i] == '_',
        text[i] != ' ' ==> without_spaces(text)[i] == text[i],
{
}

} // verus!
