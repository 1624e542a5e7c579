//! Mask profiles: how the traffic of a tunnel is shaped.
use crate::canonical::{put_profile, signed_bytes};
use crate::error::Error;
use crate::double::{larger, larger_of, whole, whole_of, DOUBLE_ONE};
use crate::float_bits::{double_is_nan, double_less, double_value, single_value};
use crate::header::{copy_bytes, HeaderSpec, Spec};
use crate::ieee::{
    is_infinite, is_nan, law_integer_is_exact, law_values_agree, lemma_exact_units, lemma_format,
    lemma_nearest_common_factor, lemma_units_zero, negated, product, product_of, quotient,
    quotient_of, sum, sum_of, units,
};
use crate::mask_rng::{drawn_small, random_draw, Draw, DrawLog, MaskRng};
use crate::monotone::law_signed_sums_keep_order;
use crate::single::{fraction, less, of_int, over, Single};
use crate::soft_float::{DOUBLE, SINGLE};
use ed25519_dalek::{Signature, Verifier, VerifyingKey};
use vstd::arithmetic::div_mod::lemma_fundamental_div_mod;
use vstd::arithmetic::power2::{lemma2_to64, lemma_pow2_adds, lemma_pow2_pos, pow2};
use vstd::prelude::*;
use vstd::string::StringExecFns;

verus! {

/// The protocol that a mask looks like.
#[allow(non_camel_case_types)]
#[derive(Debug, Clone, Copy, PartialEq, Eq, Structural)]
pub enum SpoofProtocol {
    /// No protocol in particular.
    Unspoofed,
    QUIC,
    WebRTC_STUN,
    HTTPS_H2,
    DNS_over_UDP,
}

/// How packet sizes are described.
#[derive(Debug, Clone, Copy, PartialEq, Eq, Structural)]
pub enum SizeDistType {
    Histogram,
    Parametric,
}

/// The family of a parametric size distribution.
#[derive(Debug, Clone, Copy, PartialEq, Eq, Structural)]
pub enum ParametricType {
    LogNormal,
    Gamma,
    Bimodal,
}

/// How inter-arrival times are described.
#[derive(Debug, Clone, Copy, PartialEq, Eq, Structural)]
pub enum IATDistType {
    Exponential,
    LogNormal,
    Gamma,
    Empirical,
}

/// A distribution of packet sizes. Weights are single-precision bit patterns,
/// parameters double-precision ones.
#[derive(Debug)]
pub struct SizeDistribution {
    pub dist_type: SizeDistType,
    /// Smallest size, largest size and weight of each bin.
    pub bins: Vec<(u16, u16, u32)>,
    pub parametric_type: Option<ParametricType>,
    pub parametric_params: Option<Vec<u64>>,
}

/// The model of a size distribution.
pub struct Sizes {
    pub dist_type: SizeDistType,
    pub bins: Seq<(u16, u16, u32)>,
    pub parametric_type: Option<ParametricType>,
    pub parametric_params: Option<Seq<u64>>,
}

impl View for SizeDistribution {
    type V = Sizes;

    open spec fn view(&self) -> Sizes {
        Sizes {
            dist_type: self.dist_type,
            bins: self.bins@,
            parametric_type: self.parametric_type,
            parametric_params: match self.parametric_params {
                Some(params) => Some(params@),
                None => None,
            },
        }
    }
}

impl Clone for SizeDistribution {
    fn clone(&self) -> (r: Self)
        ensures
            r@ == self@,
    {
        let mut bins: Vec<(u16, u16, u32)> = Vec::new();
        let mut i: usize = 0;
        while i < self.bins.len()
            invariant
                i <= self.bins.len(),
                bins@ == self.bins@.take(i as int),
            decreases self.bins.len() - i,
        {
            bins.push(self.bins[i]);
            assert(bins@ =~= self.bins@.take(i + 1));
            i = i + 1;
        }
        assert(bins@ =~= self.bins@);
        let parametric_params = match &self.parametric_params {
            Some(params) => {
                let copied = params.clone();
                assert(copied@ =~= params@);
                Some(copied)
            },
            None => None,
        };
        SizeDistribution {
            dist_type: self.dist_type,
            bins,
            parametric_type: self.parametric_type,
            parametric_params,
        }
    }
}

/// A distribution of inter-arrival times, in milliseconds. All numbers are
/// double-precision bit patterns.
#[derive(Debug)]
pub struct IATDistribution {
    pub dist_type: IATDistType,
    pub params: Vec<u64>,
    pub jitter_range_ms: (u64, u64),
}

/// The model of a distribution of inter-arrival times.
pub struct Arrivals {
    pub dist_type: IATDistType,
    pub params: Seq<u64>,
    pub jitter_range_ms: (u64, u64),
}

impl View for IATDistribution {
    type V = Arrivals;

    open spec fn view(&self) -> Arrivals {
        Arrivals {
            dist_type: self.dist_type,
            params: self.params@,
            jitter_range_ms: self.jitter_range_ms,
        }
    }
}

impl Clone for IATDistribution {
    fn clone(&self) -> (r: Self)
        ensures
            r@ == self@,
    {
        let params = self.params.clone();
        assert(params@ =~= self.params@);
        IATDistribution { dist_type: self.dist_type, params, jitter_range_ms: self.jitter_range_ms }
    }
}

/// How many bytes of padding a packet gets.
#[derive(Debug, Clone, Copy, PartialEq, Eq, Structural)]
pub enum PaddingStrategy {
    RandomUniform { min: u16, max: u16 },
    MatchDistribution,
    Fixed { size: u16 },
}

/// When a transition is taken.
#[derive(Debug, Clone, Copy, PartialEq, Eq, Structural)]
pub enum TransitionCondition {
    /// After this many packets in the state.
    AfterPackets(u32),
    /// After this many milliseconds in the state.
    AfterDuration(u64),
    /// On a payload of this type; such a transition is never taken by time or
    /// packet count.
    OnPayloadType(u8),
    /// With this probability per packet, a single-precision bit pattern.
    Random(u32),
}

/// A transition of the behaviour automaton.
#[derive(Debug)]
pub struct FSMTransition {
    pub condition: TransitionCondition,
    pub next_state: u16,
    pub size_override: Option<SizeDistribution>,
    pub iat_override: Option<IATDistribution>,
    pub padding_override: Option<PaddingStrategy>,
}

/// The model of a transition.
pub struct Transition {
    pub condition: TransitionCondition,
    pub next_state: u16,
    pub size_override: Option<Sizes>,
    pub iat_override: Option<Arrivals>,
    pub padding_override: Option<PaddingStrategy>,
}

/// The model of an optional size distribution.
pub open spec fn sizes_model(sizes: Option<SizeDistribution>) -> Option<Sizes> {
    match sizes {
        Some(s) => Some(s@),
        None => None,
    }
}

/// The model of an optional distribution of inter-arrival times.
pub open spec fn arrivals_model(arrivals: Option<IATDistribution>) -> Option<Arrivals> {
    match arrivals {
        Some(a) => Some(a@),
        None => None,
    }
}

impl View for FSMTransition {
    type V = Transition;

    open spec fn view(&self) -> Transition {
        Transition {
            condition: self.condition,
            next_state: self.next_state,
            size_override: sizes_model(self.size_override),
            iat_override: arrivals_model(self.iat_override),
            padding_override: self.padding_override,
        }
    }
}

impl Clone for FSMTransition {
    fn clone(&self) -> (r: Self)
        ensures
            r@ == self@,
    {
        let size_override = match &self.size_override {
            Some(sizes) => Some(sizes.clone()),
            None => None,
        };
        let iat_override = match &self.iat_override {
            Some(arrivals) => Some(arrivals.clone()),
            None => None,
        };
        FSMTransition {
            condition: self.condition,
            next_state: self.next_state,
            size_override,
            iat_override,
            padding_override: self.padding_override,
        }
    }
}

/// A state of the behaviour automaton.
#[derive(Debug)]
pub struct FSMState {
    pub state_id: u16,
    pub transitions: Vec<FSMTransition>,
}

/// The model of a state.
pub struct State {
    pub state_id: u16,
    pub transitions: Seq<Transition>,
}

impl View for FSMState {
    type V = State;

    open spec fn view(&self) -> State {
        State {
            state_id: self.state_id,
            transitions: self.transitions@.map_values(|t: FSMTransition| t@),
        }
    }
}

impl Clone for FSMState {
    fn clone(&self) -> (r: Self)
        ensures
            r@ == self@,
    {
        let mut transitions: Vec<FSMTransition> = Vec::new();
        let mut i: usize = 0;
        while i < self.transitions.len()
            invariant
                i <= self.transitions.len(),
                transitions.len() == i,
                forall|j: int| 0 <= j < i ==> (#[trigger] transitions[j])@ == self.transitions[j]@,
            decreases self.transitions.len() - i,
        {
            transitions.push(self.transitions[i].clone());
            i = i + 1;
        }
        let r = FSMState { state_id: self.state_id, transitions };
        assert(r@.transitions =~= self@.transitions);
        r
    }
}

/// The models of a sequence of states.
pub open spec fn state_models(states: Seq<FSMState>) -> Seq<State> {
    states.map_values(|s: FSMState| s@)
}

/// A mask profile.
#[derive(Debug)]
pub struct MaskProfile {
    pub mask_id: String,
    pub version: u16,
    /// Seconds since the epoch.
    pub created_at: u64,
    /// Seconds since the epoch.
    pub expires_at: u64,
    pub spoof_protocol: SpoofProtocol,
    /// Header bytes for clients that know no header specification.
    pub header_template: Vec<u8>,
    /// Where the ephemeral public key stands in the header.
    pub eph_pub_offset: u16,
    pub eph_pub_length: u16,
    pub size_distribution: SizeDistribution,
    pub iat_distribution: IATDistribution,
    pub padding_strategy: PaddingStrategy,
    pub fsm_states: Vec<FSMState>,
    pub fsm_initial_state: u16,
    /// Single-precision bit patterns.
    pub signature_vector: Vec<u32>,
    /// The profile for traffic from the server to the client.
    pub reverse_profile: Option<Box<MaskProfile>>,
    pub signature: [u8; 64],
    /// How headers are generated, where the template is not to be used.
    pub header_spec: Option<HeaderSpec>,
}

/// The model of a mask profile.
pub struct Profile {
    pub mask_id: Seq<char>,
    pub version: u16,
    pub created_at: u64,
    pub expires_at: u64,
    pub spoof_protocol: SpoofProtocol,
    pub header_template: Seq<u8>,
    pub eph_pub_offset: u16,
    pub eph_pub_length: u16,
    pub size_distribution: Sizes,
    pub iat_distribution: Arrivals,
    pub padding_strategy: PaddingStrategy,
    pub fsm_states: Seq<State>,
    pub fsm_initial_state: u16,
    pub signature_vector: Seq<u32>,
    pub reverse_profile: Option<Box<Profile>>,
    pub signature: Seq<u8>,
    pub header_spec: Option<Spec>,
}

/// The model of a mask profile.
pub open spec fn profile_model(p: MaskProfile) -> Profile
    decreases p,
{
    Profile {
        mask_id: p.mask_id@,
        version: p.version,
        created_at: p.created_at,
        expires_at: p.expires_at,
        spoof_protocol: p.spoof_protocol,
        header_template: p.header_template@,
        eph_pub_offset: p.eph_pub_offset,
        eph_pub_length: p.eph_pub_length,
        size_distribution: p.size_distribution@,
        iat_distribution: p.iat_distribution@,
        padding_strategy: p.padding_strategy,
        fsm_states: state_models(p.fsm_states@),
        fsm_initial_state: p.fsm_initial_state,
        signature_vector: p.signature_vector@,
        reverse_profile: match p.reverse_profile {
            Some(reverse) => Some(Box::new(profile_model(*reverse))),
            None => None,
        },
        signature: p.signature@,
        header_spec: match p.header_spec {
            Some(spec) => Some(spec@),
            None => None,
        },
    }
}

impl View for MaskProfile {
    type V = Profile;

    open spec fn view(&self) -> Profile {
        profile_model(*self)
    }
}

/// A copy of states.
fn copy_states(states: &Vec<FSMState>) -> (r: Vec<FSMState>)
    ensures
        state_models(r@) == state_models(states@),
{
    let mut r: Vec<FSMState> = Vec::new();
    let mut i: usize = 0;
    while i < states.len()
        invariant
            i <= states.len(),
            r.len() == i,
            forall|j: int| 0 <= j < i ==> (#[trigger] r[j])@ == states[j]@,
        decreases states.len() - i,
    {
        r.push(states[i].clone());
        i = i + 1;
    }
    assert(state_models(r@) =~= state_models(states@));
    r
}

impl Clone for MaskProfile {
    fn clone(&self) -> (r: Self)
        ensures
            r@ == self@,
        decreases self,
    {
        let signature_vector = self.signature_vector.clone();
        assert(signature_vector@ =~= self.signature_vector@);
        let reverse_profile = match &self.reverse_profile {
            Some(reverse) => Some(Box::new((&**reverse).clone())),
            None => None,
        };
        let header_spec = match &self.header_spec {
            Some(spec) => Some(spec.clone()),
            None => None,
        };
        MaskProfile {
            mask_id: self.mask_id.clone(),
            version: self.version,
            created_at: self.created_at,
            expires_at: self.expires_at,
            spoof_protocol: self.spoof_protocol,
            header_template: copy_bytes(&self.header_template),
            eph_pub_offset: self.eph_pub_offset,
            eph_pub_length: self.eph_pub_length,
            size_distribution: self.size_distribution.clone(),
            iat_distribution: self.iat_distribution.clone(),
            padding_strategy: self.padding_strategy,
            fsm_states: copy_states(&self.fsm_states),
            fsm_initial_state: self.fsm_initial_state,
            signature_vector,
            reverse_profile,
            signature: self.signature,
            header_spec,
        }
    }
}

/// The signature of a profile that was not signed.
pub fn default_signature() -> (r: [u8; 64])
    ensures
        r@ == Seq::new(64, |i: int| 0u8),
{
    let r = [0u8; 64];
    assert(r@ =~= Seq::new(64, |i: int| 0u8));
    r
}

/// Where a packet size comes from.
#[derive(Debug, Clone, Copy, PartialEq, Eq, Structural)]
pub enum SizeSource {
    /// Always this size.
    Constant(u16),
    /// A bin drawn by weight, then a size within the bin.
    WeightedBin,
    /// A log-normal curve with these two double-precision parameters.
    LogNormal(u64, u64),
    /// Any size from 64 up to 511.
    Uniform,
}

/// The size that stands in where a histogram gives none.
pub const DEFAULT_SIZE: u16 = 64;

/// Where the sizes of a distribution come from.
pub open spec fn size_source(sizes: Sizes) -> SizeSource {
    match sizes.dist_type {
        SizeDistType::Histogram => if sizes.bins.len() == 0 {
            SizeSource::Constant(DEFAULT_SIZE)
        } else {
            SizeSource::WeightedBin
        },
        SizeDistType::Parametric => match (sizes.parametric_type, sizes.parametric_params) {
            (Some(ParametricType::LogNormal), Some(params)) => SizeSource::LogNormal(
                params[0],
                params[1],
            ),
            _ => SizeSource::Uniform,
        },
    }
}

/// The distribution names both parameters that its curve reads.
pub open spec fn has_curve_params(sizes: Sizes) -> bool {
    sizes.dist_type == SizeDistType::Parametric && sizes.parametric_type == Some(
        ParametricType::LogNormal,
    ) ==> (sizes.parametric_params matches Some(params) ==> params.len() >= 2)
}

/// The size that a distribution gives. `pick` is the bin that was drawn by
/// weight, or none where the weights allow no draw; `curve` is what the curve
/// gave, a double-precision pattern.
pub open spec fn sampled_size(
    sizes: Sizes,
    pick: Option<usize>,
    curve: u64,
    log: DrawLog,
) -> u16 {
    match size_source(sizes) {
        SizeSource::Constant(size) => size,
        SizeSource::WeightedBin => match pick {
            Some(bin) => drawn_small(
                log.seed,
                log.draws,
                sizes.bins[bin as int].0,
                sizes.bins[bin as int].1,
            ),
            None => DEFAULT_SIZE,
        },
        SizeSource::LogNormal(_, _) => if whole(curve, 65535) < 1 {
            1
        } else {
            whole(curve, 65535) as u16
        },
        SizeSource::Uniform => drawn_small(log.seed, log.draws, 64, 511),
    }
}

/// The state of the generator after a size was drawn.
pub open spec fn sampled_log(sizes: Sizes, pick: Option<usize>, log: DrawLog) -> DrawLog {
    match size_source(sizes) {
        SizeSource::WeightedBin => match pick {
            Some(bin) => log.then_draw(
                Draw::Small(sizes.bins[bin as int].0, sizes.bins[bin as int].1),
            ),
            None => log,
        },
        SizeSource::Uniform => log.then_draw(Draw::Small(64, 511)),
        _ => log,
    }
}

impl SizeDistribution {
    /// Where the sizes of this distribution come from.
    pub fn source(&self) -> (r: SizeSource)
        requires
            has_curve_params(self@),
        ensures
            r == size_source(self@),
    {
        match self.dist_type {
            SizeDistType::Histogram => {
                if self.bins.len() == 0 {
                    SizeSource::Constant(DEFAULT_SIZE)
                } else {
                    SizeSource::WeightedBin
                }
            },
            SizeDistType::Parametric => match self.parametric_type {
                Some(ParametricType::LogNormal) => match &self.parametric_params {
                    Some(params) => SizeSource::LogNormal(params[0], params[1]),
                    None => SizeSource::Uniform,
                },
                _ => SizeSource::Uniform,
            },
        }
    }

    /// A packet size of this distribution. The draws that need floating point
    /// are made by the caller: `pick` is the index of the bin that was drawn by
    /// weight, or none where the weights allow no draw, and `curve` is the value
    /// of the curve, a double-precision pattern.
    pub fn sample(&self, pick: Option<usize>, curve: u64, rng: &mut MaskRng) -> (r: u16)
        requires
            has_curve_params(self@),
            pick matches Some(bin) ==> bin < self@.bins.len() && self@.bins[bin as int].0
                <= self@.bins[bin as int].1,
        ensures
            r == sampled_size(self@, pick, curve, old(rng)@),
            final(rng)@ == sampled_log(self@, pick, old(rng)@),
            size_source(self@) == SizeSource::Uniform ==> 64 <= r < 512,
            size_source(self@) is LogNormal ==> r >= 1,
            size_source(self@) == SizeSource::WeightedBin && pick is Some
                ==> self@.bins[pick->0 as int].0 <= r <= self@.bins[pick->0 as int].1,
    {
        match self.source() {
            SizeSource::Constant(size) => size,
            SizeSource::WeightedBin => match pick {
                Some(bin) => {
                    let (low, high, _) = self.bins[bin];
                    rng.small(low, high)
                },
                None => DEFAULT_SIZE,
            },
            SizeSource::LogNormal(_, _) => {
                let size: u64 = whole_of(curve, 65535);
                if size < 1 {
                    1
                } else {
                    size as u16
                }
            },
            SizeSource::Uniform => rng.small(64, 511),
        }
    }
}

/// Where an inter-arrival time comes from. Numbers are double-precision patterns.
#[derive(Debug, Clone, Copy, PartialEq, Eq, Structural)]
pub enum ArrivalSource {
    /// An exponential curve with this rate.
    Exponential(u64),
    /// A log-normal curve with these two parameters.
    LogNormal(u64, u64),
    /// A sum of this many unit exponentials, scaled by the second number.
    Gamma(u64, u64),
    /// One of this many recorded times.
    Empirical(usize),
}

/// The distribution names all parameters that its curve reads.
pub open spec fn has_arrival_params(arrivals: Arrivals) -> bool {
    arrivals.params.len() >= match arrivals.dist_type {
        IATDistType::Exponential => 1nat,
        IATDistType::LogNormal => 2,
        IATDistType::Gamma => 2,
        IATDistType::Empirical => 1,
    }
}

/// Where the times of a distribution come from.
pub open spec fn arrival_source(arrivals: Arrivals) -> ArrivalSource {
    match arrivals.dist_type {
        IATDistType::Exponential => ArrivalSource::Exponential(arrivals.params[0]),
        IATDistType::LogNormal => ArrivalSource::LogNormal(
            arrivals.params[0],
            arrivals.params[1],
        ),
        IATDistType::Gamma => ArrivalSource::Gamma(
            whole(larger(arrivals.params[0], DOUBLE_ONE), i32::MAX as nat) as u64,
            arrivals.params[1],
        ),
        IATDistType::Empirical => ArrivalSource::Empirical(arrivals.params.len() as usize),
    }
}

/// The time without jitter. `raw` is what was drawn: for an exponential curve the
/// logarithm of a number between zero and one, for a log-normal one the value of the
/// curve, for a sum the sum itself; `index` is the recorded time that was drawn.
pub open spec fn base_time(arrivals: Arrivals, raw: u64, index: usize) -> nat {
    match arrival_source(arrivals) {
        ArrivalSource::Exponential(rate) => quotient(
            DOUBLE as nat,
            negated(DOUBLE as nat, raw as nat),
            rate as nat,
        ),
        ArrivalSource::LogNormal(_, _) => raw as nat,
        ArrivalSource::Gamma(_, scale) => product(DOUBLE as nat, raw as nat, scale as nat),
        ArrivalSource::Empirical(_) => arrivals.params[index as int] as nat,
    }
}

/// The inter-arrival time that a distribution gives: never negative.
pub open spec fn sampled_time(arrivals: Arrivals, raw: u64, index: usize, jitter: u64) -> u64 {
    larger(
        sum(DOUBLE as nat, base_time(arrivals, raw, index), jitter as nat) as u64,
        0,
    )
}

/// The exponent of a log-normal curve for a number `z` of the standard normal
/// distribution.
pub fn log_normal_exponent(mu: u64, sigma: u64, z: u64) -> (r: u64)
    ensures
        r == sum(DOUBLE as nat, mu as nat, product(DOUBLE as nat, sigma as nat, z as nat)),
{
    proof {
        lemma_format(DOUBLE as nat);
    }
    sum_of(DOUBLE, mu, product_of(DOUBLE, sigma, z))
}

impl IATDistribution {
    /// Where the times of this distribution come from.
    pub fn source(&self) -> (r: ArrivalSource)
        requires
            has_arrival_params(self@),
        ensures
            r == arrival_source(self@),
    {
        match self.dist_type {
            IATDistType::Exponential => ArrivalSource::Exponential(self.params[0]),
            IATDistType::LogNormal => ArrivalSource::LogNormal(self.params[0], self.params[1]),
            IATDistType::Gamma => {
                let shape: u64 = larger_of(self.params[0], DOUBLE_ONE);
                ArrivalSource::Gamma(whole_of(shape, i32::MAX as u64), self.params[1])
            },
            IATDistType::Empirical => ArrivalSource::Empirical(self.params.len()),
        }
    }

    /// An inter-arrival time of this distribution, in milliseconds. The draws that need
    /// logarithms and exponentials are made by the caller: `raw` is the number that was
    /// drawn, `index` the recorded time, and `jitter` a number from the jitter range.
    pub fn sample(&self, raw: u64, index: usize, jitter: u64) -> (r: u64)
        requires
            has_arrival_params(self@),
            self@.dist_type is Empirical ==> index < self@.params.len(),
        ensures
            r == sampled_time(self@, raw, index, jitter),
    {
        proof {
            lemma_format(DOUBLE as nat);
        }
        let base: u64 = match self.source() {
            ArrivalSource::Exponential(rate) => {
                let opposite: u64 = if raw >= 0x8000_0000_0000_0000 {
                    raw - 0x8000_0000_0000_0000
                } else {
                    raw + 0x8000_0000_0000_0000
                };
                quotient_of(DOUBLE, opposite, rate)
            },
            ArrivalSource::LogNormal(_, _) => raw,
            ArrivalSource::Gamma(_, scale) => product_of(DOUBLE, raw, scale),
            ArrivalSource::Empirical(_) => self.params[index],
        };
        larger_of(sum_of(DOUBLE, base, jitter), 0)
    }
}

/// Inter-arrival times are numbers, and never negative.
pub proof fn law_times_are_not_negative(
    arrivals: Arrivals,
    raw: u64,
    index: usize,
    jitter: u64,
)
    ensures
        !double_is_nan(sampled_time(arrivals, raw, index, jitter)),
        !double_less(sampled_time(arrivals, raw, index, jitter), 0),
{
}

/// A finite double-precision number.
pub open spec fn is_finite(bits: u64) -> bool {
    !is_nan(DOUBLE as nat, bits as nat) && !is_infinite(DOUBLE as nat, bits as nat)
}

/// A time that is one of the recorded ones lies between the recorded time plus the lower
/// end of the jitter range and the recorded time plus its upper end, cut at zero.
pub proof fn law_recorded_times_stay_in_jitter_range(
    arrivals: Arrivals,
    raw: u64,
    index: usize,
    jitter: u64,
)
    requires
        arrivals.dist_type is Empirical,
        index < arrivals.params.len(),
        is_finite(arrivals.params[index as int]),
        is_finite(arrivals.jitter_range_ms.0),
        is_finite(arrivals.jitter_range_ms.1),
        is_finite(jitter),
        !double_less(jitter, arrivals.jitter_range_ms.0),
        !double_less(arrivals.jitter_range_ms.1, jitter),
    ensures
        ({
            let (low, high) = arrivals.jitter_range_ms;
            let recorded = arrivals.params[index as int] as nat;
            let time = sampled_time(arrivals, raw, index, jitter);
            &&& !double_less(
                time,
                larger(sum(DOUBLE as nat, recorded, low as nat) as u64, 0),
            )
            &&& !double_less(
                larger(sum(DOUBLE as nat, recorded, high as nat) as u64, 0),
                time,
            )
        }),
{
    let (low, high) = arrivals.jitter_range_ms;
    let recorded = arrivals.params[index as int];
    law_values_agree(low, 0);
    law_values_agree(high, 0);
    law_values_agree(jitter, 0);
    law_signed_sums_keep_order(recorded, low, jitter);
    law_signed_sums_keep_order(recorded, jitter, high);
}

/// The padding that a strategy gives.
pub open spec fn padding(
    strategy: PaddingStrategy,
    payload_size: usize,
    target_size: u16,
    log: DrawLog,
) -> int {
    match strategy {
        PaddingStrategy::RandomUniform { min, max } => drawn_small(
            log.seed,
            log.draws,
            min,
            max,
        ) as int,
        PaddingStrategy::MatchDistribution => if target_size > payload_size {
            target_size - payload_size
        } else {
            0
        },
        PaddingStrategy::Fixed { size } => size as int,
    }
}

impl PaddingStrategy {
    /// The length of the padding for a payload.
    pub fn calc_padding(&self, payload_size: usize, target_size: u16, rng: &mut MaskRng) -> (r: u16)
        requires
            *self matches PaddingStrategy::RandomUniform { min, max } ==> min <= max,
        ensures
            r == padding(*self, payload_size, target_size, old(rng)@),
            *self matches PaddingStrategy::RandomUniform { min, max } ==> min <= r <= max,
            final(rng)@ == match *self {
                PaddingStrategy::RandomUniform { min, max } => old(rng)@.then_draw(
                    Draw::Small(min, max),
                ),
                _ => old(rng)@,
            },
    {
        match self {
            PaddingStrategy::RandomUniform { min, max } => rng.small(*min, *max),
            PaddingStrategy::MatchDistribution => {
                if target_size as usize > payload_size {
                    (target_size as usize - payload_size) as u16
                } else {
                    0
                }
            },
            PaddingStrategy::Fixed { size } => *size,
        }
    }
}

/// A payload that is padded to match a target reaches the target, and one that
/// is at least as long as the target gets no padding.
pub proof fn law_matching_padding_reaches_target(
    payload_size: usize,
    target_size: u16,
    log: DrawLog,
)
    ensures
        ({
            let pad = padding(PaddingStrategy::MatchDistribution, payload_size, target_size, log);
            &&& payload_size <= target_size ==> payload_size + pad == target_size
            &&& payload_size >= target_size ==> pad == 0
        }),
{
}

/// Whether a transition is taken, for a random 32-bit draw. The upper 23 bits of the
/// draw are read as a fraction of one.
pub open spec fn fires(
    condition: TransitionCondition,
    packets_in_state: u32,
    duration_in_state_ms: u64,
    draw: u32,
) -> bool {
    match condition {
        TransitionCondition::AfterPackets(n) => packets_in_state >= n,
        TransitionCondition::AfterDuration(ms) => duration_in_state_ms >= ms,
        TransitionCondition::Random(probability) => less(
            fraction(draw as nat / 512, 0x80_0000),
            Single { bits: probability },
        ),
        TransitionCondition::OnPayloadType(_) => false,
    }
}

/// What the automaton does next.
pub struct Step {
    pub next_state: u16,
    pub size_override: Option<Sizes>,
    pub iat_override: Option<Arrivals>,
    pub padding_override: Option<PaddingStrategy>,
}

/// The step of the first transition that is taken, from the `i`-th one on; the
/// state itself where none is. `draws[i]` is the draw for the `i`-th transition.
pub open spec fn step_from(
    transitions: Seq<Transition>,
    i: nat,
    current_state: u16,
    packets_in_state: u32,
    duration_in_state_ms: u64,
    draws: Seq<u32>,
) -> Step
    decreases transitions.len() - i,
{
    if i >= transitions.len() {
        Step {
            next_state: current_state,
            size_override: None,
            iat_override: None,
            padding_override: None,
        }
    } else if fires(
        transitions[i as int].condition,
        packets_in_state,
        duration_in_state_ms,
        draws[i as int],
    ) {
        Step {
            next_state: transitions[i as int].next_state,
            size_override: transitions[i as int].size_override,
            iat_override: transitions[i as int].iat_override,
            padding_override: transitions[i as int].padding_override,
        }
    } else {
        step_from(
            transitions,
            i + 1,
            current_state,
            packets_in_state,
            duration_in_state_ms,
            draws,
        )
    }
}

/// The transitions of the first state, from the `i`-th one on, that has the
/// given identifier; none where no state has it.
pub open spec fn transitions_of(states: Seq<State>, i: nat, id: u16) -> Seq<Transition>
    decreases states.len() - i,
{
    if i >= states.len() {
        Seq::empty()
    } else if states[i as int].state_id == id {
        states[i as int].transitions
    } else {
        transitions_of(states, i + 1, id)
    }
}

/// The step of an automaton in a state.
pub open spec fn step(
    states: Seq<State>,
    current_state: u16,
    packets_in_state: u32,
    duration_in_state_ms: u64,
    draws: Seq<u32>,
) -> Step {
    step_from(
        transitions_of(states, 0, current_state),
        0,
        current_state,
        packets_in_state,
        duration_in_state_ms,
        draws,
    )
}

/// What a step hands to the traffic shaper.
pub type StepParts = (
    u16,
    Option<SizeDistribution>,
    Option<IATDistribution>,
    Option<PaddingStrategy>,
);

/// The model of what a step hands to the traffic shaper.
pub open spec fn step_model(parts: StepParts) -> Step {
    Step {
        next_state: parts.0,
        size_override: sizes_model(parts.1),
        iat_override: arrivals_model(parts.2),
        padding_override: parts.3,
    }
}

impl MaskProfile {
    /// The state in which the automaton starts.
    pub fn initial_state(&self) -> (r: u16)
        ensures
            r == self.fsm_initial_state,
    {
        self.fsm_initial_state
    }

    /// The state that the automaton is in.
    fn find_state(&self, current_state: u16) -> (r: Option<&FSMState>)
        ensures
            match r {
                Some(state) => state@.transitions == transitions_of(
                    state_models(self.fsm_states@),
                    0,
                    current_state,
                ),
                None => transitions_of(state_models(self.fsm_states@), 0, current_state)
                    == Seq::<Transition>::empty(),
            },
    {
        let ghost states = state_models(self.fsm_states@);
        let mut i: usize = 0;
        while i < self.fsm_states.len()
            invariant
                i <= self.fsm_states.len(),
                states == state_models(self.fsm_states@),
                transitions_of(states, 0, current_state) == transitions_of(
                    states,
                    i as nat,
                    current_state,
                ),
            decreases self.fsm_states.len() - i,
        {
            assert(states[i as int] == self.fsm_states[i as int]@);
            if self.fsm_states[i].state_id == current_state {
                return Some(&self.fsm_states[i]);
            }
            i = i + 1;
        }
        None
    }

    /// The step of the automaton in a state, for given random draws: one draw
    /// for each transition of the state.
    pub fn process_transition_with(
        &self,
        current_state: u16,
        packets_in_state: u32,
        duration_in_state_ms: u64,
        draws: &Vec<u32>,
    ) -> (r: StepParts)
        requires
            draws@.len() >= transitions_of(state_models(self.fsm_states@), 0, current_state).len(),
        ensures
            step_model(r) == step(
                state_models(self.fsm_states@),
                current_state,
                packets_in_state,
                duration_in_state_ms,
                draws@,
            ),
    {
        let state = match self.find_state(current_state) {
            Some(state) => state,
            None => {
                return (current_state, None, None, None);
            },
        };
        let ghost list = state@.transitions;
        let mut i: usize = 0;
        while i < state.transitions.len()
            invariant
                i <= state.transitions.len(),
                list == state@.transitions,
                list == transitions_of(state_models(self.fsm_states@), 0, current_state),
                draws@.len() >= list.len(),
                step_from(
                    list,
                    0,
                    current_state,
                    packets_in_state,
                    duration_in_state_ms,
                    draws@,
                ) == step_from(
                    list,
                    i as nat,
                    current_state,
                    packets_in_state,
                    duration_in_state_ms,
                    draws@,
                ),
            decreases state.transitions.len() - i,
        {
            let transition = &state.transitions[i];
            assert(list[i as int] == transition@);
            let draw: u32 = draws[i];
            let taken = match transition.condition {
                TransitionCondition::AfterPackets(n) => packets_in_state >= n,
                TransitionCondition::AfterDuration(ms) => duration_in_state_ms >= ms,
                TransitionCondition::Random(probability) => {
                    let drawn = Single::fraction((draw / 512) as u64, 0x80_0000);
                    drawn.less(Single { bits: probability })
                },
                TransitionCondition::OnPayloadType(_) => false,
            };
            if taken {
                let size_override = match &transition.size_override {
                    Some(sizes) => Some(sizes.clone()),
                    None => None,
                };
                let iat_override = match &transition.iat_override {
                    Some(arrivals) => Some(arrivals.clone()),
                    None => None,
                };
                return (
                    transition.next_state,
                    size_override,
                    iat_override,
                    transition.padding_override,
                );
            }
            i = i + 1;
        }
        (current_state, None, None, None)
    }

    /// The step of the automaton in a state. Transitions with a probability are
    /// taken by fresh random draws.
    pub fn process_transition(
        &self,
        current_state: u16,
        packets_in_state: u32,
        duration_in_state_ms: u64,
    ) -> (r: StepParts)
        ensures
            exists|draws: Seq<u32>|
                draws.len() == transitions_of(state_models(self.fsm_states@), 0, current_state).len()
                    && step_model(r) == #[trigger] step(
                    state_models(self.fsm_states@),
                    current_state,
                    packets_in_state,
                    duration_in_state_ms,
                    draws,
                ),
    {
        let mut draws: Vec<u32> = Vec::new();
        let count: usize = match self.find_state(current_state) {
            Some(state) => state.transitions.len(),
            None => 0,
        };
        while draws.len() < count
            invariant
                draws.len() <= count,
            decreases count - draws.len(),
        {
            draws.push(random_draw());
        }
        self.process_transition_with(current_state, packets_in_state, duration_in_state_ms, &draws)
    }
}

/// A step never leaves the automaton: it leads to a state that a transition of
/// the current state names, or stays.
pub proof fn law_steps_follow_transitions(
    transitions: Seq<Transition>,
    i: nat,
    current_state: u16,
    packets_in_state: u32,
    duration_in_state_ms: u64,
    draws: Seq<u32>,
)
    ensures
        ({
            let s = step_from(
                transitions,
                i,
                current_state,
                packets_in_state,
                duration_in_state_ms,
                draws,
            );
            s.next_state == current_state || exists|k: int|
                0 <= k < transitions.len() && s.next_state == (#[trigger] transitions[k]).next_state
        }),
    decreases transitions.len() - i,
{
    if i < transitions.len() {
        if fires(
            transitions[i as int].condition,
            packets_in_state,
            duration_in_state_ms,
            draws[i as int],
        ) {
            assert(transitions[i as int].next_state == transitions[i as int].next_state);
        } else {
            law_steps_follow_transitions(
                transitions,
                i + 1,
                current_state,
                packets_in_state,
                duration_in_state_ms,
                draws,
            );
        }
    }
}

/// What `VerifyingKey::from_bytes` decides: whether 32 bytes are an Ed25519
/// public key.
pub uninterp spec fn is_ed25519_key(key: Seq<u8>) -> bool;

/// What `VerifyingKey::verify` decides: whether a signature is valid for a
/// message under a public key.
pub uninterp spec fn ed25519_valid(key: Seq<u8>, message: Seq<u8>, signature: Seq<u8>) -> bool;

/// The Ed25519 public key of the `ed25519_dalek` crate.
#[verifier::external_type_specification]
#[verifier::external_body]
pub struct ExVerifyingKey(VerifyingKey);

/// A public key together with the bytes that it was read from.
struct PublicKey {
    key: VerifyingKey,
    bytes: Ghost<Seq<u8>>,
}

/// Calls `VerifyingKey::from_bytes`. Whether it succeeds is a function of the
/// bytes; its one error says that the point could not be decompressed.
#[verifier::external_body]
fn read_public_key(bytes: &[u8; 32]) -> (r: Result<PublicKey, String>)
    ensures
        r is Ok <==> is_ed25519_key(bytes@),
        r matches Ok(key) ==> key.bytes@ == bytes@,
        r matches Err(text) ==> text@ == "signature error: Cannot decompress Edwards point"@,
{
    match VerifyingKey::from_bytes(bytes) {
        Ok(key) => Ok(PublicKey { key, bytes: Ghost(bytes@) }),
        Err(error) => Err(format!("{}", error)),
    }
}

/// Calls `VerifyingKey::verify`. Its answer is a function of the key, the message
/// and the signature.
#[verifier::external_body]
fn verify_message(key: &PublicKey, message: &[u8], signature: &[u8; 64]) -> (r: bool)
    ensures
        r == ed25519_valid(key.bytes@, message@, signature@),
{
    key.key.verify(message, &Signature::from_bytes(signature)).is_ok()
}

/// What the check of a signature reports: the answer of the verification, or an
/// error where the public key could not be read.
pub fn signature_outcome(checked: Result<bool, String>) -> (r: Result<bool, Error>)
    ensures
        match checked {
            Ok(valid) => r == Ok::<bool, Error>(valid),
            Err(reason) => r matches Err(Error::Crypto(text)) && text@
                == "Invalid Ed25519 public key: "@ + reason@,
        },
{
    match checked {
        Ok(valid) => Ok(valid),
        Err(reason) => {
            let text = "Invalid Ed25519 public key: ".to_owned().concat(reason.as_str());
            Err(Error::Crypto(text))
        },
    }
}

impl MaskProfile {
    /// The message that the signature of this profile covers.
    pub fn signed_message(&self) -> (r: Vec<u8>)
        ensures
            r@ == signed_bytes(self@),
    {
        let mut message: Vec<u8> = Vec::new();
        put_profile(&mut message, self);
        assert(message@ =~= signed_bytes(self@));
        message
    }

    /// Checks the Ed25519 signature over all fields of this profile but the signature. An
    /// error says that the public key is none.
    pub fn verify_signature(&self, public_key: &[u8; 32]) -> (r: Result<bool, Error>)
        ensures
            r is Ok <==> is_ed25519_key(public_key@),
            r matches Ok(valid) ==> valid == ed25519_valid(
                public_key@,
                signed_bytes(self@),
                self.signature@,
            ),
            r matches Err(error) ==> (error matches Error::Crypto(text) && text@
                == "Invalid Ed25519 public key: "@
                + "signature error: Cannot decompress Edwards point"@),
    {
        let checked = match read_public_key(public_key) {
            Ok(key) => {
                let message = self.signed_message();
                Ok(verify_message(&key, message.as_slice(), &self.signature))
            },
            Err(reason) => Err(reason),
        };
        signature_outcome(checked)
    }
}

/// The transitions of a state are those of the first state with its identifier; an identifier
/// that no state has, has none.
pub proof fn law_state_is_looked_up(states: Seq<State>, k: int)
    requires
        0 <= k < states.len(),
        forall|j: int| 0 <= j < k ==> (#[trigger] states[j]).state_id != states[k].state_id,
    ensures
        transitions_of(states, 0, states[k].state_id) == states[k].transitions,
        forall|id: u16|
            (forall|j: int| 0 <= j < states.len() ==> (#[trigger] states[j]).state_id != id)
                ==> #[trigger] transitions_of(states, 0, id).len() == 0,
{
    lemma_looked_up(states, 0, k);
    assert forall|id: u16|
        (forall|j: int| 0 <= j < states.len() ==> (#[trigger] states[j]).state_id
            != id) implies #[trigger] transitions_of(states, 0, id).len() == 0 by {
        lemma_not_found(states, 0, id);
    }
}

/// The first state with an identifier is found.
proof fn lemma_looked_up(states: Seq<State>, i: nat, k: int)
    requires
        i <= k < states.len(),
        forall|j: int| i <= j < k ==> (#[trigger] states[j]).state_id != states[k].state_id,
    ensures
        transitions_of(states, i, states[k].state_id) == states[k].transitions,
    decreases states.len() - i,
{
    if i < k {
        assert(states[i as int].state_id != states[k].state_id);
        lemma_looked_up(states, i + 1, k);
    }
}

/// An identifier that no state has is not found.
proof fn lemma_not_found(states: Seq<State>, i: nat, id: u16)
    requires
        forall|j: int| i <= j < states.len() ==> (#[trigger] states[j]).state_id != id,
    ensures
        transitions_of(states, i, id).len() == 0,
    decreases states.len() - i,
{
    if i < states.len() {
        lemma_not_found(states, i + 1, id);
    }
}

/// The automaton takes the first transition that is due, with all that the transition sets;
/// where none is due it stays in its state and sets nothing.
pub proof fn law_first_due_transition_is_taken(
    transitions: Seq<Transition>,
    current_state: u16,
    packets_in_state: u32,
    duration_in_state_ms: u64,
    draws: Seq<u32>,
    k: int,
)
    requires
        0 <= k <= transitions.len(),
        forall|j: int|
            0 <= j < k ==> !fires(
                (#[trigger] transitions[j]).condition,
                packets_in_state,
                duration_in_state_ms,
                draws[j],
            ),
        k < transitions.len() ==> fires(
            transitions[k].condition,
            packets_in_state,
            duration_in_state_ms,
            draws[k],
        ),
    ensures
        ({
            let s = step_from(
                transitions,
                0,
                current_state,
                packets_in_state,
                duration_in_state_ms,
                draws,
            );
            if k < transitions.len() {
                &&& s.next_state == transitions[k].next_state
                &&& s.size_override == transitions[k].size_override
                &&& s.iat_override == transitions[k].iat_override
                &&& s.padding_override == transitions[k].padding_override
            } else {
                &&& s.next_state == current_state
                &&& s.size_override is None
                &&& s.iat_override is None
                &&& s.padding_override is None
            }
        }),
{
    lemma_steps_to(
        transitions,
        0,
        current_state,
        packets_in_state,
        duration_in_state_ms,
        draws,
        k,
    );
}

/// Transitions that are not due are passed over.
proof fn lemma_steps_to(
    transitions: Seq<Transition>,
    i: nat,
    current_state: u16,
    packets_in_state: u32,
    duration_in_state_ms: u64,
    draws: Seq<u32>,
    k: int,
)
    requires
        i <= k <= transitions.len(),
        forall|j: int|
            i <= j < k ==> !fires(
                (#[trigger] transitions[j]).condition,
                packets_in_state,
                duration_in_state_ms,
                draws[j],
            ),
    ensures
        step_from(
            transitions,
            i,
            current_state,
            packets_in_state,
            duration_in_state_ms,
            draws,
        ) == step_from(
            transitions,
            k as nat,
            current_state,
            packets_in_state,
            duration_in_state_ms,
            draws,
        ),
    decreases k - i,
{
    if i < k {
        assert(!fires(
            transitions[i as int].condition,
            packets_in_state,
            duration_in_state_ms,
            draws[i as int],
        ));
        lemma_steps_to(
            transitions,
            i + 1,
            current_state,
            packets_in_state,
            duration_in_state_ms,
            draws,
            k,
        );
    }
}

/// A transition is due from its packet count on, or from its duration on, or where the upper
/// 23 bits of the draw, as a fraction of one, lie below its probability; one that waits for a
/// payload type never is. The probability is a number that is not negative, in units of
/// `2^-149`.
pub proof fn law_conditions_say_when(
    n: u32,
    ms: u64,
    payload_type: u8,
    probability: u32,
    packets_in_state: u32,
    duration_in_state_ms: u64,
    draw: u32,
)
    requires
        probability <= 0x7f80_0000,
    ensures
        fires(
            TransitionCondition::AfterPackets(n),
            packets_in_state,
            duration_in_state_ms,
            draw,
        ) <==> packets_in_state >= n,
        fires(
            TransitionCondition::AfterDuration(ms),
            packets_in_state,
            duration_in_state_ms,
            draw,
        ) <==> duration_in_state_ms >= ms,
        !fires(
            TransitionCondition::OnPayloadType(payload_type),
            packets_in_state,
            duration_in_state_ms,
            draw,
        ),
        fires(
            TransitionCondition::Random(probability),
            packets_in_state,
            duration_in_state_ms,
            draw,
        ) <==> (draw / 512) * pow2(126) < single_value(probability),
{
    let half = SINGLE as nat;
    let d = (draw / 512) as nat;
    assert(d < 0x80_0000);
    assert(draw as nat / 512 == d);
    lemma_binary_fraction(d);
    reveal(less);
    law_values_agree(0, fraction(d, 0x80_0000).bits);
    lemma_format(half);
}

/// A fraction with the denominator `2^23` is exact.
proof fn lemma_binary_fraction(n: nat)
    requires
        n < 0x80_0000,
    ensures
        fraction(n, 0x80_0000).bits < 0x7f80_0000,
        units(SINGLE as nat, fraction(n, 0x80_0000).bits as nat) == n * pow2(126),
{
    let half = SINGLE as nat;
    let (p, q, d) = (pow2(149), pow2(126), 0x80_0000nat);
    lemma_format(half);
    lemma2_to64();
    lemma_pow2_pos(149);
    lemma_pow2_pos(126);
    lemma_pow2_adds(23, 126);
    reveal(over);
    reveal(of_int);
    law_integer_is_exact(half, n);
    law_integer_is_exact(half, d);
    lemma_exact_units(half, n, 126);
    let (a, b) = (of_int(n).bits as nat, of_int(d).bits as nat);
    let k = d * p;
    assert(k > 0 && (n * p) * p == k * (n * q) && units(half, b) == k * 1) by (nonlinear_arith)
        requires
            k == d * p,
            p == d * q,
            d > 0,
            p > 0,
            units(half, b) == d * p,
    ;
    lemma_nearest_common_factor(half, n * q, 1, k);
}

/// A size comes from where the distribution says: 64 for a histogram without bins or without
/// usable weights, a number within the bin that was picked, the integer part of the curve
/// brought between 1 and 65535, and a number from 64 up to 511 for any other curve.
pub proof fn law_sizes_follow_distribution(
    sizes: Sizes,
    pick: Option<usize>,
    curve: u64,
    log: DrawLog,
)
    requires
        curve < 0x7ff0_0000_0000_0000,
    ensures
        ({
            let size = sampled_size(sizes, pick, curve, log);
            let number = double_value(curve) / pow2(1074) as int;
            match sizes.dist_type {
                SizeDistType::Histogram => if sizes.bins.len() == 0 || pick is None {
                    size == 64
                } else {
                    size == drawn_small(
                        log.seed,
                        log.draws,
                        sizes.bins[pick->0 as int].0,
                        sizes.bins[pick->0 as int].1,
                    )
                },
                SizeDistType::Parametric => if sizes.parametric_type == Some(
                    ParametricType::LogNormal,
                ) && sizes.parametric_params is Some {
                    &&& number < 1 ==> size == 1
                    &&& 1 <= number <= 65535 ==> size == number
                    &&& number > 65535 ==> size == 65535
                } else {
                    size == drawn_small(log.seed, log.draws, 64, 511)
                },
            }
        }),
{
    reveal(whole);
    lemma_format(DOUBLE as nat);
    law_values_agree(curve, 0);
    lemma_pow2_pos(1074);
}

/// A gamma curve adds up as many exponentials as the integer part of its shape, at least one;
/// the sum is scaled. An exponential curve divides what was drawn, with the other sign, by the
/// rate. A recorded time is taken as it is. To each the jitter is added, and what would be
/// negative is cut at zero.
pub proof fn law_times_follow_distribution(
    arrivals: Arrivals,
    raw: u64,
    index: usize,
    jitter: u64,
)
    requires
        has_arrival_params(arrivals),
        arrivals.params.len() <= usize::MAX,
        arrivals.dist_type is Gamma ==> arrivals.params[0] < 0x7ff0_0000_0000_0000,
    ensures
        ({
            let wide = DOUBLE as nat;
            let one = pow2(1074) as int;
            let shape = double_value(arrivals.params[0]);
            let base = match arrivals.dist_type {
                IATDistType::Exponential => quotient(
                    wide,
                    negated(wide, raw as nat),
                    arrivals.params[0] as nat,
                ),
                IATDistType::LogNormal => raw as nat,
                IATDistType::Gamma => product(wide, raw as nat, arrivals.params[1] as nat),
                IATDistType::Empirical => arrivals.params[index as int] as nat,
            };
            let total = sum(wide, base, jitter as nat) as u64;
            let time = sampled_time(arrivals, raw, index, jitter);
            &&& double_is_nan(total) || double_value(total) < 0 ==> time == 0
            &&& !double_is_nan(total) && double_value(total) >= 0 ==> time == total
            &&& arrivals.dist_type is Gamma ==> {
                let count = arrival_source(arrivals)->Gamma_0;
                &&& shape < one ==> count == 1
                &&& one <= shape < 0x7fff_ffff * one ==> count * one <= shape < (count + 1) * one
                &&& shape >= 0x7fff_ffff * one ==> count == 0x7fff_ffff
            }
            &&& arrivals.dist_type is Empirical ==> arrival_source(arrivals)
                == ArrivalSource::Empirical(arrivals.params.len() as usize)
            &&& arrivals.dist_type is LogNormal ==> arrival_source(arrivals)
                == ArrivalSource::LogNormal(arrivals.params[0], arrivals.params[1])
        }),
{
    let wide = DOUBLE as nat;
    lemma_format(wide);
    lemma_pow2_pos(1074);
    law_values_agree(0, 0);
    lemma_units_zero(wide, 0);
    if arrivals.dist_type is Gamma {
        reveal(whole);
        let one = pow2(1074);
        let k = arrivals.params[0];
        law_values_agree(k, 0);
        law_values_agree(DOUBLE_ONE, 0);
        crate::profile::lemma_double_one();
        let top = larger(k, DOUBLE_ONE);
        let u = units(wide, top as nat);
        lemma_fundamental_div_mod(u as int, one as int);
        let n = u / one;
        assert(n * one <= u < (n + 1) * one) by (nonlinear_arith)
            requires
                u == one * n + u % one,
                0 <= u % one < one,
        ;
        assert(n >= 1 && (n > 0x7fff_ffff ==> u >= 0x7fff_ffff * one) && (u >= 0x7fff_ffff * one
            ==> n >= 0x7fff_ffff) && (u == one ==> n == 1)) by (nonlinear_arith)
            requires
                n * one <= u < (n + 1) * one,
                u >= one,
                one > 0,
        ;
        if u < 0x7fff_ffff * one {
            assert(n <= 0x7fff_ffff);
        }
    }
}

/// Padding follows its strategy: a number between both bounds that the generator gives, what
/// is missing to the target size, or always the same.
pub proof fn law_padding_follows_strategy(
    min: u16,
    max: u16,
    size: u16,
    payload_size: usize,
    target_size: u16,
    log: DrawLog,
)
    ensures
        padding(PaddingStrategy::RandomUniform { min, max }, payload_size, target_size, log)
            == drawn_small(log.seed, log.draws, min, max),
        padding(PaddingStrategy::Fixed { size }, payload_size, target_size, log) == size,
        payload_size <= target_size ==> padding(
            PaddingStrategy::MatchDistribution,
            payload_size,
            target_size,
            log,
        ) == target_size - payload_size,
        payload_size > target_size ==> padding(
            PaddingStrategy::MatchDistribution,
            payload_size,
            target_size,
            log,
        ) == 0,
{
}

} // verus!
