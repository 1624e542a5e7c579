use aivpn::error::Error;
use aivpn::header::HeaderSpec;
use aivpn::mask::{
    default_signature, log_normal_exponent, signature_outcome, ArrivalSource, FSMState,
    FSMTransition, IATDistType, IATDistribution, MaskProfile, PaddingStrategy, ParametricType,
    SizeDistType, SizeDistribution, SizeSource, SpoofProtocol, TransitionCondition,
};
use aivpn::mask_rng::MaskRng;
use ed25519_dalek::{Signer, SigningKey};
use rand::rngs::StdRng;
use rand::{Rng, SeedableRng};

fn histogram(bins: Vec<(u16, u16, u32)>) -> SizeDistribution {
    SizeDistribution {
        dist_type: SizeDistType::Histogram,
        bins,
        parametric_type: None,
        parametric_params: None,
    }
}

fn steady(ms: f64) -> IATDistribution {
    IATDistribution {
        dist_type: IATDistType::Empirical,
        params: vec![ms.to_bits()],
        jitter_range_ms: (0, 0),
    }
}

fn profile(states: Vec<FSMState>) -> MaskProfile {
    MaskProfile {
        mask_id: "auto_test_v1".to_string(),
        version: 0x0102,
        created_at: 1,
        expires_at: 2,
        spoof_protocol: SpoofProtocol::QUIC,
        header_template: vec![9, 8, 7],
        eph_pub_offset: 4,
        eph_pub_length: 32,
        size_distribution: histogram(vec![]),
        iat_distribution: steady(1.0),
        padding_strategy: PaddingStrategy::MatchDistribution,
        fsm_states: states,
        fsm_initial_state: 3,
        signature_vector: vec![0; 64],
        reverse_profile: None,
        signature: default_signature(),
        header_spec: None,
    }
}

#[test]
fn iat_sampling_uses_symmetric_jitter_range() {
    let (low, high) = (-10.0f64, 10.0f64);
    let dist = IATDistribution {
        dist_type: IATDistType::Empirical,
        params: vec![50.0f64.to_bits()],
        jitter_range_ms: (low.to_bits(), high.to_bits()),
    };
    let mut rng = StdRng::seed_from_u64(7);
    let samples: Vec<f64> = (0..256)
        .map(|_| {
            let index = rng.gen_range(0..dist.params.len());
            let jitter: f64 = rng.gen_range(
                f64::from_bits(dist.jitter_range_ms.0)..=f64::from_bits(dist.jitter_range_ms.1),
            );
            f64::from_bits(dist.sample(0, index, jitter.to_bits()))
        })
        .collect();

    assert!(samples.iter().any(|&value| value < 50.0));
    assert!(samples.iter().any(|&value| value > 50.0));
}

#[test]
fn times_follow_their_curves() {
    let curve = |dist_type, params: Vec<f64>| IATDistribution {
        dist_type,
        params: params.iter().map(|p| p.to_bits()).collect(),
        jitter_range_ms: (0, 0),
    };
    let exponential = curve(IATDistType::Exponential, vec![0.25]);
    assert_eq!(exponential.source(), ArrivalSource::Exponential(0.25f64.to_bits()));
    let log = 0.3f64.ln();
    assert_eq!(exponential.sample(log.to_bits(), 0, 0), (-log / 0.25).to_bits());

    let log_normal = curve(IATDistType::LogNormal, vec![1.5, 0.5]);
    assert_eq!(
        log_normal.source(),
        ArrivalSource::LogNormal(1.5f64.to_bits(), 0.5f64.to_bits())
    );
    let z = -0.75f64;
    let exponent = 1.5 + 0.5 * z;
    assert_eq!(
        log_normal_exponent(1.5f64.to_bits(), 0.5f64.to_bits(), z.to_bits()),
        exponent.to_bits()
    );
    assert_eq!(
        log_normal.sample(exponent.exp().to_bits(), 0, 2.0f64.to_bits()),
        (exponent.exp() + 2.0).to_bits()
    );

    let gamma = curve(IATDistType::Gamma, vec![3.9, 0.1]);
    assert_eq!(gamma.source(), ArrivalSource::Gamma(3, 0.1f64.to_bits()));
    assert_eq!(gamma.sample(7.3f64.to_bits(), 0, 0), (7.3f64 * 0.1).to_bits());
    assert_eq!(
        curve(IATDistType::Gamma, vec![0.2, 0.1]).source(),
        ArrivalSource::Gamma(1, 0.1f64.to_bits())
    );
    assert_eq!(
        curve(IATDistType::Gamma, vec![f64::NAN, 0.1]).source(),
        ArrivalSource::Gamma(1, 0.1f64.to_bits())
    );
    assert_eq!(
        curve(IATDistType::Gamma, vec![1e30, 0.1]).source(),
        ArrivalSource::Gamma(i32::MAX as u64, 0.1f64.to_bits())
    );
}

#[test]
fn recorded_times_stay_within_their_jitter() {
    let dist = steady(3.0);
    let time = |jitter: f64| f64::from_bits(dist.sample(0, 0, jitter.to_bits()));
    for jitter in [-4.0f64, -2.5, -0.1, 0.0, 1.75] {
        assert!(time(-4.0) <= time(jitter) && time(jitter) <= time(1.75));
    }
    assert_eq!(time(-4.0), 0.0);
    assert_eq!(time(1.75), 4.75);
}

#[test]
fn times_are_never_negative() {
    let dist = steady(3.0);
    assert_eq!(dist.source(), ArrivalSource::Empirical(1));
    assert_eq!(dist.sample(0, 0, (-5.0f64).to_bits()), 0.0f64.to_bits());
    assert_eq!(dist.sample(0, 0, f64::NAN.to_bits()), 0.0f64.to_bits());
    assert_eq!(dist.sample(0, 0, (-1.0f64).to_bits()), 2.0f64.to_bits());
}

#[test]
fn sizes_come_from_the_drawn_bin() {
    let dist = histogram(vec![(10, 20, 0), (100, 110, 0)]);
    assert_eq!(dist.source(), SizeSource::WeightedBin);
    let mut rng = MaskRng::seed_from_u64(1);
    let mut seen = Vec::new();
    for _ in 0..100 {
        let size = dist.sample(Some(1), 0, &mut rng);
        assert!((100..=110).contains(&size));
        seen.push(size);
    }
    assert!(seen.iter().any(|s| *s != seen[0]));
    assert_eq!(dist.sample(None, 0, &mut rng), 64);
    assert_eq!(histogram(vec![]).sample(None, 0, &mut rng), 64);
    assert_eq!(histogram(vec![]).source(), SizeSource::Constant(64));
}

#[test]
fn draws_of_one_seed_are_those_of_the_generator() {
    let dist = histogram(vec![(10, 2000, 0)]);
    let mut rng = MaskRng::seed_from_u64(11);
    let mut expected = StdRng::seed_from_u64(11);
    for _ in 0..50 {
        assert_eq!(dist.sample(Some(0), 0, &mut rng), expected.gen_range(10u16..=2000));
    }
}

#[test]
fn curves_give_at_least_one_byte() {
    let mut rng = MaskRng::seed_from_u64(1);
    let mut dist = histogram(vec![]);
    dist.dist_type = SizeDistType::Parametric;
    dist.parametric_type = Some(ParametricType::LogNormal);
    dist.parametric_params = Some(vec![1, 2]);
    assert_eq!(dist.source(), SizeSource::LogNormal(1, 2));
    assert_eq!(dist.sample(None, 0.7f64.to_bits(), &mut rng), 1);
    assert_eq!(dist.sample(None, 812.9f64.to_bits(), &mut rng), 812);
    assert_eq!(dist.sample(None, 1e9f64.to_bits(), &mut rng), 65535);
    assert_eq!(dist.sample(None, f64::NAN.to_bits(), &mut rng), 1);
    assert_eq!(dist.sample(None, f64::INFINITY.to_bits(), &mut rng), 65535);
    dist.parametric_params = None;
    assert_eq!(dist.source(), SizeSource::Uniform);
    for _ in 0..200 {
        let size = dist.sample(None, 0, &mut rng);
        assert!((64..512).contains(&size));
    }
    dist.parametric_type = Some(ParametricType::Gamma);
    assert_eq!(dist.source(), SizeSource::Uniform);
}

#[test]
fn padding_follows_the_strategy() {
    let mut rng = MaskRng::seed_from_u64(4);
    assert_eq!(PaddingStrategy::Fixed { size: 12 }.calc_padding(5, 100, &mut rng), 12);
    assert_eq!(PaddingStrategy::MatchDistribution.calc_padding(30, 100, &mut rng), 70);
    assert_eq!(PaddingStrategy::MatchDistribution.calc_padding(100, 100, &mut rng), 0);
    assert_eq!(PaddingStrategy::MatchDistribution.calc_padding(101, 100, &mut rng), 0);
    let mut seen = Vec::new();
    for _ in 0..100 {
        let n = PaddingStrategy::RandomUniform { min: 3, max: 9 }.calc_padding(0, 0, &mut rng);
        assert!((3..=9).contains(&n));
        seen.push(n);
    }
    assert!(seen.iter().any(|n| *n != seen[0]));
}

fn to(condition: TransitionCondition, next_state: u16) -> FSMTransition {
    FSMTransition {
        condition,
        next_state,
        size_override: None,
        iat_override: None,
        padding_override: None,
    }
}

#[test]
fn the_first_transition_that_fires_is_taken() {
    let mut third = to(TransitionCondition::AfterDuration(500), 7);
    third.size_override = Some(histogram(vec![(1, 2, 3)]));
    third.iat_override = Some(steady(5.0));
    third.padding_override = Some(PaddingStrategy::Fixed { size: 4 });
    let mask = profile(vec![
        FSMState { state_id: 3, transitions: vec![
            to(TransitionCondition::OnPayloadType(1), 9),
            to(TransitionCondition::AfterPackets(10), 4),
            third,
        ] },
        FSMState { state_id: 4, transitions: vec![] },
    ]);
    assert_eq!(mask.initial_state(), 3);
    assert_eq!(mask.process_transition(3, 9, 499).0, 3);
    assert_eq!(mask.process_transition(3, 10, 0).0, 4);
    let (state, sizes, times, padding) = mask.process_transition(3, 0, 500);
    assert_eq!(state, 7);
    assert_eq!(sizes.unwrap().bins, vec![(1, 2, 3)]);
    assert_eq!(times.unwrap().params, vec![5.0f64.to_bits()]);
    assert_eq!(padding, Some(PaddingStrategy::Fixed { size: 4 }));
    assert_eq!(mask.process_transition(4, 1000, 1000).0, 4);
    assert_eq!(mask.process_transition(8, 1000, 1000).0, 8);
}

#[test]
fn random_transitions_compare_the_draw_with_the_probability() {
    let half = TransitionCondition::Random(0.5f32.to_bits());
    let mask = profile(vec![FSMState { state_id: 0, transitions: vec![to(half, 1)] }]);
    let step = |draw: u32| mask.process_transition_with(0, 0, 0, &vec![draw]).0;
    assert_eq!(step(0), 1);
    assert_eq!(step(0x7fff_ffff), 1);
    assert_eq!(step(0x8000_0000), 0);
    assert_eq!(step(u32::MAX), 0);

    let never = TransitionCondition::Random(0.0f32.to_bits());
    let always = TransitionCondition::Random(1.0f32.to_bits());
    let broken = TransitionCondition::Random(f32::NAN.to_bits());
    let mask = profile(vec![
        FSMState { state_id: 0, transitions: vec![to(never, 1), to(broken, 2), to(always, 3)] },
    ]);
    for _ in 0..50 {
        assert_eq!(mask.process_transition(0, 0, 0).0, 3);
    }
    let mask = profile(vec![FSMState { state_id: 0, transitions: vec![to(half, 1)] }]);
    let steps: Vec<u16> = (0..200).map(|_| mask.process_transition(0, 0, 0).0).collect();
    assert!(steps.contains(&0));
    assert!(steps.contains(&1));
}

fn number(n: u64) -> Vec<u8> {
    n.to_le_bytes().to_vec()
}

#[test]
fn the_signed_message_holds_every_field() {
    let mask = profile(vec![FSMState { state_id: 5, transitions: vec![
        to(TransitionCondition::Random(0.5f32.to_bits()), 6),
    ] }]);
    let mut expected = vec![12];
    expected.extend(b"auto_test_v1");
    for n in [0x0102, 1, 2] {
        expected.extend(number(n));
    }
    expected.extend([1, 3, 9, 8, 7]);
    expected.extend(number(4));
    expected.extend(number(32));
    expected.extend([0, 0, 0, 0]);
    expected.extend([3, 1]);
    expected.extend(number(1.0f64.to_bits()));
    expected.extend(number(0));
    expected.extend(number(0));
    expected.push(1);
    expected.push(1);
    expected.extend(number(5));
    expected.extend([1, 3]);
    expected.extend(number(0.5f32.to_bits() as u64));
    expected.extend(number(6));
    expected.extend([0, 0, 0]);
    expected.extend(number(3));
    expected.push(64);
    expected.extend(vec![0; 64 * 8]);
    expected.extend([0, 0]);
    assert_eq!(mask.signed_message(), expected);
}

#[test]
fn long_parts_have_their_size_in_front() {
    let mut mask = profile(vec![]);
    mask.mask_id = "x".repeat(300);
    let message = mask.signed_message();
    assert_eq!(&message[..3], &[128 + 44, 2, b'x']);
    mask.header_template = vec![0; 128];
    let longer = mask.signed_message();
    assert_eq!(longer.len(), message.len() + 128 - 3 + 1);
}

#[test]
fn signatures_are_checked() {
    let key = SigningKey::from_bytes(&[7; 32]);
    let public = key.verifying_key().to_bytes();
    let mut mask = profile(vec![]);
    assert_eq!(mask.verify_signature(&public), Ok(false));
    mask.signature = key.sign(&mask.signed_message()).to_bytes();
    assert_eq!(mask.verify_signature(&public), Ok(true));
    mask.version = 0x0103;
    assert_eq!(mask.verify_signature(&public), Ok(false));
    mask.version = 0x0102;
    mask.header_template.push(1);
    assert_eq!(mask.verify_signature(&public), Ok(false));
    let other = SigningKey::from_bytes(&[8; 32]).verifying_key().to_bytes();
    mask.header_template.pop();
    assert_eq!(mask.verify_signature(&public), Ok(true));
    assert_eq!(mask.verify_signature(&other), Ok(false));
}

#[test]
fn a_change_of_any_field_breaks_the_signature() {
    let key = SigningKey::from_bytes(&[7; 32]);
    let public = key.verifying_key().to_bytes();
    let signed = || {
        let mut mask = profile(vec![FSMState { state_id: 3, transitions: vec![] }]);
        mask.reverse_profile = Some(Box::new(profile(vec![])));
        mask.header_spec = Some(HeaderSpec::stun_binding());
        mask.signature = key.sign(&mask.signed_message()).to_bytes();
        mask
    };
    assert_eq!(signed().verify_signature(&public), Ok(true));
    let changes: Vec<fn(&mut MaskProfile)> = vec![
        |m| m.mask_id.push('2'),
        |m| m.version += 1,
        |m| m.created_at += 1,
        |m| m.expires_at += 1,
        |m| m.spoof_protocol = SpoofProtocol::Unspoofed,
        |m| m.header_template[0] = 0,
        |m| m.eph_pub_offset += 1,
        |m| m.eph_pub_length += 1,
        |m| m.size_distribution.dist_type = SizeDistType::Parametric,
        |m| m.size_distribution.bins.push((1, 2, 3)),
        |m| m.size_distribution.parametric_type = Some(ParametricType::Gamma),
        |m| m.size_distribution.parametric_params = Some(vec![]),
        |m| m.iat_distribution.dist_type = IATDistType::Gamma,
        |m| m.iat_distribution.params.push(0),
        |m| m.iat_distribution.jitter_range_ms.0 = 1,
        |m| m.iat_distribution.jitter_range_ms.1 = 1,
        |m| m.padding_strategy = PaddingStrategy::Fixed { size: 0 },
        |m| m.fsm_states[0].state_id = 4,
        |m| m.fsm_states[0].transitions.push(to(TransitionCondition::AfterPackets(1), 1)),
        |m| m.fsm_initial_state += 1,
        |m| m.signature_vector[63] = 1,
        |m| m.reverse_profile = None,
        |m| m.reverse_profile.as_mut().unwrap().expires_at += 1,
        |m| m.reverse_profile.as_mut().unwrap().signature[0] = 1,
        |m| m.header_spec = None,
        |m| m.header_spec = Some(HeaderSpec::stun_binding_with_cookie(false)),
    ];
    for change in changes {
        let mut mask = signed();
        change(&mut mask);
        assert_eq!(mask.verify_signature(&public), Ok(false));
    }
}

#[test]
fn keys_that_are_no_points_are_errors() {
    let mask = profile(vec![]);
    let mut bad = [0u8; 32];
    bad[0] = 2;
    assert_eq!(
        mask.verify_signature(&bad),
        Err(Error::Crypto(
            "Invalid Ed25519 public key: signature error: Cannot decompress Edwards point"
                .to_string()
        ))
    );
    assert_eq!(signature_outcome(Ok(true)), Ok(true));
    assert_eq!(
        signature_outcome(Err("x".to_string())),
        Err(Error::Crypto("Invalid Ed25519 public key: x".to_string()))
    );
}

#[test]
fn unsigned_profiles_have_a_zero_signature() {
    assert_eq!(default_signature(), [0u8; 64]);
}

#[test]
fn clones_are_alike_and_stand_on_their_own() {
    let state = FSMState {
        state_id: 5,
        transitions: vec![FSMTransition {
            condition: TransitionCondition::AfterPackets(9),
            next_state: 6,
            size_override: Some(histogram(vec![(1, 2, 1.0f32.to_bits())])),
            iat_override: Some(steady(4.0)),
            padding_override: Some(PaddingStrategy::Fixed { size: 3 }),
        }],
    };
    let mut original = profile(vec![state]);
    original.header_spec = Some(HeaderSpec::stun_binding());
    original.reverse_profile = Some(Box::new(profile(vec![])));
    let mut copy = original.clone();
    assert_eq!(format!("{:?}", copy), format!("{:?}", original));
    assert_eq!(copy.signed_message(), original.signed_message());
    copy.fsm_states[0].transitions[0].next_state = 7;
    copy.header_template.push(1);
    assert_eq!(original.fsm_states[0].transitions[0].next_state, 6);
    assert_eq!(original.header_template, vec![9, 8, 7]);
    let transition = original.fsm_states[0].transitions[0].clone();
    assert_eq!(transition.padding_override, Some(PaddingStrategy::Fixed { size: 3 }));
    assert_eq!(transition.iat_override.unwrap().params, vec![4.0f64.to_bits()]);
}
