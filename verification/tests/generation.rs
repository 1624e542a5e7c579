use aivpn::analysis::{analyze_traffic, analyze_traffic_with, recorded_time, AnalysisResult};
use aivpn::consensus::Pattern;
use aivpn::error::Error;
use aivpn::mask::{IATDistType, PaddingStrategy, SizeDistType, SpoofProtocol};
use aivpn::mask_rng::MaskRng;
use aivpn::packet::{Direction, PacketMetadata};
use aivpn::pipeline::{mask_entry, self_test_failure, Action, Event, Stage};
use aivpn::profile::{
    build_mask_profile, log_argument_of_sizes, log_argument_of_times, mask_id_for, mask_id_of,
    spoof_protocol_of,
};
use aivpn::selftest::{judge, measure_entropy, sample_count, self_test};
use aivpn::single::Single;

fn single(x: f32) -> Single {
    Single { bits: x.to_bits() }
}

fn value(x: Single) -> f32 {
    f32::from_bits(x.bits)
}

fn packet(direction: Direction, size: u16, iat: f64, second: f64) -> PacketMetadata {
    PacketMetadata {
        direction,
        size,
        iat_ms: iat.to_bits(),
        header_prefix: vec![0x17, 3, 3, 0, 0],
        entropy: 7.25f32.to_bits(),
        timestamp_ns: (second * 1e9) as u64,
    }
}

fn recording(up: usize, down: usize) -> Vec<PacketMetadata> {
    let mut list = Vec::new();
    for i in 0..up {
        let size = if i % 3 == 0 { 120 } else { 900 } + (i % 7) as u16;
        list.push(packet(Direction::Uplink, size, 20.0 + (i % 4) as f64, i as f64 * 0.02));
    }
    for i in 0..down {
        list.push(packet(Direction::Downlink, 1400, 5.0, 60.0 + i as f64 * 0.01));
    }
    list
}

#[test]
fn too_few_packets_cannot_be_analysed() {
    let expected = Error::Mask("Too few uplink packets (need >= 100)".to_string());
    assert_eq!(analyze_traffic(&recording(99, 500)).err(), Some(expected));
    assert!(analyze_traffic(&recording(100, 0)).is_ok());
}

#[test]
fn times_that_are_not_sorted_may_hold_anything() {
    let broken = |direction| packet(direction, 1, f64::NAN, 0.0);
    let mut few = recording(98, 0);
    few.push(broken(Direction::Uplink));
    assert!(analyze_traffic(&few).is_err());
    let mut enough = recording(100, 8);
    enough.push(broken(Direction::Downlink));
    let a = analyze_traffic(&enough).unwrap();
    assert!(a.downlink_periods.is_empty());
    assert!(value(a.downlink_iat_mean_ms).is_nan());
}

#[test]
fn analysis_describes_the_recording() {
    let packets = recording(300, 50);
    let a = analyze_traffic_with(&packets, &vec![0; 16]).unwrap();
    assert_eq!(a.total_packets, 350);
    assert_eq!(a.duration_secs, 60);
    assert_eq!(a.header_template, vec![0x17, 3, 3, 0, 0]);
    assert!(matches!(
        a.header_pattern,
        Some(Pattern::TlsRecord { content_type: 0x17, version: 0x0303 })
    ));
    assert_eq!(value(a.mean_entropy), 7.25);
    assert_eq!(a.fsm_initial_state, 0);
    assert_eq!(a.fsm_states.len(), 1);
    assert_eq!(a.uplink_periods.len(), 1);
    assert_eq!(value(a.uplink_iat_mean_ms), 21.5);
    assert_eq!(value(a.downlink_iat_mean_ms), 5.0);
    assert_eq!(value(a.downlink_iat_std_ms), 0.0);
    assert_eq!(a.downlink_size_modes.len(), 1);
    let modes = a.uplink_size_modes.len();
    assert!(modes >= 1);
    let for_modes = if modes >= 2 { 0.3f32 } else { 0.2 };
    assert_eq!(value(a.confidence), for_modes + 0.2);
}

#[test]
fn recorded_time_counts_whole_seconds() {
    assert_eq!(recorded_time(&vec![]), 0);
    assert_eq!(recorded_time(&vec![packet(Direction::Uplink, 1, 1.0, 9.0)]), 0);
    let forward = vec![
        packet(Direction::Uplink, 1, 1.0, 1.5),
        packet(Direction::Uplink, 1, 1.0, 4.4),
    ];
    assert_eq!(recorded_time(&forward), 2);
    let backward = vec![
        packet(Direction::Uplink, 1, 1.0, 4.4),
        packet(Direction::Uplink, 1, 1.0, 1.5),
    ];
    assert_eq!(recorded_time(&backward), 0);
}

#[test]
fn identifiers_name_the_service() {
    assert_eq!(mask_id_of("My Video Call"), "auto_my_video_call_v1");
    assert_eq!(mask_id_of("ZOOM"), "auto_zoom_v1");
    assert_eq!(mask_id_for("x"), "auto_x_v1");
}

fn analysis() -> AnalysisResult {
    analyze_traffic_with(&recording(300, 50), &vec![0; 16]).unwrap()
}

#[test]
fn profiles_carry_the_analysis_over() {
    let a = analysis();
    let modes = a.uplink_size_modes.clone();
    let period = a.uplink_periods[0];
    let std_ms = value(a.uplink_iat_std_ms);
    let argument = value(log_argument_of_times(&a));
    assert_eq!(argument, value(period.period_ms).max(1.0));
    let log = argument.ln();
    let mask = build_mask_profile("Zoom Call", a, single(0.0), single(log), 1_000);
    assert_eq!(mask.mask_id, "auto_zoom_call_v1");
    assert_eq!(mask.version, 2);
    assert_eq!(mask.created_at, 1_000);
    assert_eq!(mask.expires_at, 1_000 + 365 * 24 * 3600);
    assert_eq!(mask.spoof_protocol, SpoofProtocol::HTTPS_H2);
    assert_eq!(mask.eph_pub_offset, 5);
    assert_eq!(mask.eph_pub_length, 32);
    assert_eq!(mask.padding_strategy, PaddingStrategy::RandomUniform { min: 0, max: 64 });
    assert_eq!(mask.signature_vector, vec![0; 64]);
    assert_eq!(mask.signature, [0; 64]);
    assert!(mask.reverse_profile.is_none());
    assert_eq!(mask.header_spec.unwrap().min_length(), 5);
    assert_eq!(mask.size_distribution.dist_type, SizeDistType::Histogram);
    assert_eq!(mask.size_distribution.bins.len(), modes.len());
    for (bin, mode) in mask.size_distribution.bins.iter().zip(&modes) {
        let (center, std_dev) = (value(mode.center), value(mode.std_dev));
        let low = (center - std_dev).max(1.0) as u16;
        let high = (center + std_dev).max(low as f32 + 1.0) as u16;
        assert_eq!(*bin, (low, high, mode.weight.bits));
        assert!(1 <= low && low <= high);
    }
    let times = &mask.iat_distribution;
    assert_eq!(times.dist_type, IATDistType::LogNormal);
    let ratio = (value(period.jitter_ms) / value(period.period_ms).max(1.0)).max(0.1);
    assert_eq!(times.params, vec![(log as f64).to_bits(), (ratio as f64).to_bits()]);
    assert_eq!(times.jitter_range_ms, (0, (std_ms.max(1.0) as f64 * 0.1).to_bits()));
}

#[test]
fn uneven_times_become_a_gamma_curve() {
    let mut packets = recording(200, 0);
    for (i, p) in packets.iter_mut().enumerate() {
        p.iat_ms = (if i % 4 == 0 { 400.0 } else { 3.0 + (i % 3) as f64 }).to_bits();
    }
    let a = analyze_traffic_with(&packets, &vec![0; 16]).unwrap();
    assert_eq!(a.uplink_periods.len(), 2);
    let (p1, p2) = (a.uplink_periods[0], a.uplink_periods[1]);
    let std_ms = value(a.uplink_iat_std_ms);
    let mask = build_mask_profile("s", a, single(0.0), single(0.0), 0);
    let centre = value(p1.period_ms) * value(p1.weight) + value(p2.period_ms) * value(p2.weight);
    let ratio = centre / std_ms.max(1.0);
    let k = (ratio * ratio).max(1.0);
    let theta = (std_ms * std_ms) as f64 / centre.max(1.0) as f64;
    assert_eq!(mask.iat_distribution.dist_type, IATDistType::Gamma);
    assert_eq!(mask.iat_distribution.params, vec![(k as f64).to_bits(), theta.to_bits()]);
    assert_eq!(
        mask.iat_distribution.jitter_range_ms,
        (0, (std_ms.max(1.0) as f64 * 0.1).to_bits())
    );
}

#[test]
fn an_analysis_without_modes_or_periods_gives_curves() {
    let mut a = analysis();
    a.uplink_size_modes = vec![];
    a.uplink_periods = vec![];
    a.header_pattern = None;
    let (mean, std_dev) = (value(a.uplink_size_mean), value(a.uplink_size_std));
    let (mean_ms, std_ms) = (value(a.uplink_iat_mean_ms), value(a.uplink_iat_std_ms));
    assert_eq!(value(log_argument_of_sizes(&a)), mean.max(1.0));
    assert_eq!(value(log_argument_of_times(&a)), mean_ms.max(1.0));
    let size_log = mean.max(1.0).ln();
    let iat_log = mean_ms.max(1.0).ln();
    let mask = build_mask_profile("s", a, single(size_log), single(iat_log), 0);
    assert_eq!(mask.size_distribution.dist_type, SizeDistType::Parametric);
    assert_eq!(
        mask.size_distribution.parametric_params,
        Some(vec![
            (size_log as f64).to_bits(),
            ((std_dev / mean.max(1.0)).max(0.1) as f64).to_bits()
        ])
    );
    assert_eq!(
        mask.iat_distribution.params,
        vec![
            (iat_log as f64).to_bits(),
            ((std_ms / mean_ms.max(1.0)).max(0.1) as f64).to_bits()
        ]
    );
    assert_eq!(mask.iat_distribution.jitter_range_ms, (0, 10.0f64.to_bits()));
    assert_eq!(mask.eph_pub_offset, 4);
    assert_eq!(mask.spoof_protocol, SpoofProtocol::QUIC);
    assert!(mask.header_spec.is_none());
}

#[test]
fn protocols_follow_the_pattern() {
    let stun = Some(Pattern::StunBinding { magic_cookie: false });
    assert_eq!(spoof_protocol_of(&stun), SpoofProtocol::WebRTC_STUN);
    let quic = Some(Pattern::QuicInitial { version: 1, dcid_len: 8 });
    assert_eq!(spoof_protocol_of(&quic), SpoofProtocol::QUIC);
    let dns = Some(Pattern::DnsQuery { flags: 1 });
    assert_eq!(spoof_protocol_of(&dns), SpoofProtocol::DNS_over_UDP);
    let tls = Some(Pattern::TlsRecord { content_type: 1, version: 1 });
    assert_eq!(spoof_protocol_of(&tls), SpoofProtocol::HTTPS_H2);
    let raw = Some(Pattern::RawPrefix { prefix_hex: "00".to_string(), randomize_indices: vec![] });
    assert_eq!(spoof_protocol_of(&raw), SpoofProtocol::QUIC);
    assert_eq!(spoof_protocol_of(&None), SpoofProtocol::QUIC);
}

#[test]
fn sizes_of_a_generated_mask_can_be_drawn() {
    let a = analysis();
    let mask = build_mask_profile("s", a, single(0.0), single(3.0), 0);
    let mut rng = MaskRng::seed_from_u64(1);
    for (i, bin) in mask.size_distribution.bins.iter().enumerate() {
        let size = mask.size_distribution.sample(Some(i), 0, &mut rng);
        assert!(bin.0 <= size && size <= bin.1);
    }
}

#[test]
fn times_of_a_generated_mask_can_be_drawn() {
    let mask = build_mask_profile("s", analysis(), single(0.0), single(3.0), 0);
    let time = mask.iat_distribution.sample(20.0f64.to_bits(), 0, 1.5f64.to_bits());
    assert_eq!(f64::from_bits(time), 21.5);
    let (low, high) = mask.iat_distribution.jitter_range_ms;
    assert!(f64::from_bits(low) < f64::from_bits(high));
}

#[test]
fn the_key_stands_behind_the_generated_header() {
    for (pattern, offset) in [
        (Pattern::StunBinding { magic_cookie: true }, 20),
        (Pattern::QuicInitial { version: 1, dcid_len: 8 }, 14),
        (Pattern::DnsQuery { flags: 0x0100 }, 12),
        (Pattern::TlsRecord { content_type: 0x17, version: 0x0303 }, 5),
        (Pattern::RawPrefix { prefix_hex: "0a0b0c".to_string(), randomize_indices: vec![1] }, 3),
        (Pattern::RawPrefix { prefix_hex: "xy".to_string(), randomize_indices: vec![] }, 4),
    ] {
        let mut a = analysis();
        a.header_pattern = Some(pattern);
        let mask = build_mask_profile("s", a, single(0.0), single(3.0), 0);
        assert_eq!(mask.eph_pub_offset, offset);
        let header = mask.header_spec.unwrap().generate(&mut MaskRng::seed_from_u64(3));
        assert_eq!(header.len(), offset as usize);
    }
}

#[test]
fn verdicts_need_all_three_measures() {
    let good = judge(single(0.1), single(0.2), single(0.25));
    assert!(good.passed);
    let average = (0.1f32 + 0.2) / 2.0;
    assert_eq!(value(good.confidence), (1.0 - average / 0.4).max(0.1));
    assert!(!judge(single(0.4), single(0.2), single(0.25)).passed);
    assert!(!judge(single(0.1), single(0.4), single(0.25)).passed);
    assert!(!judge(single(0.1), single(0.2), single(0.5)).passed);
    assert_eq!(value(judge(single(0.4), single(0.2), single(0.25)).confidence), 0.0);
    assert_eq!(value(judge(single(0.0), single(0.0), single(0.0)).confidence), 1.0);
    let weak = judge(single(0.399), single(0.399), single(0.0));
    assert!(weak.passed);
    assert_eq!(value(weak.confidence), 0.1);
}

#[test]
fn self_test_compares_distributions() {
    let packets = recording(200, 10);
    assert_eq!(sample_count(&packets), 200);
    let sizes: Vec<u16> =
        packets.iter().filter(|p| p.direction == Direction::Uplink).map(|p| p.size).collect();
    let times: Vec<u64> =
        packets.iter().filter(|p| p.direction == Direction::Uplink).map(|p| p.iat_ms).collect();
    let same = self_test(&packets, &sizes, &times);
    assert_eq!(value(same.ks_size), 0.0);
    assert_eq!(value(same.ks_iat), 0.0);
    assert_eq!(value(same.entropy_match), 0.25);
    assert!(same.passed);
    assert_eq!(value(same.confidence), 1.0);
    let other = self_test(&packets, &vec![1; 200], &times);
    assert_eq!(value(other.ks_size), 1.0);
    assert!(!other.passed);
    let none = self_test(&packets, &vec![], &times);
    assert_eq!(value(none.ks_size), 1.0);
}

#[test]
fn at_most_five_thousand_packets_are_compared() {
    let mut packets = recording(5_010, 0);
    assert_eq!(sample_count(&packets), 5_000);
    for p in packets.iter_mut().skip(5_000) {
        p.size = 1;
    }
    let sizes: Vec<u16> = packets.iter().take(5_000).map(|p| p.size).collect();
    let times: Vec<u64> = packets.iter().take(5_000).map(|p| p.iat_ms).collect();
    let result = self_test(&packets, &sizes, &times);
    assert_eq!(value(result.ks_size), 0.0);
}

#[test]
fn entropies_are_compared_with_seven_bits() {
    let mut packets = recording(4, 0);
    for (p, e) in packets.iter_mut().zip([6.0f32, 6.5, 7.0, 6.9]) {
        p.entropy = e.to_bits();
    }
    let mean = (6.0f32 as f64 + 6.5f32 as f64 + 7.0f32 as f64 + 6.9f32 as f64) / 4.0;
    assert_eq!(value(measure_entropy(&packets)), (mean - 7.0).abs().min(1.0) as f32);
    for p in packets.iter_mut() {
        p.entropy = 1.0f32.to_bits();
    }
    assert_eq!(value(measure_entropy(&packets)), 1.0);
    packets[0].entropy = f32::NAN.to_bits();
    assert_eq!(value(measure_entropy(&packets)), 1.0);
    assert_eq!(value(measure_entropy(&vec![])), 1.0);
}

fn failure() -> Error {
    self_test_failure("0.500", "0.100", "0.250")
}

#[test]
fn failed_masks_go_nowhere() {
    let mut stage = Stage::Testing;
    let test = judge(single(0.5), single(0.1), single(0.25));
    match stage.advance(Event::Tested(test, failure())) {
        Some(Action::Stop(Err(Error::Mask(text)))) => {
            assert_eq!(text, "Self-test failed: KS_size=0.500, KS_iat=0.100, entropy=0.250");
        }
        _ => panic!("the mask was not refused"),
    }
    assert_eq!(stage, Stage::Done);
    assert!(stage.advance(Event::Stored(Ok(()))).is_none());
}

#[test]
fn passed_masks_are_stored_entered_and_announced() {
    let test = judge(single(0.1), single(0.1), single(0.25));
    let mut stage = Stage::Testing;
    assert!(stage.advance(Event::Stored(Ok(()))).is_none());
    assert!(matches!(stage.advance(Event::Tested(test, failure())), Some(Action::Store)));
    assert!(matches!(stage.advance(Event::Stored(Ok(()))), Some(Action::Register)));
    assert!(matches!(stage.advance(Event::Registered(Ok(()))), Some(Action::Announce)));
    let lost = Err(Error::Io("unreachable".to_string()));
    assert!(matches!(stage.advance(Event::Announced(lost)), Some(Action::Stop(Ok(())))));
    assert_eq!(stage, Stage::Done);
}

#[test]
fn failures_to_store_or_enter_are_reported() {
    let test = judge(single(0.1), single(0.1), single(0.25));
    let mut stage = Stage::Testing;
    stage.advance(Event::Tested(test, failure()));
    let full = Err(Error::Io("full".to_string()));
    match stage.advance(Event::Stored(full)) {
        Some(Action::Stop(Err(e))) => assert_eq!(e, Error::Io("full".to_string())),
        _ => panic!("the failure was lost"),
    }
    let mut stage = Stage::Testing;
    stage.advance(Event::Tested(test, failure()));
    stage.advance(Event::Stored(Ok(())));
    let locked = Err(Error::Io("locked".to_string()));
    match stage.advance(Event::Registered(locked)) {
        Some(Action::Stop(Err(e))) => assert_eq!(e, Error::Io("locked".to_string())),
        _ => panic!("the failure was lost"),
    }
}

#[test]
fn entries_start_unused() {
    let mask = build_mask_profile("s", analysis(), single(0.0), single(3.0), 5);
    let entry = mask_entry(mask, single(0.75), 9);
    assert_eq!(entry.stats.mask_id, "auto_s_v1");
    assert_eq!(entry.profile.mask_id, "auto_s_v1");
    assert_eq!(entry.stats.times_used, 0);
    assert_eq!(entry.stats.times_failed, 0);
    assert_eq!(value(entry.stats.success_rate), 1.0);
    assert_eq!(value(entry.stats.confidence), 0.75);
    assert!(entry.stats.is_active);
    assert_eq!(entry.stats.created_by, "auto");
    assert_eq!(entry.stats.created_at, 9);
    assert_eq!(entry.stats.last_used, None);
}
