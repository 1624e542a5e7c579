use aivpn::header::{
    default_counter_step, encode_semantic_u64, HeaderEndian, HeaderField, HeaderSpec, IdFieldMode,
};
use aivpn::mask_rng::MaskRng;

#[test]
fn test_stun_binding_generation() {
    let spec = HeaderSpec::stun_binding();

    let mut rng = MaskRng::seed_from_u64(42);
    let header1 = spec.generate(&mut rng);
    let header2 = spec.generate(&mut rng);

    assert_eq!(header1.len(), 20);
    assert_eq!(header2.len(), 20);

    assert_eq!(&header1[0..2], &[0x00, 0x01]);
    assert_eq!(&header1[4..8], &[0x21, 0x12, 0xA4, 0x42]);

    assert_ne!(&header1[8..], &header2[8..]);
}

#[test]
fn test_quic_initial_generation() {
    let spec = HeaderSpec::quic_initial(0x00000001, 8);

    let mut rng = MaskRng::seed_from_u64(42);
    let header1 = spec.generate(&mut rng);
    let header2 = spec.generate(&mut rng);

    assert_eq!(header1.len(), 14);
    assert_eq!(header2.len(), 14);

    assert_eq!(header1[0], 0xC0);
    assert_eq!(&header1[1..5], &0x00000001u32.to_be_bytes());
    assert_eq!(header1[5], 8);

    assert_ne!(&header1[6..], &header2[6..]);
}

#[test]
fn test_dns_query_generation() {
    let spec = HeaderSpec::dns_query(0x0100);

    let mut rng = MaskRng::seed_from_u64(42);
    let header1 = spec.generate(&mut rng);
    let header2 = spec.generate(&mut rng);

    assert_eq!(header1.len(), 12);
    assert_eq!(header2.len(), 12);

    assert_eq!(&header1[2..4], &[0x01, 0x00]);
    assert_eq!(&header2[2..4], &[0x01, 0x00]);

    assert_ne!(&header1[0..2], &header2[0..2]);

    assert_eq!(&header1[4..], &[0x00, 0x01, 0x00, 0x00, 0x00, 0x00, 0x00, 0x00]);
}

#[test]
fn test_tls_record_generation() {
    let spec = HeaderSpec::tls_record(0x17, 0x0303);

    let mut rng = MaskRng::seed_from_u64(42);
    let header = spec.generate(&mut rng);

    assert_eq!(header.len(), 5);
    assert_eq!(header[0], 0x17);
    assert_eq!(&header[1..3], &[0x03, 0x03]);
    assert_eq!(&header[3..5], &[0x00, 0x00]);
}

#[test]
fn test_raw_prefix_generation() {
    let spec = HeaderSpec::RawPrefix {
        prefix_hex: "010203040506".to_string(),
        randomize_indices: vec![2, 4],
    };

    let mut rng = MaskRng::seed_from_u64(42);
    let header1 = spec.generate(&mut rng);
    let header2 = spec.generate(&mut rng);

    assert_eq!(header1.len(), 6);
    assert_eq!(header2.len(), 6);

    assert_eq!(header1[0], header2[0]);
    assert_eq!(header1[1], header2[1]);
    assert_eq!(header1[3], header2[3]);
    assert_eq!(header1[5], header2[5]);

    assert_ne!(header1[2], header2[2]);
    assert_ne!(header1[4], header2[4]);
}

#[test]
fn test_header_spec_min_length() {
    let stun = HeaderSpec::stun_binding();
    assert_eq!(stun.min_length(), 20);

    let quic = HeaderSpec::quic_initial(0x00000001, 8);
    assert_eq!(quic.min_length(), 14);

    let dns = HeaderSpec::dns_query(0x0100);
    assert_eq!(dns.min_length(), 12);

    let tls = HeaderSpec::tls_record(0x17, 0x0303);
    assert_eq!(tls.min_length(), 5);
}

#[test]
fn test_static_generation_deterministic() {
    let spec = HeaderSpec::stun_binding();

    let static1 = spec.generate_static();
    let static2 = spec.generate_static();

    assert_eq!(static1, static2);
}

#[test]
fn static_generation_uses_seed_zero() {
    let spec = HeaderSpec::stun_binding();
    let mut rng = MaskRng::seed_from_u64(0);
    assert_eq!(spec.generate_static(), spec.generate(&mut rng));
}

#[test]
fn raw_prefix_fixed_bytes_are_the_decoded_prefix() {
    let spec = HeaderSpec::RawPrefix {
        prefix_hex: "0a0B0c".to_string(),
        randomize_indices: vec![1],
    };
    let mut rng = MaskRng::seed_from_u64(7);
    let header = spec.generate(&mut rng);
    assert_eq!(header.len(), 3);
    assert_eq!(header[0], 0x0a);
    assert_eq!(header[2], 0x0c);
    assert_eq!(spec.min_length(), 3);
}

#[test]
fn raw_prefix_that_is_no_hex_falls_back() {
    let spec = HeaderSpec::RawPrefix {
        prefix_hex: "xyz".to_string(),
        randomize_indices: vec![],
    };
    let mut rng = MaskRng::seed_from_u64(7);
    assert_eq!(spec.generate(&mut rng), vec![0, 1, 2, 3]);
}

#[test]
fn numbers_are_encoded_in_both_byte_orders() {
    assert_eq!(
        encode_semantic_u64(0x0102_0304, 4, HeaderEndian::Big),
        vec![1, 2, 3, 4]
    );
    assert_eq!(
        encode_semantic_u64(0x0102_0304, 4, HeaderEndian::Little),
        vec![4, 3, 2, 1]
    );
    assert_eq!(encode_semantic_u64(0x0102_0304, 2, HeaderEndian::Big), vec![3, 4]);
    assert_eq!(
        encode_semantic_u64(1, 10, HeaderEndian::Big),
        vec![0, 0, 0, 0, 0, 0, 0, 0, 0, 1]
    );
    assert_eq!(
        encode_semantic_u64(1, 10, HeaderEndian::Little),
        vec![1, 0, 0, 0, 0, 0, 0, 0, 0, 0]
    );
}

#[test]
fn defaults_are_random_identifiers_and_unit_steps() {
    assert_eq!(default_counter_step(), 1);
    assert_eq!(IdFieldMode::default(), IdFieldMode::Random);
}

#[test]
fn counters_stay_within_reach_of_their_start() {
    let spec = HeaderSpec::structured(vec![HeaderField::CounterLike {
        len: 8,
        endian: HeaderEndian::Big,
        start: 1000,
        step: 3,
    }]);
    let mut rng = MaskRng::seed_from_u64(3);
    for _ in 0..200 {
        let header = spec.generate(&mut rng);
        let mut bytes = [0u8; 8];
        bytes.copy_from_slice(&header);
        let value = u64::from_be_bytes(bytes);
        assert!(value >= 1000);
        assert!(value <= 1000 + 3 * 1024);
    }
}

#[test]
fn connection_identifiers_are_clamped() {
    let spec = HeaderSpec::quic_initial(1, 255);
    let mut rng = MaskRng::seed_from_u64(1);
    let header = spec.generate(&mut rng);
    assert_eq!(header[5], 20);
    assert_eq!(header.len(), 26);
    assert_eq!(spec.min_length(), 26);
    assert_eq!(HeaderSpec::quic_initial(1, 0).min_length(), 14);
}

#[test]
fn stun_without_cookie_has_zeros_in_its_place() {
    let spec = HeaderSpec::stun_binding_with_cookie(false);
    let mut rng = MaskRng::seed_from_u64(42);
    let header = spec.generate(&mut rng);
    assert_eq!(header.len(), 20);
    assert_eq!(&header[4..8], &[0, 0, 0, 0]);
}

#[test]
fn zero_identifiers_are_zero() {
    let spec = HeaderSpec::structured(vec![
        HeaderField::Id { len: 3, mode: IdFieldMode::Zero },
        HeaderField::Random { len: 4 },
    ]);
    let mut rng = MaskRng::seed_from_u64(5);
    let header = spec.generate(&mut rng);
    assert_eq!(header.len(), 7);
    assert_eq!(&header[..3], &[0, 0, 0]);
    assert_eq!(spec.fields().len(), 2);
}

#[test]
fn counters_stop_at_the_largest_number() {
    let spec = HeaderSpec::structured(vec![
        HeaderField::Fixed { bytes: vec![0xAA] },
        HeaderField::CounterLike {
            len: 8,
            endian: HeaderEndian::Little,
            start: u64::MAX - 1,
            step: 0,
        },
    ]);
    let mut rng = MaskRng::seed_from_u64(11);
    let mut stopped = 0;
    for _ in 0..100 {
        let header = spec.generate(&mut rng);
        let mut bytes = [0u8; 8];
        bytes.copy_from_slice(&header[1..]);
        let value = u64::from_le_bytes(bytes);
        assert!(value >= u64::MAX - 1);
        if value == u64::MAX {
            stopped += 1;
        }
    }
    assert!(stopped > 90);
}

#[test]
fn a_step_of_zero_reaches_as_far_as_a_step_of_one() {
    let spec = |step: u64| {
        HeaderSpec::structured(vec![HeaderField::CounterLike {
            len: 2,
            endian: HeaderEndian::Big,
            start: 0,
            step,
        }])
    };
    let mut numbers = Vec::new();
    let mut rng = MaskRng::seed_from_u64(13);
    for _ in 0..200 {
        let header = spec(0).generate(&mut rng);
        numbers.push(u16::from_be_bytes([header[0], header[1]]));
    }
    assert!(numbers.iter().all(|&number| number <= 1024));
    assert!(numbers.iter().any(|&number| number > 512));
    assert_eq!(spec(0).generate_static(), spec(1).generate_static());
}
