use aivpn::consensus::{
    header_consensus, header_consensus_with, infer_header_spec, infer_pattern, Pattern,
};
use aivpn::header::HeaderSpec;
use aivpn::mask_rng::{random_bytes, MaskRng};

fn generated(spec: &HeaderSpec, count: usize, seed: u64) -> Vec<Vec<u8>> {
    let mut rng = MaskRng::seed_from_u64(seed);
    (0..count).map(|_| spec.generate(&mut rng)).collect()
}

#[test]
fn consensus_of_nothing_is_eight_zeros() {
    assert_eq!(header_consensus(&vec![]), vec![0; 8]);
}

#[test]
fn consensus_takes_bytes_with_more_than_seven_tenths() {
    let mut headers = vec![vec![1u8, 9, 3]; 7];
    headers.extend(vec![vec![1u8, 8, 3, 4]; 3]);
    let draws = vec![0xAA; 16];
    assert_eq!(header_consensus_with(&headers, &draws), vec![1, 0xAA, 3]);
    headers.push(vec![1, 9, 3]);
    assert_eq!(header_consensus_with(&headers, &draws), vec![1, 9, 3]);
    let long = vec![vec![7u8; 40]; 3];
    assert_eq!(header_consensus_with(&long, &draws), vec![7; 16]);
    assert_eq!(header_consensus(&long), vec![7; 16]);
}

#[test]
fn consensus_prefers_the_smallest_of_equally_frequent_bytes() {
    let headers = vec![vec![5u8], vec![3], vec![5], vec![3]];
    assert_eq!(header_consensus_with(&headers, &vec![0; 16]), vec![0]);
    let draws = vec![0x77; 16];
    assert_eq!(header_consensus_with(&headers, &draws), vec![0x77]);
}

#[test]
fn random_bytes_are_drawn() {
    let a = random_bytes(64);
    let b = random_bytes(64);
    assert_eq!(a.len(), 64);
    assert_ne!(a, b);
}

#[test]
fn known_protocols_are_recognised() {
    let stun = generated(&HeaderSpec::stun_binding(), 20, 1);
    assert!(matches!(infer_pattern(&stun), Some(Pattern::StunBinding { magic_cookie: true })));
    let quic = generated(&HeaderSpec::quic_initial(1, 8), 20, 2);
    assert!(matches!(infer_pattern(&quic), Some(Pattern::QuicInitial { version: 1, dcid_len: 8 })));
    let dns = generated(&HeaderSpec::dns_query(0x0100), 20, 3);
    assert!(matches!(infer_pattern(&dns), Some(Pattern::DnsQuery { flags: 0x0100 })));
    let data = generated(&HeaderSpec::tls_record(0x17, 0x0303), 20, 4);
    assert!(matches!(
        infer_pattern(&data),
        Some(Pattern::TlsRecord { content_type: 0x17, version: 0x0303 })
    ));
    let hello = generated(&HeaderSpec::tls_record(0x16, 0x0303), 20, 5);
    assert!(matches!(
        infer_pattern(&hello),
        Some(Pattern::TlsRecord { content_type: 0x16, version: 0x0303 })
    ));
}

#[test]
fn rare_cookies_are_recognised_without_being_sent() {
    let mut headers = vec![vec![0u8, 1, 0, 9, 0x21, 0x12, 0xA4, 0x42]; 4];
    headers.extend(vec![vec![0u8, 1, 0, 9, 0x55, 0x12, 0xA4, 0x42]; 5]);
    headers.push(vec![0u8, 1, 0, 9, 0x55, 0x12, 0xA4, 0x42]);
    assert!(matches!(
        infer_pattern(&headers),
        Some(Pattern::StunBinding { magic_cookie: false })
    ));
}

#[test]
fn other_headers_keep_the_bytes_on_which_they_agree() {
    let mut state = 1u64;
    let headers: Vec<Vec<u8>> = (0..40)
        .map(|_| {
            state = state.wrapping_mul(6364136223846793005).wrapping_add(1442695040888963407);
            vec![0x40, 0x99, (state >> 33) as u8, (state >> 41) as u8, 0x31]
        })
        .collect();
    match infer_pattern(&headers) {
        Some(Pattern::RawPrefix { prefix_hex, randomize_indices }) => {
            assert_eq!(randomize_indices, vec![2, 3]);
            assert_eq!(prefix_hex.len(), 10);
            assert_eq!(&prefix_hex[..4], "4099");
            assert_eq!(&prefix_hex[8..], "31");
        }
        _ => panic!("no prefix"),
    }
    let spec = infer_header_spec(&headers).unwrap();
    assert_eq!(spec.min_length(), 5);
    let mut rng = MaskRng::seed_from_u64(9);
    let header = spec.generate(&mut rng);
    assert_eq!(header[0], 0x40);
    assert_eq!(header[1], 0x99);
    assert_eq!(header[4], 0x31);
}

#[test]
fn nothing_is_inferred_without_a_pattern() {
    assert!(infer_pattern(&vec![]).is_none());
    assert!(infer_pattern(&vec![vec![1, 2, 3]; 10]).is_none());
    let same = vec![vec![0x40u8, 0x99, 0x10, 0x20]; 10];
    assert!(infer_pattern(&same).is_none());
    let few = vec![vec![0x40u8, 1, 2, 3], vec![0x40, 4, 5, 6], vec![0x40, 7, 8, 9]];
    assert!(infer_header_spec(&few).is_none());
}
