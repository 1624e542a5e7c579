use aivpn::arrivals::{mean_f32, mean_f64, std_dev_f64};
use aivpn::float_bits::{double_lt, single_lt};
use aivpn::ieee::{
    difference_of, integer_of, product_of, quotient_of, shorten, square_root_of, sum_of, widen,
};
use aivpn::soft_float::{DOUBLE, SINGLE};

fn next(state: &mut u64) -> u64 {
    *state ^= *state << 13;
    *state ^= *state >> 7;
    *state ^= *state << 17;
    *state
}

fn doubles() -> Vec<u64> {
    let mut list = vec![
        0.0f64.to_bits(),
        (-0.0f64).to_bits(),
        1.0f64.to_bits(),
        (-1.5f64).to_bits(),
        f64::MAX.to_bits(),
        f64::MIN_POSITIVE.to_bits(),
        1,
        2,
        0x000f_ffff_ffff_ffff,
        0x8000_0000_0000_0001,
        f64::INFINITY.to_bits(),
        f64::NEG_INFINITY.to_bits(),
        1e-160f64.to_bits(),
        3e-170f64.to_bits(),
        0.1f64.to_bits(),
        1e300f64.to_bits(),
    ];
    let mut state = 0x9e37_79b9_7f4a_7c15u64;
    for _ in 0..40 {
        list.push(next(&mut state));
    }
    for _ in 0..40 {
        let near = (next(&mut state) % 0x0fff_ffff_ffff_ffff) / 16 + 0x3fe0_0000_0000_0000;
        list.push(near);
    }
    list
}

fn singles() -> Vec<u32> {
    let mut list = vec![
        0.0f32.to_bits(),
        (-0.0f32).to_bits(),
        1.0f32.to_bits(),
        f32::MAX.to_bits(),
        f32::MIN_POSITIVE.to_bits(),
        1,
        0x007f_ffff,
        f32::INFINITY.to_bits(),
        0.1f32.to_bits(),
        1e-20f32.to_bits(),
        3e-25f32.to_bits(),
        (-7.25f32).to_bits(),
    ];
    let mut state = 0x1234_5678_9abc_def1u64;
    for _ in 0..80 {
        list.push(next(&mut state) as u32);
    }
    list
}

fn same64(bits: u64, value: f64) -> bool {
    if value.is_nan() {
        f64::from_bits(bits).is_nan()
    } else {
        bits == value.to_bits()
    }
}

fn same32(bits: u64, value: f32) -> bool {
    if value.is_nan() {
        f32::from_bits(bits as u32).is_nan()
    } else {
        bits == value.to_bits() as u64
    }
}

#[test]
fn double_precision_agrees_with_the_processor() {
    let list = doubles();
    for &a in &list {
        let x = f64::from_bits(a);
        assert!(same64(square_root_of(DOUBLE, a), x.sqrt()));
        for &b in &list {
            let y = f64::from_bits(b);
            assert!(same64(sum_of(DOUBLE, a, b), x + y), "{x:e} + {y:e}");
            assert!(same64(difference_of(DOUBLE, a, b), x - y), "{x:e} - {y:e}");
            assert!(same64(product_of(DOUBLE, a, b), x * y), "{x:e} * {y:e}");
            assert!(same64(quotient_of(DOUBLE, a, b), x / y), "{x:e} / {y:e}");
            assert_eq!(double_lt(a, b), x < y);
        }
    }
}

#[test]
fn single_precision_agrees_with_the_processor() {
    let list = singles();
    for &a in &list {
        let x = f32::from_bits(a);
        let (wa, s) = (a as u64, SINGLE);
        assert!(same32(square_root_of(s, wa), x.sqrt()));
        for &b in &list {
            let y = f32::from_bits(b);
            let wb = b as u64;
            assert!(same32(sum_of(s, wa, wb), x + y), "{x:e} + {y:e}");
            assert!(same32(difference_of(s, wa, wb), x - y), "{x:e} - {y:e}");
            assert!(same32(product_of(s, wa, wb), x * y), "{x:e} * {y:e}");
            assert!(same32(quotient_of(s, wa, wb), x / y), "{x:e} / {y:e}");
            assert_eq!(single_lt(a, b), x < y);
        }
    }
}

#[test]
fn conversions_agree_with_the_processor() {
    for a in doubles() {
        let x = f64::from_bits(a);
        assert!(same32(shorten(a) as u64, x as f32), "{x:e}");
        let small = x * 1e-38;
        assert!(same32(shorten(small.to_bits()) as u64, small as f32), "{small:e}");
    }
    for a in singles() {
        let x = f32::from_bits(a);
        assert!(same64(widen(a), x as f64), "{x:e}");
        if !x.is_nan() {
            assert_eq!(shorten(widen(a)), a);
        }
    }
    for n in [0u64, 1, 2, 3, 20, 1000, 16777217, 16777219, u32::MAX as u64, u64::MAX, 1 << 53] {
        assert_eq!(integer_of(DOUBLE, n), (n as f64).to_bits());
        assert_eq!(integer_of(SINGLE, n), (n as f32).to_bits() as u64);
    }
}

#[test]
fn means_and_deviations_agree_with_the_processor() {
    let values: Vec<f64> = (0..50).map(|i| (i * i % 17) as f64 * 0.37 + 0.01).collect();
    let bits: Vec<u64> = values.iter().map(|v| v.to_bits()).collect();
    let mean = values.iter().fold(0.0, |a, b| a + b) / 50.0;
    let variance = values.iter().fold(0.0, |a, b| a + (b - mean) * (b - mean)) / 50.0;
    assert_eq!(mean_f64(&bits), mean.to_bits());
    assert_eq!(std_dev_f64(&bits), variance.sqrt().to_bits());
    assert_eq!(mean_f64(&vec![]), 0);
    assert_eq!(std_dev_f64(&vec![]), 0);

    let entropies = [7.5f32, 6.25, 7.9, 0.1, 5.5];
    let patterns: Vec<u64> = entropies.iter().map(|v| v.to_bits() as u64).collect();
    let expected = entropies.iter().fold(0.0, |a, b| a + b) / 5.0;
    assert_eq!(mean_f32(&patterns).bits, expected.to_bits());
}
