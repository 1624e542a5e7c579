use aivpn::analysis::compute_confidence;
use aivpn::fsm::build_fsm_from_sizes;
use aivpn::ks::ks_test;
use aivpn::mask::TransitionCondition;
use aivpn::modes::find_modes_histogram;
use aivpn::periods::find_periods;
use aivpn::single::Single;
use aivpn::stats::{mean_between, mean_u16, share_exceeds, share_of, std_dev_u16};

fn next(state: &mut u64) -> u64 {
    *state ^= *state << 13;
    *state ^= *state >> 7;
    *state ^= *state << 17;
    *state
}

fn value(x: Single) -> f32 {
    f32::from_bits(x.bits)
}

fn mean(data: &[u16]) -> f32 {
    data.iter().fold(0.0f32, |a, &x| a + x as f32) / data.len() as f32
}

fn deviation(data: &[u16]) -> f32 {
    let m = mean(data);
    let sum = data.iter().fold(0.0f32, |a, &x| a + (x as f32 - m) * (x as f32 - m));
    (sum / data.len() as f32).sqrt()
}

fn samples() -> Vec<Vec<u16>> {
    let mut state = 0x0123_4567_89ab_cdefu64;
    let mut list = vec![vec![5], vec![0, 65535], vec![1500; 70], vec![0; 3]];
    for n in [10usize, 60, 150, 400, 1000] {
        list.push((0..n).map(|_| (next(&mut state) % 1400) as u16 + 60).collect());
        list.push(
            (0..n)
                .map(|i| {
                    let centre = if (i / 37) % 2 == 0 { 120 } else { 1200 };
                    centre + (next(&mut state) % 40) as u16
                })
                .collect(),
        );
        list.push(
            (0..n)
                .map(|_| match next(&mut state) % 3 {
                    0 => 100,
                    1 => 600 + (next(&mut state) % 10) as u16,
                    _ => 1400,
                })
                .collect(),
        );
    }
    list
}

#[test]
fn means_and_deviations_of_sizes() {
    for sizes in samples() {
        assert_eq!(value(mean_u16(&sizes)), mean(&sizes));
        assert_eq!(value(std_dev_u16(&sizes)), deviation(&sizes));
    }
    assert_eq!(mean_u16(&[]).bits, 0);
    assert_eq!(std_dev_u16(&[]).bits, 0);
    assert_eq!(value(mean_between(&[1, 2, 3, 6], 1, 3)), 2.5);
}

#[test]
fn shares_are_single_precision_quotients() {
    for (c, n) in [(1u64, 3u64), (7, 10), (70, 100), (71, 100), (0, 9), (9, 9), (16777217, 33554433)] {
        assert_eq!(value(share_of(c, n)), c as f32 / n as f32);
    }
    assert!(!share_exceeds(7, 10, 7, 10));
    assert!(share_exceeds(71, 100, 7, 10));
    assert!(!share_exceeds(1, 2, 1, 2));
    assert!(share_exceeds(2, 3, 1, 2));
}

struct Peak {
    center: f32,
    std_dev: f32,
    weight: f32,
}

fn peaks(sizes: &[u16], num_bins: usize) -> Vec<Peak> {
    let min = *sizes.iter().min().unwrap();
    let max = *sizes.iter().max().unwrap();
    let width = ((max - min) as f32 / num_bins as f32).max(1.0);
    let mut bins = vec![0usize; num_bins];
    for &size in sizes {
        let bin = ((size as f32 - min as f32) / width).min(num_bins as f32 - 1.0) as usize;
        bins[bin] += 1;
    }
    let total = sizes.len() as f32;
    let mut found = Vec::new();
    for i in 1..num_bins.saturating_sub(1) {
        if bins[i] > bins[i - 1] && bins[i] > bins[i + 1] && bins[i] > total as usize / 20 {
            let center = min as f32 + (i as f32 + 0.5) * width;
            let mut sum = 0.0f32;
            let mut count = 0usize;
            for (j, &n) in bins.iter().enumerate() {
                if n > 0 {
                    let d = min as f32 + (j as f32 + 0.5) * width - center;
                    sum += n as f32 * (d * d);
                    count += n;
                }
            }
            found.push(Peak {
                center,
                std_dev: (sum / count as f32).sqrt(),
                weight: bins[i] as f32 / total,
            });
        }
    }
    if found.is_empty() {
        found.push(Peak { center: mean(sizes), std_dev: deviation(sizes), weight: 1.0 });
    }
    found
}

#[test]
fn modes_are_the_peaks_of_the_histogram() {
    for sizes in samples() {
        let modes = find_modes_histogram(&sizes, 32);
        let expected = peaks(&sizes, 32);
        assert_eq!(modes.len(), expected.len());
        for (mode, peak) in modes.iter().zip(&expected) {
            assert_eq!(value(mode.center), peak.center);
            assert_eq!(value(mode.std_dev), peak.std_dev);
            assert_eq!(value(mode.weight), peak.weight);
        }
    }
}

#[test]
fn no_sizes_have_a_default_mode() {
    let modes = find_modes_histogram(&[], 32);
    assert_eq!(modes.len(), 1);
    assert_eq!(value(modes[0].center), 64.0);
    assert_eq!(value(modes[0].std_dev), 32.0);
    assert_eq!(value(modes[0].weight), 1.0);
}

fn automaton(sizes: &[u16]) -> Vec<Vec<(u16, f32)>> {
    if sizes.len() < 50 {
        return vec![vec![]];
    }
    let limit = 2.0 * deviation(sizes);
    let mut changes: Vec<usize> = Vec::new();
    for i in 20..sizes.len() - 20 {
        let shift = (mean(&sizes[i - 20..i]) - mean(&sizes[i..i + 20])).abs();
        if shift > limit && (changes.is_empty() || i - changes[changes.len() - 1] > 10) {
            changes.push(i);
        }
    }
    let mut bounds = vec![0];
    bounds.extend(&changes);
    bounds.push(sizes.len());
    let means: Vec<f32> = bounds.windows(2).map(|w| mean(&sizes[w[0]..w[1]])).collect();
    let mut groups: Vec<Vec<usize>> = Vec::new();
    for (i, &m) in means.iter().enumerate() {
        let near = groups.iter().position(|g| {
            let centre = g.iter().fold(0.0f32, |a, &j| a + means[j]) / g.len() as f32;
            (m - centre).abs() < 100.0
        });
        match near {
            Some(k) => groups[k].push(i),
            None => groups.push(vec![i]),
        }
    }
    groups.truncate(8);
    let state = |i: usize| groups.iter().position(|g| g.contains(&i)).unwrap_or(0);
    let mut counts: Vec<Vec<(u16, u32)>> = vec![vec![]; groups.len()];
    for i in 0..means.len() - 1 {
        let (from, to) = (state(i), state(i + 1) as u16);
        match counts[from].iter().position(|e| e.0 == to) {
            Some(k) => counts[from][k].1 += 1,
            None => counts[from].push((to, 1)),
        }
    }
    counts
        .iter()
        .map(|list| {
            let total: u32 = list.iter().map(|e| e.1).sum();
            list.iter().map(|e| (e.0, e.1 as f32 / total as f32)).collect()
        })
        .collect()
}

#[test]
fn transitions_are_probabilities() {
    for sizes in samples() {
        for state in build_fsm_from_sizes(&sizes).0 {
            let mut targets = Vec::new();
            let mut sum = 0.0;
            for transition in &state.transitions {
                assert!(!targets.contains(&transition.next_state));
                targets.push(transition.next_state);
                match transition.condition {
                    TransitionCondition::Random(p) => {
                        let p = f32::from_bits(p);
                        assert!(p > 0.0 && p <= 1.0);
                        sum += p as f64;
                    }
                    _ => panic!("a transition without a probability"),
                }
            }
            assert!(targets.is_empty() || (sum - 1.0).abs() < 1e-6);
        }
    }
}

#[test]
fn automata_follow_the_phases_of_the_sizes() {
    let mut most = 0;
    let mut long = samples();
    let mut state = 77u64;
    let mut phases = Vec::new();
    for round in 0..24u64 {
        let centre = [100u16, 1400, 600, 100, 1000, 300][(round % 6) as usize];
        for _ in 0..60 {
            phases.push(centre + (next(&mut state) % 8) as u16);
        }
    }
    long.push(phases);
    let mut spikes = Vec::new();
    for round in 0..30u64 {
        for _ in 0..200 {
            spikes.push(100 + (next(&mut state) % 4) as u16);
        }
        for _ in 0..20 {
            spikes.push(1200 + (round % 3) as u16 * 120);
        }
    }
    long.push(spikes);
    for sizes in long {
        let (states, initial) = build_fsm_from_sizes(&sizes);
        let expected = automaton(&sizes);
        assert_eq!(initial, 0);
        assert_eq!(states.len(), expected.len());
        most = most.max(states.len());
        for (k, state) in states.iter().enumerate() {
            assert_eq!(state.state_id as usize, k);
            assert_eq!(state.transitions.len(), expected[k].len());
            for (t, e) in state.transitions.iter().zip(&expected[k]) {
                assert_eq!(t.next_state, e.0);
                assert_eq!(t.condition, TransitionCondition::Random(e.1.to_bits()));
                assert!((t.next_state as usize) < states.len());
            }
        }
    }
    assert!(most > 1);
}

#[test]
fn short_or_constant_recordings_have_one_state() {
    let (states, initial) = build_fsm_from_sizes(&[100; 49]);
    assert_eq!(states.len(), 1);
    assert!(states[0].transitions.is_empty());
    assert_eq!(initial, 0);
    let (states, _) = build_fsm_from_sizes(&[777; 300]);
    assert_eq!(states.len(), 1);
    assert!(states[0].transitions.is_empty());
}

fn bits(values: &[f64]) -> Vec<u64> {
    values.iter().map(|v| v.to_bits()).collect()
}

fn statistic(a: &[f64], b: &[f64]) -> f32 {
    let mut best = 0.0f64;
    for &p in a.iter().chain(b) {
        let fa = a.iter().filter(|&&x| x <= p).count() as f64 / a.len() as f64;
        let fb = b.iter().filter(|&&x| x <= p).count() as f64 / b.len() as f64;
        best = best.max((fa - fb).abs());
    }
    best as f32
}

#[test]
fn statistic_is_the_largest_distance_of_the_distributions() {
    let mut state = 99u64;
    for (n, m) in [(1usize, 1usize), (7, 3), (40, 60), (200, 150)] {
        for spread in [3u64, 50, 100000] {
            let a: Vec<f64> = (0..n).map(|_| (next(&mut state) % spread) as f64 * 0.5).collect();
            let b: Vec<f64> =
                (0..m).map(|_| (next(&mut state) % spread) as f64 * 0.5 - 1.0).collect();
            assert_eq!(value(ks_test(&bits(&a), &bits(&b))), statistic(&a, &b));
            assert_eq!(ks_test(&bits(&a), &bits(&b)), ks_test(&bits(&b), &bits(&a)));
            assert_eq!(ks_test(&bits(&a), &bits(&a)).bits, 0);
        }
    }
}

#[test]
fn statistic_of_small_samples() {
    assert_eq!(value(ks_test(&bits(&[1.0, 2.0]), &bits(&[3.0, 4.0]))), 1.0);
    assert_eq!(value(ks_test(&bits(&[1.0, 3.0]), &bits(&[2.0, 4.0]))), 0.5);
    assert_eq!(value(ks_test(&bits(&[5.0]), &bits(&[5.0]))), 0.0);
    assert_eq!(value(ks_test(&bits(&[-0.0]), &bits(&[0.0]))), 0.0);
    assert_eq!(value(ks_test(&vec![], &bits(&[5.0]))), 1.0);
    assert_eq!(value(ks_test(&bits(&[5.0]), &vec![])), 1.0);
}

fn mean64(data: &[f64]) -> f64 {
    data.iter().fold(0.0, |a, b| a + b) / data.len() as f64
}

fn deviation64(data: &[f64]) -> f64 {
    let m = mean64(data);
    (data.iter().fold(0.0, |a, x| a + (x - m) * (x - m)) / data.len() as f64).sqrt()
}

#[test]
fn few_or_vanishing_times_have_no_period() {
    assert!(find_periods(&bits(&[20.0; 9])).is_empty());
    assert!(find_periods(&bits(&[0.0; 20])).is_empty());
    assert!(find_periods(&bits(&[-5.0; 20])).is_empty());
}

#[test]
fn steady_times_have_one_period() {
    let times: Vec<f64> = (0..40).map(|i| 20.0 + (i % 5) as f64 * 0.3).collect();
    let periods = find_periods(&bits(&times));
    assert_eq!(periods.len(), 1);
    assert_eq!(value(periods[0].period_ms), mean64(&times) as f32);
    assert_eq!(value(periods[0].jitter_ms), deviation64(&times) as f32);
    assert_eq!(value(periods[0].weight), 1.0);
}

#[test]
fn uneven_times_are_split_at_the_median() {
    let mut state = 5u64;
    let times: Vec<f64> = (0..61)
        .map(|_| if next(&mut state) % 3 == 0 { 400.0 } else { (next(&mut state) % 20) as f64 })
        .collect();
    let mut sorted = times.clone();
    sorted.sort_by(|a, b| a.partial_cmp(b).unwrap());
    let median = sorted[sorted.len() / 2];
    let low: Vec<f64> = times.iter().copied().filter(|&x| x <= median).collect();
    let high: Vec<f64> = times.iter().copied().filter(|&x| x > median).collect();
    let periods = find_periods(&bits(&times));
    assert_eq!(periods.len(), 2);
    assert_eq!(value(periods[0].period_ms), mean64(&low) as f32);
    assert_eq!(value(periods[0].jitter_ms), deviation64(&low) as f32);
    assert_eq!(value(periods[0].weight), low.len() as f32 / 61.0);
    assert_eq!(value(periods[1].period_ms), mean64(&high) as f32);
    assert_eq!(value(periods[1].jitter_ms), deviation64(&high) as f32);
    assert_eq!(value(periods[1].weight), high.len() as f32 / 61.0);

    let mut mostly = vec![1.0; 30];
    mostly[0] = 0.01;
    mostly[1] = 0.001;
    let spread: Vec<f64> = mostly.iter().map(|x| if *x < 1.0 { *x - 9.0 } else { *x }).collect();
    assert_eq!(find_periods(&bits(&spread)).len(), 1);
}

#[test]
fn confidence_adds_up_its_parts() {
    let entropy = |x: f32| Single { bits: x.to_bits() };
    assert_eq!(value(compute_confidence(10_000, 2, entropy(7.5))), 0.3f32 + 0.3 + 0.2);
    assert_eq!(value(compute_confidence(5_000, 1, entropy(6.5))), 0.25f32 + 0.2 + 0.15);
    assert_eq!(value(compute_confidence(1_000, 0, entropy(6.0))), 0.2f32);
    assert_eq!(value(compute_confidence(500, 1, entropy(7.0))), 0.15f32 + 0.2 + 0.15);
    assert_eq!(value(compute_confidence(499, 0, entropy(f32::NAN))), 0.0);
}

#[test]
fn the_statistic_lies_between_zero_and_one() {
    let mut state = 5u64;
    for round in 1..40u64 {
        let mut draw = |n: u64| -> Vec<f64> {
            (0..n).map(|_| (next(&mut state) % (3 * round)) as f64 - 7.0).collect()
        };
        let (a, b) = (draw(round), draw(2 * round));
        let d = value(ks_test(&bits(&a), &bits(&b)));
        assert!((0.0..=1.0).contains(&d));
        let mut turned = a.clone();
        turned.reverse();
        assert_eq!(value(ks_test(&bits(&turned), &bits(&b))), d);
        assert_eq!(value(ks_test(&bits(&b), &bits(&a))), d);
        let high: Vec<f64> = b.iter().map(|x| x + 1000.0).collect();
        assert_eq!(value(ks_test(&bits(&a), &bits(&high))), 1.0);
        assert_eq!(value(ks_test(&bits(&high), &bits(&a))), 1.0);
    }
}

#[test]
fn samples_that_are_not_sorted_may_hold_anything() {
    let nan = vec![f64::NAN.to_bits()];
    assert_eq!(value(ks_test(&nan, &vec![])), 1.0);
    assert_eq!(value(ks_test(&vec![], &nan)), 1.0);
    assert!(find_periods(&vec![f64::NAN.to_bits(); 9]).is_empty());
}

#[test]
fn any_number_of_bins_is_accepted() {
    assert_eq!(find_modes_histogram(&[], 0).len(), 1);
    let modes = find_modes_histogram(&[100, 100, 100, 102], 0x100_0001);
    assert_eq!(modes.len(), 1);
    assert_eq!(value(modes[0].center), 102.5);
    assert_eq!(value(modes[0].weight), 0.25);
    let one = find_modes_histogram(&[100, 1000], 32);
    assert_eq!((value(one[0].center), value(one[0].std_dev)), (550.0, 450.0));
}

#[test]
fn modes_are_in_order() {
    for sizes in samples() {
        for num_bins in [1, 2, 3, 32, 1000, 70_000] {
            let modes = find_modes_histogram(&sizes, num_bins);
            assert!(!modes.is_empty());
            for pair in modes.windows(2) {
                assert!(value(pair[0].center) < value(pair[1].center));
            }
            let mut weights = 0.0;
            for mode in &modes {
                assert!(value(mode.std_dev) >= 0.0);
                assert!(value(mode.weight) > 0.0 && value(mode.weight) <= 1.0);
                weights += value(mode.weight) as f64;
            }
            assert!(weights <= 1.0 + 1e-6);
        }
    }
}

#[test]
fn confidence_grows_up_to_four_fifths() {
    let entropy = |x: f32| Single { bits: x.to_bits() };
    let mut before = 0.0;
    for (packets, modes, bits_per_byte) in
        [(0, 0, 0.0), (500, 0, 6.0), (500, 1, 6.0), (1_000, 1, 6.5), (5_000, 2, 7.0), (20_000, 9, 8.0)]
    {
        let c = value(compute_confidence(packets, modes, entropy(bits_per_byte)));
        assert!(before <= c && c <= 0.8);
        assert_eq!(c == 0.0, packets < 500);
        before = c;
    }
    assert_eq!(before, 0.8);
}
