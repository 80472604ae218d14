use disty::double::Double;
use disty::stats::{check_samples, finite_samples, sort, Quantile, Stats};

fn d(x: f64) -> Double {
    Double::from_bits(x.to_bits())
}

fn f(x: Double) -> f64 {
    f64::from_bits(x.to_bits())
}

fn values(data: &[Double]) -> Vec<f64> {
    data.iter().map(|x| f(*x)).collect()
}

/// The sorted samples with the aggregates that are computed in rounded arithmetic.
struct Summary {
    stats: Stats,
    n: usize,
    sum: f64,
    mean: f64,
    geo_mean: f64,
    variance: f64,
    std_dev: f64,
}

fn summarize(data: Vec<f64>) -> Summary {
    let samples: Vec<Double> = data.iter().map(|x| d(*x)).collect();
    assert!(samples.iter().all(|x| x.is_finite()));
    let stats = Stats::new(samples);
    let sorted = values(&stats.data);
    let n = stats.n;
    let sum: f64 = sorted.iter().sum();
    let mean = sum / n as f64;
    let geo_mean = if stats.has_geometric_mean() {
        let log_sum: f64 = sorted.iter().map(|x| x.ln()).sum();
        (log_sum / n as f64).exp()
    } else {
        f64::NAN
    };
    let variance = sorted.iter().map(|x| (x - mean).powi(2)).sum::<f64>() / n as f64;
    let std_dev = variance.sqrt();
    Summary { stats, n, sum, mean, geo_mean, variance, std_dev }
}

/// Two to the power `-shift`, for shifts from 0 to 1074.
fn power_of_half(shift: u32) -> f64 {
    if shift <= 1022 {
        f64::from_bits(((1023 - shift) as u64) << 52)
    } else {
        f64::from_bits(1u64 << (1074 - shift))
    }
}

fn quantile_value(answer: Quantile) -> f64 {
    match answer {
        Quantile::Undefined => f64::NAN,
        Quantile::Exact(sample) => f(sample),
        Quantile::Between { below, above, numerator, shift, .. } => {
            let fraction = numerator as f64 * power_of_half(shift);
            f(below) * (1.0 - fraction) + f(above) * fraction
        }
    }
}

impl Summary {
    fn quantile(&self, q: f64) -> f64 {
        quantile_value(self.stats.quantile(d(q)))
    }
}

#[test]
fn test_stats_basic() {
    let data = vec![1.0, 2.0, 3.0, 4.0, 5.0];
    let stats = summarize(data);

    assert_eq!(stats.n, 5);
    assert_eq!(stats.stats.n, 5);
    assert_eq!(stats.sum, 15.0);
    assert_eq!(stats.mean, 3.0);
}

#[test]
fn test_stats_sorted() {
    let data = vec![5.0, 2.0, 4.0, 1.0, 3.0];
    let stats = summarize(data);

    assert_eq!(values(&stats.stats.data), vec![1.0, 2.0, 3.0, 4.0, 5.0]);
}

#[test]
fn test_stats_variance_and_stddev() {
    let data = vec![2.0, 4.0, 6.0, 8.0, 10.0];
    let stats = summarize(data);

    assert_eq!(stats.mean, 6.0);
    assert_eq!(stats.variance, 8.0);
    assert!((stats.std_dev - 8.0_f64.sqrt()).abs() < 1e-10);
}

#[test]
fn test_stats_geometric_mean() {
    let data = vec![1.0, 2.0, 4.0, 8.0];
    let stats = summarize(data);

    let expected_gmean = (1.0 * 2.0 * 4.0 * 8.0_f64).powf(0.25);
    assert!(stats.stats.has_geometric_mean());
    assert!((stats.geo_mean - expected_gmean).abs() < 1e-10);
}

#[test]
fn test_stats_geometric_mean_with_zero() {
    let data = vec![0.0, 1.0, 2.0, 3.0];
    let stats = summarize(data);

    assert!(!stats.stats.has_geometric_mean());
    assert!(stats.geo_mean.is_nan());
}

#[test]
fn test_stats_geometric_mean_with_negative() {
    let data = vec![-1.0, 1.0, 2.0, 3.0];
    let stats = summarize(data);

    assert!(!stats.stats.has_geometric_mean());
    assert!(stats.geo_mean.is_nan());
}

#[test]
fn test_quantile_min() {
    let data = vec![1.0, 2.0, 3.0, 4.0, 5.0];
    let stats = summarize(data);

    assert_eq!(stats.quantile(0.0), 1.0);
}

#[test]
fn test_quantile_max() {
    let data = vec![1.0, 2.0, 3.0, 4.0, 5.0];
    let stats = summarize(data);

    assert_eq!(stats.quantile(1.0), 5.0);
}

#[test]
fn test_quantile_median() {
    let data = vec![1.0, 2.0, 3.0, 4.0, 5.0];
    let stats = summarize(data);

    assert_eq!(stats.quantile(0.5), 3.0);
}

#[test]
fn test_quantile_interpolation() {
    let data = vec![1.0, 2.0, 3.0, 4.0, 5.0];
    let stats = summarize(data);

    let q25 = stats.quantile(0.25);
    assert!((q25 - 2.0).abs() < 1e-10);

    let q75 = stats.quantile(0.75);
    assert!((q75 - 4.0).abs() < 1e-10);
}

#[test]
fn test_quantile_even_number_of_values() {
    let data = vec![1.0, 2.0, 3.0, 4.0];
    let stats = summarize(data);

    let median = stats.quantile(0.5);
    assert_eq!(median, 2.5);
}

#[test]
fn test_quantile_empty_data() {
    let data = vec![];
    let stats = summarize(data);

    assert_eq!(stats.stats.quantile(d(0.5)), Quantile::Undefined);
    assert!(stats.quantile(0.5).is_nan());
}

#[test]
fn test_quantile_single_value() {
    let data = vec![42.0];
    let stats = summarize(data);

    assert_eq!(stats.quantile(0.0), 42.0);
    assert_eq!(stats.quantile(0.5), 42.0);
    assert_eq!(stats.quantile(1.0), 42.0);
}

#[test]
fn test_quantile_negative_q() {
    let data = vec![1.0, 2.0, 3.0, 4.0, 5.0];
    let stats = summarize(data);

    assert_eq!(stats.quantile(-0.5), 1.0);
}

#[test]
fn test_quantile_q_greater_than_one() {
    let data = vec![1.0, 2.0, 3.0, 4.0, 5.0];
    let stats = summarize(data);

    assert_eq!(stats.quantile(1.5), 5.0);
}

#[test]
fn test_stats_with_duplicates() {
    let data = vec![1.0, 2.0, 2.0, 2.0, 5.0];
    let stats = summarize(data);

    assert_eq!(stats.n, 5);
    assert_eq!(stats.sum, 12.0);
    assert_eq!(stats.mean, 2.4);
    assert_eq!(stats.quantile(0.5), 2.0);
}

#[test]
fn test_stats_all_same_values() {
    let data = vec![5.0, 5.0, 5.0, 5.0, 5.0];
    let stats = summarize(data);

    assert_eq!(stats.mean, 5.0);
    assert_eq!(stats.variance, 0.0);
    assert_eq!(stats.std_dev, 0.0);
    assert_eq!(stats.quantile(0.0), 5.0);
    assert_eq!(stats.quantile(0.5), 5.0);
    assert_eq!(stats.quantile(1.0), 5.0);
}

#[test]
fn test_stats_large_range() {
    let data = vec![1.0, 1000.0, 1000000.0];
    let stats = summarize(data);

    assert_eq!(stats.n, 3);
    assert_eq!(stats.sum, 1001001.0);
    assert!((stats.mean - 333667.0).abs() < 1.0);
}

#[test]
fn sorting_keeps_every_sample() {
    let data: Vec<f64> = vec![3.5, -1.0, 3.5, 0.0, -0.0, 1e-320, -7.25, 3.5, 1e300, -1e300, 2.0];
    let stats = summarize(data.clone());
    let mut expected = data.clone();
    expected.sort_by(|a, b| a.total_cmp(b));
    let got = values(&stats.stats.data);
    assert_eq!(got.len(), expected.len());
    for (a, b) in got.iter().zip(expected.iter()) {
        assert_eq!(a.to_bits(), b.to_bits());
    }
    assert_eq!(stats.stats.n, 11);
}

#[test]
fn sorting_many_samples() {
    let mut state: u64 = 12345;
    let mut data: Vec<f64> = Vec::new();
    for _ in 0..10_000 {
        state = state.wrapping_mul(6364136223846793005).wrapping_add(1442695040888963407);
        data.push(((state >> 11) as f64 / (1u64 << 53) as f64 - 0.5) * 1e6);
    }
    let stats = summarize(data.clone());
    let mut expected = data;
    expected.sort_by(|a, b| a.total_cmp(b));
    assert_eq!(values(&stats.stats.data), expected);
}

#[test]
fn quantile_at_the_ends_is_least_and_greatest() {
    let data = vec![7.0, -3.0, 12.5, 0.0, 4.0, -3.0];
    let stats = summarize(data);
    assert_eq!(stats.stats.quantile(d(0.0)), Quantile::Exact(d(-3.0)));
    assert_eq!(stats.stats.quantile(d(-0.0)), Quantile::Exact(d(-3.0)));
    assert_eq!(stats.stats.quantile(d(1.0)), Quantile::Exact(d(12.5)));
    assert_eq!(stats.stats.quantile(d(f64::NEG_INFINITY)), Quantile::Exact(d(-3.0)));
    assert_eq!(stats.stats.quantile(d(f64::INFINITY)), Quantile::Exact(d(12.5)));
}

#[test]
fn quantile_at_a_level_that_is_no_number_is_undefined() {
    let stats = summarize(vec![1.0, 2.0]);
    assert_eq!(stats.stats.quantile(d(f64::NAN)), Quantile::Undefined);
}

#[test]
fn quantile_between_two_samples() {
    let stats = summarize(vec![10.0, 20.0, 40.0]);
    // Rank 0.25 * 2 = 0.5: halfway between the first two samples.
    assert_eq!(
        stats.stats.quantile(d(0.25)),
        Quantile::Between { rank: 0, below: d(10.0), above: d(20.0), numerator: 1 << 53, shift: 54 }
    );
    assert_eq!(stats.quantile(0.25), 15.0);
    // Rank 0.75 * 2 = 1.5.
    assert_eq!(
        stats.stats.quantile(d(0.75)),
        Quantile::Between {
            rank: 1,
            below: d(20.0),
            above: d(40.0),
            numerator: 1 << 52,
            shift: 53
        }
    );
    assert_eq!(stats.quantile(0.75), 30.0);
    // Rank 0.5 * 2 = 1: a sample.
    assert_eq!(stats.stats.quantile(d(0.5)), Quantile::Exact(d(20.0)));
}

#[test]
fn quantile_at_a_tiny_level() {
    let stats = summarize(vec![1.0, 3.0]);
    let answer = stats.stats.quantile(d(5e-324));
    assert_eq!(
        answer,
        Quantile::Between { rank: 0, below: d(1.0), above: d(3.0), numerator: 1, shift: 1074 }
    );
    assert_eq!(quantile_value(answer), 1.0);
    let answer = stats.stats.quantile(d(1e-30));
    assert!(matches!(answer, Quantile::Between { rank: 0, .. }));
    assert!((quantile_value(answer) - 1.0).abs() < 1e-12);
}

#[test]
fn quantile_follows_the_rank() {
    let data: Vec<f64> = (0..101).map(|i| i as f64).collect();
    let stats = summarize(data);
    for (q, expected) in [(0.01, 1.0), (0.05, 5.0), (0.5, 50.0), (0.95, 95.0), (0.99, 99.0)] {
        assert!((stats.quantile(q) - expected).abs() < 1e-9, "level {}", q);
    }
}

#[test]
fn quantile_does_not_fall_when_the_level_rises() {
    let stats = summarize(vec![-4.0, -1.5, 0.0, 0.25, 3.0, 3.0, 10.0, 250.0]);
    let mut last = f64::NEG_INFINITY;
    for step in -10..=1010 {
        let q = step as f64 / 1000.0;
        let now = stats.quantile(q);
        assert!(now >= last, "level {}", q);
        last = now;
    }
}

#[test]
fn the_order_of_the_samples_does_not_matter() {
    let a = summarize(vec![3.0, 1.0, 2.0, 2.0, -5.0, 8.5]);
    let b = summarize(vec![2.0, 8.5, -5.0, 2.0, 1.0, 3.0]);
    assert_eq!(a.stats.n, b.stats.n);
    assert_eq!(a.stats.data, b.stats.data);
    assert_eq!(a.sum, b.sum);
    assert_eq!(a.mean, b.mean);
    assert_eq!(a.variance, b.variance);
    for step in 0..=20 {
        let q = d(step as f64 / 20.0);
        assert_eq!(a.stats.quantile(q), b.stats.quantile(q));
    }
}

#[test]
fn geometric_mean_needs_samples_above_zero() {
    assert!(summarize(vec![0.5, 3.0]).stats.has_geometric_mean());
    assert!(summarize(vec![1e-320]).stats.has_geometric_mean());
    assert!(!summarize(vec![0.5, 0.0]).stats.has_geometric_mean());
    assert!(!summarize(vec![0.5, -0.0]).stats.has_geometric_mean());
    assert!(!summarize(vec![-2.0, 3.0]).stats.has_geometric_mean());
    assert!(!summarize(vec![]).stats.has_geometric_mean());
}

#[test]
fn values_that_are_not_finite_are_no_samples() {
    let raw = vec![d(1.0), d(f64::NAN), d(f64::INFINITY), d(-2.0), d(f64::NEG_INFINITY), d(0.0)];
    assert_eq!(finite_samples(&raw), vec![d(1.0), d(-2.0), d(0.0)]);
    assert_eq!(finite_samples(&[]), Vec::<Double>::new());
}

#[test]
fn sort_and_its_check_agree() {
    let raw = vec![d(2.0), d(-1.0), d(2.0), d(0.0), d(-0.0)];
    assert!(!check_samples(&raw));
    let sorted = sort(&raw);
    assert_eq!(sorted, vec![d(-1.0), d(-0.0), d(0.0), d(2.0), d(2.0)]);
    assert!(check_samples(&sorted));
    assert!(check_samples(&[]));
    assert!(!check_samples(&[d(1.0), d(f64::NAN)]));
    assert!(!check_samples(&[d(f64::NEG_INFINITY), d(1.0)]));
}

#[test]
fn quantile_agrees_with_the_rounded_formula() {
    let mut state: u64 = 987654321;
    let mut next = move || {
        state = state.wrapping_mul(6364136223846793005).wrapping_add(1442695040888963407);
        (state >> 11) as f64 / (1u64 << 53) as f64
    };
    for n in [1usize, 2, 3, 10, 101, 1000] {
        let data: Vec<f64> = (0..n).map(|_| (next() - 0.3) * 1e4).collect();
        let stats = summarize(data);
        let sorted = values(&stats.stats.data);
        for _ in 0..200 {
            let q = next();
            let rank = q * (n - 1) as f64;
            let lower = rank.floor() as usize;
            let upper = rank.ceil() as usize;
            let fraction = rank - lower as f64;
            let rounded = sorted[lower] * (1.0 - fraction) + sorted[upper] * fraction;
            let exact = stats.quantile(q);
            assert!((exact - rounded).abs() <= 1e-9 * (1.0 + rounded.abs()), "n {} q {}", n, q);
        }
    }
}
