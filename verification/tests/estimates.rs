use hyperloglog::estimate::{estimate, rank_histogram};
use hyperloglog::{Estimate, HyperLogLog};

fn fresh(precision: u8) -> HyperLogLog {
    match HyperLogLog::new(precision) {
        Ok(hll) => hll,
        Err(e) => panic!("precision {} refused: {:?}", precision, e),
    }
}

/// The sum of `2^-r` over the registers, from their histogram.
fn harmonic_sum(histogram: &[usize]) -> f64 {
    histogram.iter().enumerate().map(|(k, &c)| c as f64 * 2f64.powi(-(k as i32))).sum()
}

/// The raw estimate `alpha(m) * m^2 / S`.
fn raw(registers: usize, histogram: &[usize]) -> f64 {
    let m = registers as f64;
    0.7213 / (1.0 + 1.079 / m) * m * m / harmonic_sum(histogram)
}

/// The number that an estimate stands for.
fn value(e: &Estimate) -> f64 {
    match e {
        Estimate::LinearCounting { registers, zeros } => {
            let m = *registers as f64;
            m * (m / *zeros as f64).ln()
        }
        Estimate::HarmonicMean { registers, histogram } => raw(*registers, histogram),
    }
}

fn count_of(precision: u8, items: impl Iterator<Item = String>) -> f64 {
    let mut hll = fresh(precision);
    for item in items {
        hll.add(&item);
    }
    value(&hll.count())
}

#[test]
fn empty_estimator_counts_zero() {
    for precision in 1u8..=16 {
        let hll = fresh(precision);
        let m = 1usize << precision;
        assert_eq!(hll.count(), Estimate::LinearCounting { registers: m, zeros: m });
        assert_eq!(value(&hll.count()), 0.0);
    }
}

#[test]
fn count_does_not_change_the_estimator() {
    let mut hll = fresh(8);
    for i in 0..100 {
        hll.add(&format!("w{}", i));
    }
    let registers = hll.registers().clone();
    let first = hll.count();
    let second = hll.count();
    assert_eq!(first, second);
    assert_eq!(hll.registers(), &registers);
}

#[test]
fn histogram_counts_registers_by_rank() {
    // precision 2: four registers, ranks up to 127.
    let regs: Vec<u8> = vec![0, 3, 3, 127];
    let hist = rank_histogram(&regs, 2);
    assert_eq!(hist.len(), 128);
    assert_eq!(hist[0], 1);
    assert_eq!(hist[3], 2);
    assert_eq!(hist[127], 1);
    assert_eq!(hist.iter().sum::<usize>(), 4);
}

#[test]
fn estimate_of_all_zero_registers_is_linear_counting() {
    let regs: Vec<u8> = vec![0; 16];
    assert_eq!(estimate(&regs, 4), Estimate::LinearCounting { registers: 16, zeros: 16 });
}

#[test]
fn estimate_in_small_range_with_zero_registers_is_linear_counting() {
    // Sixteen registers, six at zero: S = 6 + 10/2 = 11, raw = 0.6757 * 256 / 11 = 15.7 <= 40.
    let mut regs: Vec<u8> = vec![1; 16];
    for j in 0..6 {
        regs[j] = 0;
    }
    let e = estimate(&regs, 4);
    assert_eq!(e, Estimate::LinearCounting { registers: 16, zeros: 6 });
    let expected = 16.0 * (16.0f64 / 6.0).ln();
    assert!((value(&e) - expected).abs() < 1e-12);
    assert!((value(&e) - 15.693).abs() < 1e-3);
}

#[test]
fn estimate_in_small_range_without_zero_registers_is_raw() {
    // Sixteen registers at one: S = 8, raw = 0.6757 * 256 / 8 = 21.6 <= 40, but no register is empty.
    let regs: Vec<u8> = vec![1; 16];
    let e = estimate(&regs, 4);
    let mut histogram = vec![0usize; 126];
    histogram[1] = 16;
    assert_eq!(e, Estimate::HarmonicMean { registers: 16, histogram });
    let alpha = 0.7213 / (1.0 + 1.079 / 16.0);
    assert!((value(&e) - alpha * 256.0 / 8.0).abs() < 1e-9);
    assert!((value(&e) - 21.624).abs() < 1e-3);
}

#[test]
fn estimate_above_small_range_is_raw_even_with_zero_registers() {
    // One register at zero, fifteen at ten: S = 1 + 15/1024, raw = 0.6757 * 256 / 1.0146 = 170 > 40.
    let mut regs: Vec<u8> = vec![10; 16];
    regs[3] = 0;
    let e = estimate(&regs, 4);
    match &e {
        Estimate::HarmonicMean { registers, histogram } => {
            assert_eq!(*registers, 16);
            assert_eq!(histogram[0], 1);
            assert_eq!(histogram[10], 15);
        }
        other => panic!("expected the raw estimate, got {:?}", other),
    }
    assert!(value(&e) > 2.5 * 16.0);
    assert!((value(&e) - 170.49).abs() < 0.01);
}

#[test]
fn small_range_boundary_is_decided_exactly() {
    // Sixteen registers, S = 1 + 15 * 2^-r. The raw estimate is at most 40 exactly when
    // 7213 * 256 <= (25000 * 16 + 26975) * S, that is, when S >= 4.3245...:
    // r = 2 gives S = 4.75 (small range), r = 3 gives S = 2.875 (not).
    let mut regs: Vec<u8> = vec![2; 16];
    regs[0] = 0;
    assert_eq!(estimate(&regs, 4), Estimate::LinearCounting { registers: 16, zeros: 1 });
    let mut regs: Vec<u8> = vec![3; 16];
    regs[0] = 0;
    assert!(matches!(estimate(&regs, 4), Estimate::HarmonicMean { .. }));
}

#[test]
fn small_range_test_agrees_with_the_raw_estimate() {
    for precision in [1u8, 4, 7, 10] {
        let mut hll = fresh(precision);
        let m = hll.registers().len();
        for i in 0..(8 * m) {
            hll.add(&format!("probe:{}:{}", precision, i));
            let histogram = rank_histogram(hll.registers(), precision);
            let in_small_range = raw(m, &histogram) <= 2.5 * m as f64;
            let linear = matches!(hll.count(), Estimate::LinearCounting { .. });
            assert_eq!(linear, in_small_range && histogram[0] > 0);
        }
    }
}

#[test]
fn few_items_at_high_precision_use_linear_counting() {
    let mut hll = fresh(14);
    for i in 0..10 {
        hll.add(&format!("few_{}", i));
    }
    match hll.count() {
        Estimate::LinearCounting { registers, zeros } => {
            assert_eq!(registers, 16384);
            assert_eq!(zeros, 16384 - 10);
        }
        other => panic!("expected linear counting, got {:?}", other),
    }
    assert!((value(&hll.count()) - 10.0).abs() < 0.01);
}

#[test]
fn many_items_at_low_precision_use_the_raw_estimate() {
    let mut hll = fresh(4);
    for i in 0..5000 {
        hll.add(&format!("many_{}", i));
    }
    let e = hll.count();
    assert!(matches!(e, Estimate::HarmonicMean { .. }));
    assert!(value(&e) > 2.5 * 16.0);
}

#[test]
fn thousand_distinct_items_at_precision_ten() {
    for prefix in ["item_", "other_", "x", "element-", "7#"] {
        let estimate = count_of(10, (0..1000).map(|i| format!("{}{}", prefix, i)));
        assert!((estimate - 1000.0).abs() <= 50.0, "{}: {}", prefix, estimate);
    }
}

#[test]
fn twenty_distinct_items_fifty_times_each() {
    let mut hll = fresh(10);
    for _ in 0..50 {
        for i in 0..20 {
            hll.add(&format!("dup_{}", i));
        }
    }
    let e = hll.count();
    assert!(matches!(e, Estimate::LinearCounting { .. }));
    assert!((value(&e) - 20.0).abs() < 1.0, "{}", value(&e));
}

#[test]
fn estimate_stays_within_three_standard_errors() {
    for (precision, distinct) in [(8u8, 5000usize), (10, 20000), (12, 50000), (14, 100000)] {
        let bound = 3.0 * 1.04 / ((1usize << precision) as f64).sqrt();
        for trial in 0..3 {
            let estimate = count_of(precision, (0..distinct).map(|i| format!("t{}/{}", trial, i)));
            let error = (estimate - distinct as f64).abs() / distinct as f64;
            assert!(error <= bound, "p={} trial={} estimate={}", precision, trial, estimate);
        }
    }
}

#[test]
fn estimate_grows_with_distinct_items() {
    let mut hll = fresh(12);
    let mut last = 0.0;
    for step in 1..=20 {
        for i in 0..500 {
            hll.add(&format!("grow_{}_{}", step, i));
        }
        let now = value(&hll.count());
        assert!(now >= last);
        last = now;
    }
    assert!((last - 10000.0).abs() < 500.0);
}
