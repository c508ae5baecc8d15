// Statistics and density checks on concrete fixed-point values.
// Values are scaled by SCALE (10_000) for features and PROB_ONE (1e9)
// for probabilities.

use iris_bayes::gauss::{expneg, prob_of};
use iris_bayes::stats::{dot, isqrt, mean, stdev};
use iris_bayes::{PROB_ONE, SCALE};

#[test]
fn mean_exact_small() {
    assert_eq!(mean(&vec![10, 20, 30]), 20);
}

#[test]
fn mean_rounds_down() {
    assert_eq!(mean(&vec![10, 11]), 10);
}

#[test]
fn mean_of_repeated_value_is_the_value() {
    assert_eq!(mean(&vec![7000, 7000, 7000, 7000, 7000]), 7000);
    assert_eq!(mean(&vec![123_456]), 123_456);
}

#[test]
fn stdev_of_repeated_value_is_zero() {
    assert_eq!(stdev(&vec![7000, 7000, 7000, 7000, 7000]), 0);
    assert_eq!(stdev(&vec![5, 5]), 0);
}

#[test]
fn stdev_exact_small() {
    // dot/n = (100 + 400 + 900) / 3 = 466; mean^2 = 400; isqrt(66) = 8.
    assert_eq!(stdev(&vec![10, 20, 30]), 8);
}

#[test]
fn stdev_never_underflows_on_skewed_data() {
    // The single-pass formula dot/n - mean^2 stays nonnegative even when
    // truncation pushes both terms down.
    let data = vec![1, 1, 1, 1, 2];
    let s = stdev(&data);
    assert!(s <= 1);
    let data2 = vec![99_999_999_999, 1, 99_999_999_999, 3, 7];
    let _ = stdev(&data2);
}

#[test]
fn dot_exact() {
    assert_eq!(dot(&vec![2, 3], &vec![4, 5]), 23);
}

#[test]
fn isqrt_exact() {
    assert_eq!(isqrt(0), 0);
    assert_eq!(isqrt(15), 3);
    assert_eq!(isqrt(16), 4);
    assert_eq!(isqrt(10_000_000_000_000_000_000_000), 100_000_000_000);
}

#[test]
fn expneg_at_zero_is_one() {
    assert_eq!(expneg(0), PROB_ONE);
}

#[test]
fn expneg_at_one_is_inv_e() {
    // exp(-1) = 0.367879441...
    assert_eq!(expneg(SCALE), 367_879_441);
}

#[test]
fn density_at_the_mean_is_inv_sqrt_tau() {
    // With stdev 1.0 the density at the mean is 1/sqrt(2*pi) = 0.398942280...
    assert_eq!(prob_of(50_000, 50_000, 10_000), 398_942_280);
}

#[test]
fn density_is_symmetric_around_the_mean() {
    let lo = prob_of(40_000, 50_000, 10_000);
    let hi = prob_of(60_000, 50_000, 10_000);
    assert_eq!(lo, hi);
    assert!(lo > 0);
    assert!(lo < 398_942_280);
}

#[test]
fn density_underflows_far_from_the_mean() {
    // Twenty standard deviations out, the density is zero at PROB_ONE
    // resolution.
    assert_eq!(prob_of(0, 200_000, 10_000), 0);
}

#[test]
fn density_integrates_to_one() {
    // Numeric integration of the density over mean +/- 10 stdev, step
    // 0.01: the result approximates 1 to within one percent.
    let mean_v: u64 = 500_000; // 50.0
    let stdev_v: u64 = 10_000; // 1.0
    let step: u64 = 100; // 0.01
    let mut x: u64 = 400_000;
    let mut total: u128 = 0;
    while x <= 600_000 {
        total += prob_of(x, mean_v, stdev_v) as u128;
        x += step;
    }
    // total * (step / SCALE) should be PROB_ONE; i.e. total should be
    // PROB_ONE * SCALE / step = 1e11.
    let expected: u128 = (PROB_ONE as u128) * (SCALE as u128) / (step as u128);
    let diff = if total > expected { total - expected } else { expected - total };
    assert!(
        diff * 100 <= expected,
        "integral {} differs from {} by more than 1%",
        total,
        expected
    );
}

#[test]
fn density_peaks_at_the_smallest_stdev() {
    // With the smallest admissible stdev (0.0001) the density at the mean
    // is 1/(0.0001 * sqrt(2*pi)), the largest value prob_of can return.
    assert_eq!(prob_of(42, 42, 1), 3_989_422_800_000);
}

#[test]
fn expneg_decreases() {
    let a = expneg(0);
    let b = expneg(5_000);
    let c = expneg(10_000);
    let d = expneg(30_000);
    assert!(a > b && b > c && c > d);
    // exp(-3) = 0.0497870...
    assert!(d > 49_000_000 && d < 50_000_000);
}
