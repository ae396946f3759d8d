use peaks::peaks::{find_peaks_over_stddev, find_peaks_over_threshold};
use peaks::stats::{average, isqrt, standard_deviation, variance};

#[test]
fn average_of_known_population() {
    let data: Vec<i64> = vec![2, 4, 4, 4, 5, 5, 7, 9];
    assert_eq!(average(&data), 5);
}

#[test]
fn average_rounds_toward_zero() {
    // -7 / 2 rounds toward zero, to -3.
    let data: Vec<i64> = vec![-3, -4];
    assert_eq!(average(&data), -3);
}

#[test]
fn variance_and_stddev_of_known_population() {
    let data: Vec<i64> = vec![2, 4, 4, 4, 5, 5, 7, 9];
    let mean = average(&data);
    // Squared deviations sum to 32; the sample divisor is 7.
    assert_eq!(variance(&data, mean), 4);
    assert_eq!(standard_deviation(&data, mean), 2);
}

#[test]
fn variance_around_a_shifted_mean() {
    let data: Vec<i64> = vec![-3, -4];
    let mean = average(&data);
    assert_eq!(mean, -3);
    // Deviations 0 and -1 square-sum to 1; divisor 1.
    assert_eq!(variance(&data, mean), 1);
    assert_eq!(standard_deviation(&data, mean), 1);
}

#[test]
fn isqrt_exact_values() {
    assert_eq!(isqrt(0), 0);
    assert_eq!(isqrt(1), 1);
    assert_eq!(isqrt(2), 1);
    assert_eq!(isqrt(3), 1);
    assert_eq!(isqrt(4), 2);
    assert_eq!(isqrt(15), 3);
    assert_eq!(isqrt(16), 4);
    assert_eq!(isqrt(1_000_000), 1_000);
    assert_eq!(isqrt(i64::MAX), 3_037_000_499);
}

#[test]
fn stddev_scan_matches_explicit_threshold() {
    // mean 3, squared deviations 73, sample variance 73/8 = 9, stddev 3:
    // one sigma puts the threshold at 6.
    let data: Vec<i64> = vec![4, 1, 7, 0, 2, 1, 9, 2, 4];
    let mean = average(&data);
    assert_eq!(mean, 3);
    let sd = standard_deviation(&data, mean);
    assert_eq!(sd, 3);

    let via_stddev = find_peaks_over_stddev(&data, 1);
    let via_threshold = find_peaks_over_threshold(&data, mean + 1 * sd);
    assert_eq!(via_stddev, via_threshold);
    assert_eq!(via_stddev.len(), 2);
    assert_eq!(via_stddev[0].peak.x, 2);
    assert_eq!(via_stddev[1].peak.x, 6);
}

#[test]
fn negative_sigmas_lower_the_threshold() {
    let data: Vec<i64> = vec![4, 1, 7, 0, 2, 1, 9, 2, 4];
    let mean = average(&data);
    let sd = standard_deviation(&data, mean);

    let via_stddev = find_peaks_over_stddev(&data, -1);
    let via_threshold = find_peaks_over_threshold(&data, mean - 1 * sd);
    assert_eq!(via_stddev, via_threshold);
    // The threshold drops to 0: nothing ever dips below it, so no left
    // trough with a nonzero index is ever confirmed.
    assert_eq!(via_stddev.len(), 0);
}
