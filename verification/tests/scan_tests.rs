use peaks::peaks::{compute_area, find_peaks_over_threshold, GraphPeak, GraphPoint};

#[test]
fn single_spike_yields_one_peak() {
    // A spike with a confirmed right trough: the rise to 1 at the end
    // confirms that the descent after the summit is over.
    let data: Vec<i64> = vec![0, 0, 5, 0, 1];
    let peaks = find_peaks_over_threshold(&data, 2);
    assert_eq!(peaks.len(), 1);
    assert_eq!(peaks[0].left_trough.x, 1);
    assert_eq!(peaks[0].left_trough.y, 0);
    assert_eq!(peaks[0].peak.x, 2);
    assert_eq!(peaks[0].peak.y, 5);
    assert_eq!(peaks[0].right_trough.x, 3);
    assert_eq!(peaks[0].right_trough.y, 0);
    // Twice the trapezoidal area (5+0)/2 + (0+5)/2 = 5.
    assert_eq!(peaks[0].area2, 10);
}

#[test]
fn trailing_flat_descent_never_confirms() {
    // The last sample equals the provisional right trough, so the descent
    // never reverses and the candidate is discarded at end of input.
    let data: Vec<i64> = vec![0, 0, 5, 0, 0];
    let peaks = find_peaks_over_threshold(&data, 1);
    assert_eq!(peaks.len(), 0);
}

#[test]
fn sequence_ending_mid_reversal_discards_candidate() {
    let data: Vec<i64> = vec![0, 5, 0, 5];
    let peaks = find_peaks_over_threshold(&data, 1);
    assert_eq!(peaks.len(), 0);
}

#[test]
fn monotonic_data_below_threshold_yields_nothing() {
    let data: Vec<i64> = vec![5, 4, 3, 2, 1];
    assert_eq!(find_peaks_over_threshold(&data, 10).len(), 0);
}

#[test]
fn constant_data_below_threshold_yields_nothing() {
    let data: Vec<i64> = vec![3, 3, 3, 3];
    assert_eq!(find_peaks_over_threshold(&data, 5).len(), 0);
}

#[test]
fn empty_input_yields_nothing() {
    let data: Vec<i64> = Vec::new();
    assert_eq!(find_peaks_over_threshold(&data, 0).len(), 0);
}

#[test]
fn two_peaks_come_out_in_scan_order() {
    let data: Vec<i64> = vec![4, 1, 7, 0, 2, 1, 9, 2, 4];
    let peaks = find_peaks_over_threshold(&data, 5);
    assert_eq!(peaks.len(), 2);

    assert_eq!(peaks[0].left_trough.x, 1);
    assert_eq!(peaks[0].peak.x, 2);
    assert_eq!(peaks[0].right_trough.x, 3);
    assert_eq!(peaks[0].area2, 15);

    assert_eq!(peaks[1].left_trough.x, 5);
    assert_eq!(peaks[1].peak.x, 6);
    assert_eq!(peaks[1].right_trough.x, 7);
    assert_eq!(peaks[1].area2, 21);

    // Summits strictly increase, and nonnegative data gives nonnegative
    // areas.
    assert!(peaks[0].peak.x < peaks[1].peak.x);
    assert!(peaks[0].area2 >= 0 && peaks[1].area2 >= 0);
}

#[test]
fn negative_samples_give_signed_area() {
    let data: Vec<i64> = vec![-1, -5, 3, -4, -2];
    let peaks = find_peaks_over_threshold(&data, 0);
    assert_eq!(peaks.len(), 1);
    assert_eq!(peaks[0].left_trough.x, 1);
    assert_eq!(peaks[0].peak.x, 2);
    assert_eq!(peaks[0].right_trough.x, 3);
    // (3 + -5) + (-4 + 3) = -3: a signed area below zero.
    assert_eq!(peaks[0].area2, -3);
}

#[test]
fn compute_area_matches_trapezoid_sum() {
    let data: Vec<i64> = vec![0, 0, 5, 0, 0];
    let mut peak = GraphPeak::new();
    peak.left_trough.x = 1;
    peak.right_trough.x = 3;
    compute_area(&data, &mut peak);
    assert_eq!(peak.area2, 10);
    assert_eq!(peak.left_trough.x, 1);
    assert_eq!(peak.right_trough.x, 3);
}

#[test]
fn compute_area_of_inverted_interval_is_zero() {
    let data: Vec<i64> = vec![0, 0, 5, 0, 0];
    let mut peak = GraphPeak::new();
    peak.left_trough.x = 3;
    peak.right_trough.x = 1;
    peak.area2 = 77;
    compute_area(&data, &mut peak);
    assert_eq!(peak.area2, 0);
}

#[test]
fn point_new_copy_equals_clear() {
    let mut a = GraphPoint::new();
    assert_eq!(a.x, 0);
    assert_eq!(a.y, 0);
    let b = GraphPoint { x: 4, y: -2 };
    a.copy(b);
    assert_eq!(a.x, 4);
    assert_eq!(a.y, -2);
    assert!(a.equals(b));
    a.clear();
    assert!(!a.equals(b));
    assert_eq!(a.x, 0);
}

#[test]
fn peak_compare_by_area_and_equality_by_points() {
    let mut small = GraphPeak::new();
    small.area2 = 6;
    let mut big = GraphPeak::new();
    big.area2 = 9;
    assert!(small.less_than(big));
    assert!(!small.greater_than(big));
    assert!(big.greater_than(small));

    // Equality looks at the three points only, not the area.
    assert!(small.equals(big));

    let mut copied = GraphPeak::new();
    copied.copy(big);
    assert_eq!(copied.area2, 9);
    copied.clear();
    assert_eq!(copied.area2, 0);
    assert_eq!(copied.peak.x, 0);
}
