//! The peak-scanning state machine and its supporting types.

use vstd::prelude::*;

verus! {

use crate::{sample_in_range, samples_ok, MAX_SAMPLE, MAX_SAMPLES};

/// One sample position and its value.
#[derive(Clone, Copy, PartialEq, Eq, Structural, Debug)]
pub struct GraphPoint {
    pub x: usize,
    pub y: i64,
}

impl GraphPoint {
    pub fn new() -> (r: GraphPoint)
        ensures
            r.x == 0,
            r.y == 0,
    {
        GraphPoint { x: 0, y: 0 }
    }

    pub fn copy(&mut self, rhs: GraphPoint)
        ensures
            *final(self) == rhs,
    {
        self.x = rhs.x;
        self.y = rhs.y;
    }

    pub fn equals(&mut self, rhs: GraphPoint) -> (r: bool)
        ensures
            *final(self) == *old(self),
            r == (old(self).x == rhs.x && old(self).y == rhs.y),
    {
        self.x == rhs.x && self.y == rhs.y
    }

    pub fn clear(&mut self)
        ensures
            final(self).x == 0,
            final(self).y == 0,
    {
        self.x = 0;
        self.y = 0;
    }
}

/// One detected peak: a summit bounded by two troughs, with the enclosed
/// area.
///
/// While a peak is under construction an index of `0` marks a point as not
/// yet set. A trough or summit that legitimately falls on the very first
/// sample is therefore indistinguishable from an unset point, and the scan
/// treats it as unset; the candidate is re-seeded from a later sample.
///
/// `area2` holds twice the trapezoidal integral of the samples between the
/// troughs. Doubling keeps the value an exact integer: each trapezoid
/// contributes `(data[i] + data[i - 1]) / 2`, which need not be whole.
#[derive(Clone, Copy, PartialEq, Eq, Structural, Debug)]
pub struct GraphPeak {
    pub left_trough: GraphPoint,
    pub peak: GraphPoint,
    pub right_trough: GraphPoint,
    pub area2: i64,
}

/// The all-zero working peak: no point set, no area.
pub open spec fn empty_peak() -> GraphPeak {
    GraphPeak {
        left_trough: GraphPoint { x: 0, y: 0 },
        peak: GraphPoint { x: 0, y: 0 },
        right_trough: GraphPoint { x: 0, y: 0 },
        area2: 0,
    }
}

/// Twice the trapezoidal integral of `data` over the closed index interval
/// `[l, r]`: the sum of `data[i] + data[i - 1]` for `i` in `(l, r]`.
pub open spec fn area_twice(data: Seq<i64>, l: int, r: int) -> int
    decreases r - l when r >= l
{
    if r <= l {
        0
    } else {
        area_twice(data, l, r - 1) + data[r] + data[r - 1]
    }
}

/// Twice the area a finished peak encloses: zero for a degenerate or
/// inverted trough interval.
pub open spec fn peak_area_twice(data: Seq<i64>, p: GraphPeak) -> int {
    if p.left_trough.x < p.right_trough.x {
        area_twice(data, p.left_trough.x as int, p.right_trough.x as int)
    } else {
        0
    }
}

impl GraphPeak {
    pub fn new() -> (r: GraphPeak)
        ensures
            r == empty_peak(),
    {
        GraphPeak {
            left_trough: GraphPoint::new(),
            peak: GraphPoint::new(),
            right_trough: GraphPoint::new(),
            area2: 0,
        }
    }

    pub fn copy(&mut self, rhs: GraphPeak)
        ensures
            *final(self) == rhs,
    {
        self.left_trough = rhs.left_trough;
        self.peak = rhs.peak;
        self.right_trough = rhs.right_trough;
        self.area2 = rhs.area2;
    }

    /// Structural equality of the three points; the area is not compared.
    pub fn equals(&mut self, rhs: GraphPeak) -> (r: bool)
        ensures
            *final(self) == *old(self),
            r == (old(self).left_trough == rhs.left_trough
                && old(self).peak == rhs.peak
                && old(self).right_trough == rhs.right_trough),
    {
        self.left_trough.equals(rhs.left_trough)
            && self.peak.equals(rhs.peak)
            && self.right_trough.equals(rhs.right_trough)
    }

    /// Ordering between finished peaks goes by the enclosed area alone.
    pub fn less_than(&mut self, rhs: GraphPeak) -> (r: bool)
        ensures
            *final(self) == *old(self),
            r == (old(self).area2 < rhs.area2),
    {
        self.area2 < rhs.area2
    }

    /// Ordering between finished peaks goes by the enclosed area alone.
    pub fn greater_than(&mut self, rhs: GraphPeak) -> (r: bool)
        ensures
            *final(self) == *old(self),
            r == (old(self).area2 > rhs.area2),
    {
        self.area2 > rhs.area2
    }

    pub fn clear(&mut self)
        ensures
            *final(self) == empty_peak(),
    {
        self.left_trough.clear();
        self.peak.clear();
        self.right_trough.clear();
        self.area2 = 0;
    }
}

proof fn lemma_area_twice_bound(data: Seq<i64>, l: int, r: int)
    requires
        samples_ok(data),
        0 <= l <= r,
        r < data.len(),
    ensures
        -((r - l) * (2 * MAX_SAMPLE)) <= area_twice(data, l, r),
        area_twice(data, l, r) <= (r - l) * (2 * MAX_SAMPLE),
    decreases r - l,
{
    if r > l {
        lemma_area_twice_bound(data, l, r - 1);
        assert(sample_in_range(data[r]));
        assert(sample_in_range(data[r - 1]));
        assert((r - 1 - l) * (2 * MAX_SAMPLE) + 2 * MAX_SAMPLE
            == (r - l) * (2 * MAX_SAMPLE)) by (nonlinear_arith);
    }
}

/// Writes into `current_peak.area2` twice the trapezoidal integral of
/// `data` between the peak's troughs; an inverted or empty interval gives
/// zero. The three points are left untouched.
pub fn compute_area(data: &Vec<i64>, current_peak: &mut GraphPeak)
    requires
        samples_ok(data@),
        old(current_peak).left_trough.x < old(current_peak).right_trough.x
            ==> old(current_peak).right_trough.x < data@.len(),
    ensures
        final(current_peak).left_trough == old(current_peak).left_trough,
        final(current_peak).peak == old(current_peak).peak,
        final(current_peak).right_trough == old(current_peak).right_trough,
        final(current_peak).area2 == peak_area_twice(data@, *old(current_peak)),
{
    current_peak.area2 = 0;

    if current_peak.left_trough.x < current_peak.right_trough.x {
        let l = current_peak.left_trough.x;
        let r = current_peak.right_trough.x;
        let mut acc: i64 = 0;
        let mut index = l + 1;
        while index <= r
            invariant
                samples_ok(data@),
                l < r < data@.len(),
                l + 1 <= index <= r + 1,
                acc == area_twice(data@, l as int, index - 1),
                -((index - 1 - l) * (2 * MAX_SAMPLE)) <= acc,
                acc <= (index - 1 - l) * (2 * MAX_SAMPLE),
            decreases r + 1 - index,
        {
            proof {
                assert(sample_in_range(data@[index as int]));
                assert(sample_in_range(data@[index - 1]));
                assert((index - 1 - l) * (2 * MAX_SAMPLE) + 2 * MAX_SAMPLE
                    == (index - l) * (2 * MAX_SAMPLE)) by (nonlinear_arith);
                assert((index - l) * (2 * MAX_SAMPLE)
                    <= (MAX_SAMPLES as int) * (2 * MAX_SAMPLE)) by (nonlinear_arith)
                    requires 0 <= index - l <= MAX_SAMPLES as int, MAX_SAMPLE > 0;
            }
            let b = data[index] + data[index - 1];
            acc = acc + b;
            index = index + 1;
        }
        current_peak.area2 = acc;
    }
}

/// One transition of the scan: how the working peak and the finished
/// peaks change when the sample `data[x]` is read against `threshold`.
///
/// The working peak passes through four latent states, told apart by
/// which of its points carry a nonzero index: nothing set, left trough
/// set, summit set, and a provisional right trough set. A sample below
/// the threshold extends a descent, confirms a finished peak the moment
/// the values rise again, or (re)seeds the left trough; a sample at or
/// above the threshold claims or raises the summit.
pub open spec fn scan_step(
    st: (GraphPeak, Seq<GraphPeak>),
    data: Seq<i64>,
    threshold: int,
    x: usize,
) -> (GraphPeak, Seq<GraphPeak>) {
    let cur = st.0;
    let out = st.1;
    let y = data[x as int];
    if (y as int) < threshold {
        if cur.right_trough.x > 0 {
            if y <= cur.right_trough.y {
                // Still descending: the provisional right trough moves on.
                (GraphPeak { right_trough: GraphPoint { x, y }, ..cur }, out)
            } else {
                // Rising again: the descent is confirmed over, the peak is
                // finished.
                (
                    empty_peak(),
                    out.push(GraphPeak { area2: peak_area_twice(data, cur) as i64, ..cur }),
                )
            }
        } else if cur.left_trough.x == 0 {
            (GraphPeak { left_trough: GraphPoint { x, y }, ..cur }, out)
        } else if cur.peak.x > cur.left_trough.x && cur.left_trough.x > 0 {
            // A summit already stands right of the left trough: take this
            // sample as the provisional right trough.
            (GraphPeak { right_trough: GraphPoint { x, y }, ..cur }, out)
        } else {
            // A new lower floor replaces the old left-trough candidate.
            (GraphPeak { left_trough: GraphPoint { x, y }, ..cur }, out)
        }
    } else if cur.left_trough.x > 0 {
        if cur.peak.x == 0 || (y as int) >= cur.peak.y as int {
            // This sample becomes (or replaces) the summit; a tentative
            // right trough is withdrawn.
            (
                GraphPeak {
                    peak: GraphPoint { x, y },
                    right_trough: GraphPoint { x: 0, y: 0 },
                    ..cur
                },
                out,
            )
        } else {
            (cur, out)
        }
    } else if cur.right_trough.x > 0 {
        // Crossing back above the threshold confirms that the descent
        // ended.
        (empty_peak(), out.push(GraphPeak { area2: peak_area_twice(data, cur) as i64, ..cur }))
    } else {
        // Above the threshold with nothing set: seed the left trough so a
        // sequence that starts high can still open a candidate.
        (GraphPeak { left_trough: GraphPoint { x, y }, ..cur }, out)
    }
}

/// The scan state after the first `n` samples of `data` have been read.
pub open spec fn scan_upto(data: Seq<i64>, threshold: int, n: int) -> (GraphPeak, Seq<GraphPeak>)
    decreases n,
{
    if n <= 0 {
        (empty_peak(), Seq::empty())
    } else {
        scan_step(scan_upto(data, threshold, n - 1), data, threshold, (n - 1) as usize)
    }
}

/// The finished peaks of a whole scan, in the order their right troughs
/// were confirmed. A candidate still open when the input ends is
/// discarded.
pub open spec fn find_peaks_spec(data: Seq<i64>, threshold: int) -> Seq<GraphPeak> {
    scan_upto(data, threshold, data.len() as int).1
}

/// Shape of the working peak after `n` samples: every set point lies left
/// of `n`, and the points that are set stand in scan order. An index of
/// `0` marks an unset point.
pub open spec fn working_peak_wf(cur: GraphPeak, n: int) -> bool {
    &&& cur.left_trough.x == 0 || cur.left_trough.x < n
    &&& cur.peak.x == 0 || (0 < cur.left_trough.x < cur.peak.x && cur.peak.x < n)
    &&& cur.right_trough.x == 0
        || (0 < cur.peak.x < cur.right_trough.x && cur.right_trough.x < n)
}

/// Shape of a finished peak emitted within the first `n` samples: trough,
/// summit and trough in strict scan order, and the recorded area equal to
/// the trapezoidal integral between the troughs.
pub open spec fn finished_peak_wf(data: Seq<i64>, p: GraphPeak, n: int) -> bool {
    &&& 0 < p.left_trough.x < p.peak.x < p.right_trough.x < n
    &&& p.area2 == area_twice(data, p.left_trough.x as int, p.right_trough.x as int)
}

/// Invariant of the whole scan state after `n` samples: a well-formed
/// working peak, well-formed finished peaks, and the finished peaks
/// pairwise disjoint in scan order, all of them left of the working
/// peak's left trough.
pub open spec fn scan_inv(data: Seq<i64>, st: (GraphPeak, Seq<GraphPeak>), n: int) -> bool {
    let cur = st.0;
    let out = st.1;
    &&& working_peak_wf(cur, n)
    &&& forall|k: int| 0 <= k < out.len() ==> finished_peak_wf(data, #[trigger] out[k], n)
    &&& forall|k: int, j: int|
        0 <= k < j < out.len()
            ==> #[trigger] out[k].right_trough.x < #[trigger] out[j].left_trough.x
    &&& out.len() > 0 && cur.left_trough.x > 0
        ==> out.last().right_trough.x < cur.left_trough.x
}

proof fn lemma_step_preserves_inv(
    data: Seq<i64>,
    threshold: int,
    st: (GraphPeak, Seq<GraphPeak>),
    x: usize,
)
    requires
        samples_ok(data),
        scan_inv(data, st, x as int),
        x < data.len(),
    ensures
        scan_inv(data, scan_step(st, data, threshold, x), x as int + 1),
{
    let cur = st.0;
    let out = st.1;
    let st2 = scan_step(st, data, threshold, x);
    if cur.right_trough.x > 0 {
        // An emission pushes the working peak with its exact area.
        let l = cur.left_trough.x as int;
        let r = cur.right_trough.x as int;
        lemma_area_twice_bound(data, l, r);
        assert((r - l) * (2 * MAX_SAMPLE) <= (MAX_SAMPLES as int) * (2 * MAX_SAMPLE))
            by (nonlinear_arith)
            requires 0 <= r - l <= MAX_SAMPLES as int, MAX_SAMPLE > 0;
        let finished = GraphPeak { area2: peak_area_twice(data, cur) as i64, ..cur };
        assert(finished.area2 == area_twice(data, l, r));
        if st2.1 == out.push(finished) {
            assert forall|k: int, j: int| 0 <= k < j < st2.1.len()
                implies #[trigger] st2.1[k].right_trough.x < #[trigger] st2.1[j].left_trough.x by {
                if j < out.len() {
                    assert(out[k].right_trough.x < out[j].left_trough.x);
                } else {
                    assert(st2.1[j] == finished);
                    if k < out.len() - 1 {
                        assert(out[k].right_trough.x < out[out.len() - 1].left_trough.x);
                        assert(finished_peak_wf(data, out[out.len() - 1], x as int));
                    }
                }
            }
        }
    }
}

proof fn lemma_scan_upto_inv(data: Seq<i64>, threshold: int, n: int)
    requires
        samples_ok(data),
        0 <= n <= data.len(),
    ensures
        scan_inv(data, scan_upto(data, threshold, n), n),
    decreases n,
{
    if n > 0 {
        lemma_scan_upto_inv(data, threshold, n - 1);
        lemma_step_preserves_inv(data, threshold, scan_upto(data, threshold, n - 1), (n
            - 1) as usize);
    }
}

/// Scans `data` once, left to right, and returns every peak whose summit
/// reached `threshold` and whose right trough was confirmed by a rise in
/// the values, in scan order. A candidate still open when the input ends
/// is discarded.
pub fn find_peaks_over_threshold(data: &Vec<i64>, threshold: i64) -> (peaks: Vec<GraphPeak>)
    requires
        samples_ok(data@),
    ensures
        peaks@ == find_peaks_spec(data@, threshold as int),
{
    let mut peaks: Vec<GraphPeak> = Vec::new();
    let mut current_peak = GraphPeak::new();

    let mut x: usize = 0;
    while x < data.len()
        invariant
            samples_ok(data@),
            x <= data@.len(),
            current_peak == scan_upto(data@, threshold as int, x as int).0,
            peaks@ == scan_upto(data@, threshold as int, x as int).1,
        decreases data@.len() - x,
    {
        proof {
            lemma_scan_upto_inv(data@, threshold as int, x as int);
        }
        let ghost pre = (current_peak, peaks@);
        let y = data[x];

        if y < threshold {
            if current_peak.right_trough.x > 0 {
                if y <= current_peak.right_trough.y {
                    // Still descending.
                    current_peak.right_trough.x = x;
                    current_peak.right_trough.y = y;
                } else {
                    // Rising: the peak is confirmed.
                    compute_area(data, &mut current_peak);
                    peaks.push(current_peak);
                    current_peak.clear();
                }
            } else if current_peak.left_trough.x == 0 {
                // Looking for a left trough.
                current_peak.left_trough.x = x;
                current_peak.left_trough.y = y;
            } else if current_peak.peak.x > current_peak.left_trough.x
                && current_peak.left_trough.x > 0 {
                // Left trough and summit stand: take this as the right
                // trough, for now.
                current_peak.right_trough.x = x;
                current_peak.right_trough.y = y;
            } else {
                current_peak.left_trough.x = x;
                current_peak.left_trough.y = y;
            }
        } else if current_peak.left_trough.x > 0 {
            // At or above the threshold with a left trough set.
            if current_peak.peak.x == 0 || y >= current_peak.peak.y {
                current_peak.peak.x = x;
                current_peak.peak.y = y;
                current_peak.right_trough.x = 0;
                current_peak.right_trough.y = 0;
            }
        } else if current_peak.right_trough.x > 0 {
            compute_area(data, &mut current_peak);
            peaks.push(current_peak);
            current_peak.clear();
        } else {
            // Above the threshold with nothing set at all.
            current_peak.left_trough.x = x;
            current_peak.left_trough.y = y;
        }

        proof {
            assert((current_peak, peaks@)
                == scan_step(pre, data@, threshold as int, x));
            assert(scan_upto(data@, threshold as int, x as int + 1)
                == scan_step(scan_upto(data@, threshold as int, x as int), data@,
                    threshold as int, x));
        }
        x = x + 1;
    }
    peaks
}

/// Peaks come out in scan order: their summits are strictly increasing in
/// index, since one peak's right trough is confirmed before the next
/// peak's left trough is seeded.
pub proof fn lemma_peaks_strictly_ordered(data: Seq<i64>, threshold: int)
    requires
        samples_ok(data),
    ensures
        forall|i: int, j: int|
            0 <= i < j < find_peaks_spec(data, threshold).len()
                ==> (#[trigger] find_peaks_spec(data, threshold)[i]).peak.x
                    < (#[trigger] find_peaks_spec(data, threshold)[j]).peak.x,
{
    lemma_scan_upto_inv(data, threshold, data.len() as int);
    let out = find_peaks_spec(data, threshold);
    assert forall|i: int, j: int| 0 <= i < j < out.len()
        implies (#[trigger] out[i]).peak.x < (#[trigger] out[j]).peak.x by {
        assert(finished_peak_wf(data, out[i], data.len() as int));
        assert(finished_peak_wf(data, out[j], data.len() as int));
        assert(out[i].right_trough.x < out[j].left_trough.x);
    }
}

proof fn lemma_below_threshold_state(data: Seq<i64>, threshold: int, n: int)
    requires
        samples_ok(data),
        0 <= n <= data.len(),
        forall|i: int| 0 <= i < data.len() ==> (#[trigger] data[i] as int) < threshold,
    ensures
        scan_upto(data, threshold, n).0.peak.x == 0,
        scan_upto(data, threshold, n).0.right_trough.x == 0,
        scan_upto(data, threshold, n).1.len() == 0,
    decreases n,
{
    if n > 0 {
        lemma_below_threshold_state(data, threshold, n - 1);
    }
}

/// Data that never reaches the threshold yields no peaks: no summit is
/// ever claimed, so no peak can finish. Monotonically non-increasing or
/// constant data below the threshold is the typical instance.
pub proof fn lemma_below_threshold_no_peaks(data: Seq<i64>, threshold: int)
    requires
        samples_ok(data),
        forall|i: int| 0 <= i < data.len() ==> (#[trigger] data[i] as int) < threshold,
    ensures
        find_peaks_spec(data, threshold).len() == 0,
{
    lemma_below_threshold_state(data, threshold, data.len() as int);
}

/// The trapezoidal integral of nonnegative samples is nonnegative.
pub proof fn lemma_area_twice_nonneg(data: Seq<i64>, l: int, r: int)
    requires
        0 <= l <= r,
        r < data.len(),
        forall|i: int| l <= i <= r ==> #[trigger] data[i] >= 0,
    ensures
        area_twice(data, l, r) >= 0,
    decreases r - l,
{
    if r > l {
        lemma_area_twice_nonneg(data, l, r - 1);
        assert(data[r] >= 0);
        assert(data[r - 1] >= 0);
    }
}

/// If every sample is nonnegative, every finished peak of a scan carries
/// a nonnegative area.
pub proof fn lemma_peak_areas_nonneg(data: Seq<i64>, threshold: int)
    requires
        samples_ok(data),
        forall|i: int| 0 <= i < data.len() ==> #[trigger] data[i] >= 0,
    ensures
        forall|k: int|
            0 <= k < find_peaks_spec(data, threshold).len()
                ==> (#[trigger] find_peaks_spec(data, threshold)[k]).area2 >= 0,
{
    lemma_scan_upto_inv(data, threshold, data.len() as int);
    let out = find_peaks_spec(data, threshold);
    assert forall|k: int| 0 <= k < out.len() implies (#[trigger] out[k]).area2 >= 0 by {
        assert(finished_peak_wf(data, out[k], data.len() as int));
        lemma_area_twice_nonneg(
            data,
            out[k].left_trough.x as int,
            out[k].right_trough.x as int,
        );
    }
}

/// The statistically derived threshold: the mean plus `sigmas` standard
/// deviations.
pub open spec fn stddev_threshold(s: Seq<i64>, sigmas: int) -> int {
    crate::stats::mean_of(s) + sigmas * crate::stats::stddev_of(s, crate::stats::mean_of(s))
}

/// Scans `data` with a threshold derived from the sample population:
/// `mean + sigmas * standard_deviation`. Equivalent, by direct
/// substitution, to `find_peaks_over_threshold` at that threshold.
pub fn find_peaks_over_stddev(data: &Vec<i64>, sigmas: i64) -> (peaks: Vec<GraphPeak>)
    requires
        data@.len() >= 2,
        samples_ok(data@),
        -MAX_SAMPLE <= sigmas <= MAX_SAMPLE,
    ensures
        peaks@ == find_peaks_spec(data@, stddev_threshold(data@, sigmas as int)),
{
    let mean = crate::stats::average(data);
    let sd = crate::stats::standard_deviation(data, mean);
    proof {
        assert(-(MAX_SAMPLE as int) * 3_037_000_499 <= (sigmas as int) * (sd as int)
            <= (MAX_SAMPLE as int) * 3_037_000_499) by (nonlinear_arith)
            requires
                -MAX_SAMPLE <= sigmas <= MAX_SAMPLE,
                0 <= sd <= 3_037_000_499,
                MAX_SAMPLE > 0;
    }
    let stddev = sigmas * sd;
    let threshold = mean + stddev;
    let peaks = find_peaks_over_threshold(data, threshold);
    peaks
}

} // verus!
