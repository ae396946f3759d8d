//! Summary statistics over a sample sequence: mean, sample variance and
//! standard deviation, all in exact integer arithmetic.

use vstd::prelude::*;

verus! {

use crate::{sample_in_range, samples_ok, MAX_SAMPLE, MAX_SAMPLES};

/// Sum of all values of a sequence.
pub open spec fn sum_of(s: Seq<i64>) -> int
    decreases s.len(),
{
    if s.len() == 0 {
        0
    } else {
        sum_of(s.drop_last()) + s.last()
    }
}

/// Integer division rounding toward zero, the rounding that the executable
/// code performs when it divides a possibly negative sum.
pub open spec fn div_toward_zero(a: int, b: int) -> int {
    if a >= 0 {
        a / b
    } else {
        -((-a) / b)
    }
}

/// Arithmetic mean of a sequence, rounded toward zero.
pub open spec fn mean_of(s: Seq<i64>) -> int {
    div_toward_zero(sum_of(s), s.len() as int)
}

proof fn lemma_sum_push(s: Seq<i64>, i: int)
    requires
        0 <= i < s.len(),
    ensures
        sum_of(s.take(i + 1)) == sum_of(s.take(i)) + s[i],
{
    assert(s.take(i + 1).drop_last() =~= s.take(i));
    assert(s.take(i + 1).last() == s[i]);
}

proof fn lemma_sum_bound(s: Seq<i64>)
    requires
        forall|i: int| 0 <= i < s.len() ==> sample_in_range(#[trigger] s[i]),
    ensures
        -(s.len() * MAX_SAMPLE) <= sum_of(s) <= s.len() * MAX_SAMPLE,
    decreases s.len(),
{
    if s.len() > 0 {
        lemma_sum_bound(s.drop_last());
        assert(sample_in_range(s[s.len() - 1]));
    }
}

/// Sum of the squared deviations of a sequence from `mean`.
pub open spec fn sq_dev_sum(s: Seq<i64>, mean: int) -> int
    decreases s.len(),
{
    if s.len() == 0 {
        0
    } else {
        sq_dev_sum(s.drop_last(), mean) + (s.last() - mean) * (s.last() - mean)
    }
}

/// Sample variance (Bessel's correction: the divisor is `len - 1`).
pub open spec fn variance_of(s: Seq<i64>, mean: int) -> int {
    sq_dev_sum(s, mean) / (s.len() - 1)
}

/// The integer square root: the largest `r` with `r * r <= v` (0 for `v <= 0`).
pub open spec fn floor_sqrt(v: int) -> int
    decreases v,
{
    if v <= 0 {
        0
    } else if (floor_sqrt(v - 1) + 1) * (floor_sqrt(v - 1) + 1) <= v {
        floor_sqrt(v - 1) + 1
    } else {
        floor_sqrt(v - 1)
    }
}

/// Standard deviation: the integer square root of the sample variance.
pub open spec fn stddev_of(s: Seq<i64>, mean: int) -> int {
    floor_sqrt(variance_of(s, mean))
}

proof fn lemma_sq_dev_push(s: Seq<i64>, mean: int, i: int)
    requires
        0 <= i < s.len(),
    ensures
        sq_dev_sum(s.take(i + 1), mean)
            == sq_dev_sum(s.take(i), mean) + (s[i] - mean) * (s[i] - mean),
{
    assert(s.take(i + 1).drop_last() =~= s.take(i));
    assert(s.take(i + 1).last() == s[i]);
}

proof fn lemma_sq_dev_sum_bounds(s: Seq<i64>, mean: int)
    requires
        forall|i: int| 0 <= i < s.len() ==> sample_in_range(#[trigger] s[i]),
        -MAX_SAMPLE <= mean <= MAX_SAMPLE,
    ensures
        0 <= sq_dev_sum(s, mean),
        sq_dev_sum(s, mean) <= s.len() * (4 * MAX_SAMPLE * MAX_SAMPLE),
    decreases s.len(),
{
    if s.len() > 0 {
        assert forall|i: int| 0 <= i < s.drop_last().len()
            implies sample_in_range(#[trigger] s.drop_last()[i]) by {
            assert(s.drop_last()[i] == s[i]);
        }
        lemma_sq_dev_sum_bounds(s.drop_last(), mean);
        let d = s.last() - mean;
        assert(sample_in_range(s[s.len() - 1]));
        assert(0 <= d * d <= 4 * MAX_SAMPLE * MAX_SAMPLE) by (nonlinear_arith)
            requires -2 * MAX_SAMPLE <= d <= 2 * MAX_SAMPLE, MAX_SAMPLE > 0;
        assert(sq_dev_sum(s, mean) == sq_dev_sum(s.drop_last(), mean) + d * d);
        assert(s.drop_last().len() * (4 * MAX_SAMPLE * MAX_SAMPLE) + 4 * MAX_SAMPLE * MAX_SAMPLE
            == s.len() * (4 * MAX_SAMPLE * MAX_SAMPLE)) by (nonlinear_arith)
            requires s.len() >= 1, s.drop_last().len() == s.len() - 1;
    }
}

/// `floor_sqrt(v)` is the unique nonnegative root below `v`: it squares to
/// at most `v`, and its successor squares above `v`.
proof fn lemma_floor_sqrt_bounds(v: int)
    requires
        v >= 0,
    ensures
        floor_sqrt(v) >= 0,
        floor_sqrt(v) * floor_sqrt(v) <= v,
        (floor_sqrt(v) + 1) * (floor_sqrt(v) + 1) > v,
    decreases v,
{
    if v > 0 {
        lemma_floor_sqrt_bounds(v - 1);
        let f = floor_sqrt(v - 1);
        if (f + 1) * (f + 1) <= v {
            assert((f + 2) * (f + 2) > (f + 1) * (f + 1)) by (nonlinear_arith)
                requires f >= 0;
        }
    }
}

proof fn lemma_floor_sqrt_unique(v: int, r: int)
    requires
        v >= 0,
        r >= 0,
        r * r <= v,
        (r + 1) * (r + 1) > v,
    ensures
        r == floor_sqrt(v),
{
    lemma_floor_sqrt_bounds(v);
    let f = floor_sqrt(v);
    if r < f {
        assert((r + 1) * (r + 1) <= f * f) by (nonlinear_arith)
            requires 0 <= r, r + 1 <= f;
        assert(false);
    }
    if f < r {
        assert((f + 1) * (f + 1) <= r * r) by (nonlinear_arith)
            requires 0 <= f, f + 1 <= r;
        assert(false);
    }
}

/// Arithmetic mean of the samples, rounded toward zero.
///
/// The divisor is the sample count, so the input must hold at least one
/// sample.
pub fn average(data: &Vec<i64>) -> (r: i64)
    requires
        data@.len() >= 1,
        samples_ok(data@),
    ensures
        r == mean_of(data@),
        sample_in_range(r),
{
    let mut sum: i64 = 0;
    let mut i: usize = 0;
    while i < data.len()
        invariant
            i <= data@.len(),
            samples_ok(data@),
            sum == sum_of(data@.take(i as int)),
            -((i as int) * MAX_SAMPLE) <= sum <= (i as int) * MAX_SAMPLE,
        decreases data@.len() - i,
    {
        proof {
            lemma_sum_push(data@, i as int);
            assert(sample_in_range(data@[i as int]));
        }
        sum = sum + data[i];
        i = i + 1;
    }
    proof {
        assert(data@.take(data@.len() as int) =~= data@);
    }
    let n = data.len() as i64;
    let r = if sum >= 0 { sum / n } else { -((-sum) / n) };
    proof {
        assert(r == mean_of(data@));
        lemma_sum_bound(data@);
        assert(sample_in_range(r)) by {
            let s = sum as int;
            let nn = n as int;
            if s >= 0 {
                assert(s <= nn * MAX_SAMPLE);
                assert(s / nn <= MAX_SAMPLE) by (nonlinear_arith)
                    requires s >= 0, nn >= 1, s <= nn * MAX_SAMPLE, MAX_SAMPLE > 0;
                assert(s / nn >= 0) by (nonlinear_arith)
                    requires s >= 0, nn >= 1;
            } else {
                assert(-s <= nn * MAX_SAMPLE);
                assert((-s) / nn <= MAX_SAMPLE) by (nonlinear_arith)
                    requires -s >= 0, nn >= 1, -s <= nn * MAX_SAMPLE, MAX_SAMPLE > 0;
                assert((-s) / nn >= 0) by (nonlinear_arith)
                    requires -s >= 0, nn >= 1;
            }
        }
    }
    r
}

/// Sample variance of the samples around `mean` (divisor `len - 1`).
///
/// The divisor is zero for a single sample, so the input must hold at
/// least two.
pub fn variance(data: &Vec<i64>, mean: i64) -> (r: i64)
    requires
        data@.len() >= 2,
        samples_ok(data@),
        sample_in_range(mean),
    ensures
        r == variance_of(data@, mean as int),
        r >= 0,
{
    let mut numerator: i64 = 0;
    let mut i: usize = 0;
    while i < data.len()
        invariant
            i <= data@.len(),
            samples_ok(data@),
            sample_in_range(mean),
            numerator == sq_dev_sum(data@.take(i as int), mean as int),
            0 <= numerator,
            numerator <= (i as int) * (4 * MAX_SAMPLE * MAX_SAMPLE),
        decreases data@.len() - i,
    {
        proof {
            lemma_sq_dev_push(data@, mean as int, i as int);
            assert(sample_in_range(data@[i as int]));
            let d = data@[i as int] - mean;
            assert(0 <= d * d <= 4 * MAX_SAMPLE * MAX_SAMPLE) by (nonlinear_arith)
                requires -2 * MAX_SAMPLE <= d <= 2 * MAX_SAMPLE, MAX_SAMPLE > 0;
            assert((i as int) * (4 * MAX_SAMPLE * MAX_SAMPLE) + 4 * MAX_SAMPLE * MAX_SAMPLE
                == (i as int + 1) * (4 * MAX_SAMPLE * MAX_SAMPLE)) by (nonlinear_arith);
            assert((i as int + 1) * (4 * MAX_SAMPLE * MAX_SAMPLE)
                <= (MAX_SAMPLES as int) * (4 * MAX_SAMPLE * MAX_SAMPLE)) by (nonlinear_arith)
                requires 0 <= i as int + 1 <= MAX_SAMPLES as int, MAX_SAMPLE > 0;
            assert((MAX_SAMPLES as int) * (4 * MAX_SAMPLE * MAX_SAMPLE) < i64::MAX as int)
                by (nonlinear_arith);
        }
        let d = data[i] - mean;
        numerator = numerator + d * d;
        i = i + 1;
    }
    proof {
        assert(data@.take(data@.len() as int) =~= data@);
    }
    let denominator = (data.len() - 1) as i64;
    let r = numerator / denominator;
    proof {
        let num = numerator as int;
        let den = denominator as int;
        assert(r >= 0) by (nonlinear_arith)
            requires r == num / den, num >= 0, den >= 1;
    }
    r
}

/// The integer square root of a nonnegative value: the largest `r` with
/// `r * r <= v`, found by bisection.
pub fn isqrt(v: i64) -> (r: i64)
    requires
        v >= 0,
    ensures
        r == floor_sqrt(v as int),
        r >= 0,
        r * r <= v,
{
    proof {
        lemma_floor_sqrt_bounds(v as int);
    }
    if v <= 1 {
        proof {
            if v == 1 {
                lemma_floor_sqrt_unique(1, 1);
            }
        }
        return v;
    }
    let mut lo: i64 = 1;
    let mut hi: i64 = 3_037_000_500;
    proof {
        assert((hi as int) * (hi as int) > i64::MAX);
    }
    while lo + 1 < hi
        invariant
            1 <= lo < hi <= 3_037_000_500,
            (lo as int) * (lo as int) <= v,
            (hi as int) * (hi as int) > v,
            v >= 2,
        decreases hi - lo,
    {
        let mid = lo + (hi - lo) / 2;
        proof {
            assert(lo < mid < hi);
            assert((mid as int) * (mid as int) <= (3_037_000_499 as int) * (3_037_000_499 as int))
                by (nonlinear_arith)
                requires 0 <= mid <= 3_037_000_499;
        }
        if mid <= v / mid {
            proof {
                let m = mid as int;
                let vv = v as int;
                assert(m * m <= vv) by (nonlinear_arith)
                    requires m >= 1, m <= vv / m, vv >= 0;
            }
            lo = mid;
        } else {
            proof {
                let m = mid as int;
                let vv = v as int;
                assert(m * m > vv) by (nonlinear_arith)
                    requires m >= 1, m > vv / m, vv >= 0;
            }
            hi = mid;
        }
    }
    proof {
        lemma_floor_sqrt_unique(v as int, lo as int);
    }
    lo
}

/// Standard deviation of the samples around `mean`: the integer square
/// root of the sample variance.
pub fn standard_deviation(data: &Vec<i64>, mean: i64) -> (r: i64)
    requires
        data@.len() >= 2,
        samples_ok(data@),
        sample_in_range(mean),
    ensures
        r == stddev_of(data@, mean as int),
        0 <= r <= 3_037_000_499,
{
    let var = variance(data, mean);
    let std_dev = isqrt(var);
    proof {
        let r = std_dev as int;
        assert(r <= 3_037_000_499) by (nonlinear_arith)
            requires r >= 0, r * r <= i64::MAX as int;
    }
    std_dev
}

} // verus!
