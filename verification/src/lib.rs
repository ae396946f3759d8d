//! Detection of local maxima ("peaks") in an ordered sequence of samples.
//!
//! Samples are fixed-point values: each `i64` sample is a scaled integer
//! reading (for accelerometer data, for example, a reading in thousandths
//! of a g). Keeping the samples integral keeps every sum, mean and area in
//! this crate exact.

use vstd::prelude::*;

pub mod peaks;
pub mod stats;

verus! {

/// Largest number of samples one scan or reduction accepts; together with
/// `MAX_SAMPLE` it keeps every intermediate sum inside `i64`.
pub const MAX_SAMPLES: usize = 0x10_0000;

/// Largest magnitude of a single sample value.
pub const MAX_SAMPLE: i64 = 0x10_0000;

/// One sample value within the fixed-point range.
pub open spec fn sample_in_range(v: i64) -> bool {
    -MAX_SAMPLE <= v <= MAX_SAMPLE
}

/// A sample sequence the library accepts: bounded length, bounded values.
pub open spec fn samples_ok(s: Seq<i64>) -> bool {
    &&& s.len() <= MAX_SAMPLES
    &&& forall|i: int| 0 <= i < s.len() ==> sample_in_range(#[trigger] s[i])
}

} // verus!
