//! Core of a gravitational N-body simulation: the work partitioner for the
//! triangular pairwise-interaction loop, the two-slot acceleration buffer
//! used by the leapfrog integrator, and the algorithm-variant selector.
//!
//! The floating-point kernels themselves (force evaluation, integration,
//! energy diagnostics) live with the driver; what is verified here is the
//! integer and structural logic they rely on: that the partition of the
//! outer loop index is a contiguous, non-overlapping cover of `[0, n)`
//! whose ranges together own every unordered particle pair exactly once,
//! and that the acceleration history rotates as the integrator expects.

use vstd::prelude::*;

pub mod buffer;
pub mod partition;

verus! {

/// The three interchangeable implementations of one advance-step contract,
/// selected by configuration at startup.
#[derive(Clone, Copy, Debug, PartialEq, Eq, Structural)]
pub enum Algorithm {
    /// Plain three-component vector arithmetic.
    Scalar,
    /// Four-lane padded vector arithmetic.
    Simd,
    /// Four-lane padded vector arithmetic, partitioned across workers.
    ParallelSimd,
}

/// Maps the numeric algorithm selector to the variant it names.
///
/// Selectors outside `0..=2` name no variant and are excluded here; the
/// caller must treat them as a fatal configuration error before calling.
pub fn run(alg: usize) -> (r: Algorithm)
    requires
        alg <= 2,
    ensures
        r == Algorithm::Scalar <==> alg == 0,
        r == Algorithm::Simd <==> alg == 1,
        r == Algorithm::ParallelSimd <==> alg == 2,
{
    if alg == 0 {
        Algorithm::Scalar
    } else if alg == 1 {
        Algorithm::Simd
    } else {
        Algorithm::ParallelSimd
    }
}

} // verus!
