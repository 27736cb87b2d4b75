//! Failures of the solver.
use crate::bignum::BigNum;
use vstd::prelude::*;

verus! {

/// Why no solution was returned.
#[derive(Debug)]
pub enum PellError {
    /// N is zero or negative.
    InvalidInput,
    /// N is a perfect square, so x^2 - N*y^2 = 1 has no solution with y > 0.
    PerfectSquare,
    /// No admissible multiplier, or an inexact division, was met at the
    /// triple (a, b, k).
    InternalError { a: BigNum, b: BigNum, k: BigNum },
    /// The iteration cap was reached before k became 1.
    NoConvergence,
}

} // verus!
