//! A verified core for a PageRank-style ranking pipeline.
//!
//! The pipeline synthesises a row-stochastic transition matrix, applies a
//! damping (teleportation) transform, runs power iteration until the
//! per-node rank change falls below a threshold, and finally sorts the
//! converged ranks for presentation.
//!
//! Ranks and matrix entries are non-negative finite binary64 values.  The
//! verified core never performs floating-point arithmetic itself: it stores
//! each value as its IEEE-754 bit pattern (`u64`), and relies on the fact
//! that for non-negative finite values the unsigned order of the bit
//! patterns coincides with the numeric order of the values.  The caller
//! performs the floating-point sums and products and hands the core the bit
//! patterns; every decision the pipeline makes (dimension checks, bounds
//! checks, the convergence test, the final ordering) is exact integer logic
//! verified here.
//!
//! A small word-level Markov-chain text generator that shares the weighted
//! random-choice machinery lives in [`markov`].

use vstd::prelude::*;

pub mod markov;
pub mod matrix;
pub mod presenter;
pub mod solver;

verus! {

/// The ways a ranking computation can be rejected.
///
/// Non-convergence is not an error: the solver reports it as a recoverable
/// outcome carrying the best-effort ranking (see [`solver`]).
#[derive(Clone, Copy, Debug, PartialEq, Eq, Structural)]
pub enum RankError {
    /// A ranking over zero nodes was requested, or the matrix is not square.
    InvalidDimension,
    /// A rank, delta or threshold is not a positive or non-negative finite
    /// number (NaN or an infinity reached the pipeline).
    NumericDegeneracy,
}

/// The exponent field of an IEEE-754 binary64 bit pattern.
pub open spec fn exponent_bits(b: u64) -> u64 {
    (b >> 52) & 0x7ff
}

/// Whether `b` is the bit pattern of a finite binary64 value
/// (the exponent field is not all ones, which would mean NaN or infinity).
pub open spec fn is_finite_bits(b: u64) -> bool {
    exponent_bits(b) != 0x7ff
}

/// Whether `b` is the bit pattern of a strictly positive finite binary64
/// value: finite, sign bit clear, and not zero.
pub open spec fn is_positive_finite_bits(b: u64) -> bool {
    is_finite_bits(b) && b >> 63 == 0 && b != 0
}

/// Runtime test for [`is_finite_bits`].
pub fn finite_bits(b: u64) -> (r: bool)
    ensures
        r == is_finite_bits(b),
{
    ((b >> 52) & 0x7ff) != 0x7ff
}

/// Runtime test for [`is_positive_finite_bits`].
pub fn positive_finite_bits(b: u64) -> (r: bool)
    ensures
        r == is_positive_finite_bits(b),
{
    finite_bits(b) && (b >> 63) == 0 && b != 0
}

/// A ranked node: the node's identifier together with its current rank,
/// the rank stored as the bit pattern of a non-negative finite binary64.
#[derive(Clone, Copy, Debug, PartialEq, Eq, Structural)]
pub struct Node {
    pub id: u64,
    pub rank_bits: u64,
}

impl Node {
    pub fn new(id: u64, rank_bits: u64) -> (r: Node)
        ensures
            r.id == id,
            r.rank_bits == rank_bits,
    {
        Node { id, rank_bits }
    }
}

} // verus!
