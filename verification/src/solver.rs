//! The power-iteration solver's decision logic.
//!
//! One sweep of power iteration computes, for every destination `i`,
//! `next[i] = sum over j of transpose(M)[i][j] * current[j]` in binary64,
//! then the per-node deltas `|current[i] - next[i]|`.  The caller performs
//! that floating-point work and reports each sweep's deltas here as bit
//! patterns; the solver makes every decision: whether a delta is
//! degenerate (non-finite), whether the sweep converged (every delta
//! strictly below the threshold), and whether the iteration cap was
//! reached.  A delta is the absolute value of a finite difference, so its
//! bit pattern has a clear sign bit whenever it is finite, and comparing
//! bit patterns against the (positive finite) threshold is exactly the
//! numeric comparison.

use vstd::prelude::*;

use crate::is_finite_bits;
use crate::is_positive_finite_bits;
use crate::positive_finite_bits;
use crate::finite_bits;
use crate::Node;
use crate::RankError;

verus! {

/// Every delta of a sweep is the bit pattern of a finite value.
pub open spec fn all_finite(deltas: Seq<u64>) -> bool {
    forall|i: int| 0 <= i < deltas.len() ==> is_finite_bits(#[trigger] deltas[i])
}

/// Every delta of a sweep is strictly below the threshold: the sweep
/// converged under that threshold.
pub open spec fn all_below(deltas: Seq<u64>, threshold_bits: u64) -> bool {
    forall|i: int| 0 <= i < deltas.len() ==> #[trigger] deltas[i] < threshold_bits
}

/// What one recorded sweep means for the iteration.
#[derive(Clone, Copy, Debug, PartialEq, Eq, Structural)]
pub enum SweepOutcome {
    /// Every per-node delta fell strictly below the threshold; the ranks
    /// after this sweep are the result.
    Converged,
    /// Not converged and the cap is not yet reached; run another sweep.
    Continue,
    /// Not converged, and this sweep used up the iteration cap; the ranks
    /// after this sweep are a best-effort, non-converged result.
    CapReached,
}

/// The solver's state across sweeps: the convergence threshold, the
/// iteration cap, and how many sweeps have been recorded.
#[derive(Debug)]
pub struct Solver {
    threshold_bits: u64,
    max_iterations: u64,
    iterations: u64,
}

impl Solver {
    /// The convergence threshold, as the bit pattern of a positive finite
    /// binary64.
    pub closed spec fn threshold_spec(self) -> u64 {
        self.threshold_bits
    }

    /// The iteration cap.
    pub closed spec fn max_iterations_spec(self) -> u64 {
        self.max_iterations
    }

    /// How many sweeps have been recorded so far.
    pub closed spec fn iterations_spec(self) -> u64 {
        self.iterations
    }

    /// A solver holds a positive finite threshold, a positive cap, and has
    /// never recorded more sweeps than the cap.
    pub open spec fn well_formed(self) -> bool {
        &&& is_positive_finite_bits(self.threshold_spec())
        &&& self.max_iterations_spec() > 0
        &&& self.iterations_spec() <= self.max_iterations_spec()
    }

    /// Creates a solver.
    ///
    /// The threshold must be a positive finite binary64 (else the
    /// convergence test would be vacuous or compare against NaN) and the
    /// cap must allow at least one sweep; anything else is rejected.
    pub fn new(threshold_bits: u64, max_iterations: u64) -> (r: Result<Solver, RankError>)
        ensures
            r is Ok <==> is_positive_finite_bits(threshold_bits) && max_iterations > 0,
            r is Ok ==> {
                &&& r->Ok_0.well_formed()
                &&& r->Ok_0.threshold_spec() == threshold_bits
                &&& r->Ok_0.max_iterations_spec() == max_iterations
                &&& r->Ok_0.iterations_spec() == 0
            },
            r is Err ==> r->Err_0 == (if is_positive_finite_bits(threshold_bits) {
                RankError::InvalidDimension
            } else {
                RankError::NumericDegeneracy
            }),
    {
        if !positive_finite_bits(threshold_bits) {
            Err(RankError::NumericDegeneracy)
        } else if max_iterations == 0 {
            Err(RankError::InvalidDimension)
        } else {
            Ok(Solver { threshold_bits, max_iterations, iterations: 0 })
        }
    }

    /// Whether the solver may record another sweep.
    pub fn active(&self) -> (r: bool)
        ensures
            r == (self.iterations_spec() < self.max_iterations_spec()),
    {
        self.iterations < self.max_iterations
    }

    /// How many sweeps have been recorded.
    pub fn iterations(&self) -> (r: u64)
        ensures
            r == self.iterations_spec(),
    {
        self.iterations
    }

    /// Records the per-node deltas of one completed sweep and decides what
    /// follows.
    ///
    /// A non-finite delta means NaN or an infinity leaked into the
    /// arithmetic: the sweep is rejected with
    /// [`RankError::NumericDegeneracy`] and the state is unchanged.
    /// Otherwise the sweep counts against the cap, and the outcome is
    /// exactly one of: converged (every delta strictly below the
    /// threshold), continue, or cap reached.
    pub fn record_sweep(&mut self, deltas: &Vec<u64>) -> (r: Result<SweepOutcome, RankError>)
        requires
            old(self).well_formed(),
            old(self).iterations_spec() < old(self).max_iterations_spec(),
        ensures
            final(self).well_formed(),
            final(self).threshold_spec() == old(self).threshold_spec(),
            final(self).max_iterations_spec() == old(self).max_iterations_spec(),
            r is Err <==> !all_finite(deltas@),
            r is Err ==> r->Err_0 == RankError::NumericDegeneracy
                && *final(self) == *old(self),
            r is Ok ==> final(self).iterations_spec() == old(self).iterations_spec() + 1,
            r is Ok ==> r->Ok_0 == (if all_below(deltas@, old(self).threshold_spec()) {
                SweepOutcome::Converged
            } else if old(self).iterations_spec() + 1 < old(self).max_iterations_spec() {
                SweepOutcome::Continue
            } else {
                SweepOutcome::CapReached
            }),
    {
        let n = deltas.len();
        let mut converged = true;
        let mut i: usize = 0;
        while i < n
            invariant
                n == deltas@.len(),
                i <= n,
                forall|k: int| 0 <= k < i ==> is_finite_bits(#[trigger] deltas@[k]),
                converged == forall|k: int|
                    0 <= k < i ==> #[trigger] deltas@[k] < self.threshold_bits,
                *self == *old(self),
                old(self).well_formed(),
                old(self).iterations_spec() < old(self).max_iterations_spec(),
            decreases n - i,
        {
            let d = deltas[i];
            if !finite_bits(d) {
                assert(!all_finite(deltas@));
                return Err(RankError::NumericDegeneracy);
            }
            if d >= self.threshold_bits {
                converged = false;
            }
            i += 1;
        }
        self.iterations = self.iterations + 1;
        if converged {
            Ok(SweepOutcome::Converged)
        } else if self.iterations < self.max_iterations {
            Ok(SweepOutcome::Continue)
        } else {
            Ok(SweepOutcome::CapReached)
        }
    }
}

/// The initial rank vector: one node per identifier, every rank set to the
/// same bit pattern (the uniform prior `1/n`, computed by the caller).
pub fn init_ranks(ids: &Vec<u64>, uniform_bits: u64) -> (r: Vec<Node>)
    ensures
        r@.len() == ids@.len(),
        forall|i: int| 0 <= i < ids@.len()
            ==> (#[trigger] r@[i]).id == ids@[i] && r@[i].rank_bits == uniform_bits,
{
    let mut out: Vec<Node> = Vec::new();
    let mut i: usize = 0;
    while i < ids.len()
        invariant
            i <= ids@.len(),
            out@.len() == i,
            forall|k: int| 0 <= k < i
                ==> (#[trigger] out@[k]).id == ids@[k] && out@[k].rank_bits == uniform_bits,
        decreases ids@.len() - i,
    {
        out.push(Node { id: ids[i], rank_bits: uniform_bits });
        i += 1;
    }
    out
}

/// Tightening helps pointwise: a sweep that converged under a threshold
/// also converged under any looser one.
pub proof fn lemma_looser_threshold_converges(deltas: Seq<u64>, t1: u64, t2: u64)
    requires
        t1 <= t2,
        all_below(deltas, t1),
    ensures
        all_below(deltas, t2),
{
}

/// The sweep index (0-based) at which a run of the solver first converges
/// under a threshold, over the trace of per-sweep deltas.
pub open spec fn first_convergence(trace: Seq<Seq<u64>>, threshold_bits: u64, k: int) -> bool {
    &&& 0 <= k < trace.len()
    &&& all_below(trace[k], threshold_bits)
    &&& forall|j: int| 0 <= j < k ==> !all_below(#[trigger] trace[j], threshold_bits)
}

/// Tightening the threshold never lets the solver converge earlier: over
/// one and the same trace of sweeps, the first convergence under the
/// tighter threshold `t1` comes no sooner than the first convergence under
/// the looser threshold `t2`.
pub proof fn lemma_tighter_threshold_never_faster(
    trace: Seq<Seq<u64>>,
    t1: u64,
    t2: u64,
    k1: int,
    k2: int,
)
    requires
        t1 <= t2,
        first_convergence(trace, t1, k1),
        first_convergence(trace, t2, k2),
    ensures
        k2 <= k1,
{
    if k2 > k1 {
        lemma_looser_threshold_converges(trace[k1], t1, t2);
        assert(!all_below(trace[k1], t2));
    }
}

} // verus!
