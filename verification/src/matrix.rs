//! The damped transition matrix, stored as a dense square grid of
//! binary64 bit patterns.
//!
//! The caller synthesises each row as a probability distribution over
//! destinations and applies the damping transform
//! `m[i][j] * (1 - a) + a / n` before handing the grid over; the grid of
//! bit patterns is validated and carried through here.  The solver reads
//! the matrix only through its transpose, which is computed (and verified)
//! here as pure data movement.

use vstd::prelude::*;

use crate::RankError;

verus! {

/// The mathematical view of a grid: the sequence of its rows.
pub open spec fn grid_of(rows: Seq<Vec<u64>>) -> Seq<Seq<u64>> {
    Seq::new(rows.len(), |i: int| rows[i]@)
}

/// How a grid reads off its rows.
proof fn lemma_grid(rows: Seq<Vec<u64>>)
    ensures
        grid_of(rows).len() == rows.len(),
        forall|i: int| 0 <= i < rows.len() ==> #[trigger] grid_of(rows)[i] == rows[i]@,
{
}

/// A grid is square with a positive side.
pub open spec fn is_square_grid(g: Seq<Seq<u64>>) -> bool {
    &&& g.len() > 0
    &&& forall|i: int| 0 <= i < g.len() ==> (#[trigger] g[i]).len() == g.len()
}

/// An n-by-n transition matrix of binary64 bit patterns.
#[derive(Debug)]
pub struct TransitionMatrix {
    rows: Vec<Vec<u64>>,
}

impl TransitionMatrix {
    /// The matrix as a sequence of rows of bit patterns.
    pub closed spec fn matrix(self) -> Seq<Seq<u64>> {
        grid_of(self.rows@)
    }

    /// Every matrix that a constructor hands out is square and non-empty.
    pub open spec fn well_formed(self) -> bool {
        is_square_grid(self.matrix())
    }

    /// The number of nodes.
    pub open spec fn size_spec(self) -> nat {
        self.matrix().len()
    }

    /// Builds a matrix from its rows.
    ///
    /// Rejects an empty grid and a non-square grid with
    /// [`RankError::InvalidDimension`]; accepts everything else unchanged.
    pub fn from_rows(rows: Vec<Vec<u64>>) -> (r: Result<TransitionMatrix, RankError>)
        ensures
            r is Ok <==> is_square_grid(grid_of(rows@)),
            r is Ok ==> r->Ok_0.matrix() == grid_of(rows@),
            r is Err ==> r->Err_0 == RankError::InvalidDimension,
    {
        proof {
            lemma_grid(rows@);
        }
        let n = rows.len();
        if n == 0 {
            return Err(RankError::InvalidDimension);
        }
        let mut i: usize = 0;
        while i < n
            invariant
                n == rows@.len(),
                i <= n,
                forall|k: int| 0 <= k < i ==> (#[trigger] rows@[k])@.len() == n,
            decreases n - i,
        {
            if rows[i].len() != n {
                proof {
                    lemma_grid(rows@);
                    assert(grid_of(rows@)[i as int].len() != grid_of(rows@).len());
                }
                return Err(RankError::InvalidDimension);
            }
            i += 1;
        }
        proof {
            lemma_grid(rows@);
            assert forall|k: int| 0 <= k < grid_of(rows@).len() implies (#[trigger] grid_of(
                rows@,
            )[k]).len() == grid_of(rows@).len() by {
                assert(grid_of(rows@)[k] == rows@[k]@);
            }
        }
        Ok(TransitionMatrix { rows })
    }

    /// The number of nodes.
    pub fn size(&self) -> (r: usize)
        ensures
            r == self.size_spec(),
    {
        self.rows.len()
    }

    /// The entry in row `i`, column `j`.
    pub fn get(&self, i: usize, j: usize) -> (r: u64)
        requires
            self.well_formed(),
            i < self.size_spec(),
            j < self.size_spec(),
        ensures
            r == self.matrix()[i as int][j as int],
    {
        proof {
            lemma_grid(self.rows@);
            assert(self.matrix()[i as int] == self.rows@[i as int]@);
        }
        self.rows[i][j]
    }

    /// The transpose: the entry at `(j, i)` of the result is the entry at
    /// `(i, j)` of `self`.  The solver accumulates along the transpose
    /// because rank flows from source row to destination column.
    pub fn transpose(&self) -> (r: TransitionMatrix)
        requires
            self.well_formed(),
        ensures
            r.well_formed(),
            r.size_spec() == self.size_spec(),
            forall|i: int, j: int|
                0 <= i < self.size_spec() && 0 <= j < self.size_spec()
                    ==> r.matrix()[j][i] == self.matrix()[i][j],
    {
        let n = self.rows.len();
        let mut out: Vec<Vec<u64>> = Vec::new();
        let mut j: usize = 0;
        while j < n
            invariant
                self.well_formed(),
                n == self.size_spec(),
                j <= n,
                out@.len() == j,
                forall|jj: int| 0 <= jj < j ==> (#[trigger] out@[jj])@.len() == n,
                forall|jj: int, i: int|
                    0 <= jj < j && 0 <= i < n
                        ==> #[trigger] out@[jj]@[i] == self.matrix()[i][jj],
            decreases n - j,
        {
            let mut row: Vec<u64> = Vec::new();
            let mut i: usize = 0;
            while i < n
                invariant
                    self.well_formed(),
                    n == self.size_spec(),
                    j < n,
                    i <= n,
                    row@.len() == i,
                    forall|k: int| 0 <= k < i ==> row@[k] == self.matrix()[k][j as int],
                decreases n - i,
            {
                proof {
                    lemma_grid(self.rows@);
                    assert(self.matrix()[i as int] == self.rows@[i as int]@);
                }
                row.push(self.rows[i][j]);
                i += 1;
            }
            out.push(row);
            j += 1;
        }
        proof {
            lemma_grid(out@);
            assert forall|k: int| 0 <= k < grid_of(out@).len() implies (#[trigger] grid_of(
                out@,
            )[k]).len() == grid_of(out@).len() by {
                assert(grid_of(out@)[k] == out@[k]@);
            }
        }
        TransitionMatrix { rows: out }
    }

    /// Whether every entry lies in the closed interval `[lo, hi]` of bit
    /// patterns.  For non-negative finite values this is exactly the
    /// numeric interval test, so the positivity bounds that damping
    /// guarantees (`a/n` below, `(1-a) + a/n` above) can be checked here.
    pub fn entries_within(&self, lo: u64, hi: u64) -> (r: bool)
        requires
            self.well_formed(),
        ensures
            r == forall|i: int, j: int|
                0 <= i < self.size_spec() && 0 <= j < self.size_spec()
                    ==> lo <= #[trigger] self.matrix()[i][j] <= hi,
    {
        let n = self.rows.len();
        let mut i: usize = 0;
        while i < n
            invariant
                self.well_formed(),
                n == self.size_spec(),
                i <= n,
                forall|ii: int, jj: int|
                    0 <= ii < i && 0 <= jj < n
                        ==> lo <= #[trigger] self.matrix()[ii][jj] <= hi,
            decreases n - i,
        {
            let mut j: usize = 0;
            while j < n
                invariant
                    self.well_formed(),
                    n == self.size_spec(),
                    i < n,
                    j <= n,
                    forall|jj: int|
                        0 <= jj < j ==> lo <= #[trigger] self.matrix()[i as int][jj] <= hi,
                decreases n - j,
            {
                proof {
                    lemma_grid(self.rows@);
                    assert(self.matrix()[i as int] == self.rows@[i as int]@);
                }
                let e = self.rows[i][j];
                if e < lo || e > hi {
                    assert(!(lo <= self.matrix()[i as int][j as int] <= hi));
                    return false;
                }
                j += 1;
            }
            i += 1;
        }
        true
    }
}

} // verus!
