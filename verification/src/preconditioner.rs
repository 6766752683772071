//! Preconditioners: approximate solves of `M z = r` for an `M` that is easy
//! to invert.

use vstd::prelude::*;
use crate::arithmetic::{deterministic, total, yields, Operation};
use crate::binary64::{is_zero, zero, ONE};
use crate::error::Error;
use crate::vector::Vector;
use crate::rows::{find_column, stored};
use crate::sparse_symmetric_matrix::SparseSymmetricMatrix;

verus! {

/// An approximate inverse of the matrix.
#[derive(Debug, Clone, PartialEq, Eq)]
pub enum Preconditioner {
    /// `M` is the identity: the residual is its own correction.
    Identity,
    /// `M` is the diagonal of the matrix. Holds the reciprocal of every
    /// diagonal coefficient.
    Diagonal { reciprocals: Vec<u64> },
}

/// `v` is stored on the diagonal of row `i` and is not zero.
pub open spec fn pivot(rows: Seq<Seq<(usize, u64)>>, i: int, v: u64) -> bool {
    stored(rows, i, i, v) && !zero(v)
}

/// Row `i` has a coefficient on the diagonal that is not zero.
pub open spec fn has_pivot(rows: Seq<Seq<(usize, u64)>>, i: int) -> bool {
    exists|v: u64| pivot(rows, i, v)
}

/// The error names the first row without a usable diagonal coefficient.
pub open spec fn singular_at(rows: Seq<Seq<(usize, u64)>>, e: Error) -> bool {
    e matches Error::SingularPreconditioner { row } && row < rows.len() && !has_pivot(
        rows,
        row as int,
    ) && forall|i: int| 0 <= i < row ==> has_pivot(rows, i)
}

/// The preconditioner can be applied to vectors of length `n`.
pub open spec fn fits(pre: Preconditioner, n: nat) -> bool {
    match pre {
        Preconditioner::Identity => true,
        Preconditioner::Diagonal { reciprocals } => reciprocals@.len() == n,
    }
}

/// `z` is the correction that the preconditioner gives for the residual `r`.
pub open spec fn preconditioned_is<A: Fn(Operation) -> u64>(
    arith: A,
    pre: Preconditioner,
    r: Seq<u64>,
    z: Seq<u64>,
) -> bool {
    match pre {
        Preconditioner::Identity => z == r,
        Preconditioner::Diagonal { reciprocals } => z.len() == r.len() && forall|i: int|
            0 <= i < r.len() ==> yields(
                arith,
                Operation::Mul { a: reciprocals@[i], b: r[i] },
                #[trigger] z[i],
            ),
    }
}

/// Under a deterministic arithmetic a residual has one correction.
pub proof fn lemma_preconditioned_deterministic<A: Fn(Operation) -> u64>(
    arith: A,
    pre: Preconditioner,
    r: Seq<u64>,
    y: Seq<u64>,
    z: Seq<u64>,
)
    requires
        deterministic(arith),
        preconditioned_is(arith, pre, r, y),
        preconditioned_is(arith, pre, r, z),
    ensures
        y == z,
{
    match pre {
        Preconditioner::Identity => {},
        Preconditioner::Diagonal { reciprocals } => {
            assert forall|i: int| 0 <= i < y.len() implies y[i] == z[i] by {
                assert(yields(arith, Operation::Mul { a: reciprocals@[i], b: r[i] }, y[i]));
                assert(yields(arith, Operation::Mul { a: reciprocals@[i], b: r[i] }, z[i]));
            }
            assert(y =~= z);
        },
    }
}

impl Preconditioner {
    /// The preconditioner that changes nothing.
    pub fn identity() -> (pre: Preconditioner)
        ensures
            pre == Preconditioner::Identity,
    {
        Preconditioner::Identity
    }

    /// The Jacobi preconditioner of a matrix: the reciprocal of every
    /// diagonal coefficient. Refuses a matrix with a row whose diagonal
    /// coefficient is missing or zero, naming the first such row.
    pub fn jacobi<A: Fn(Operation) -> u64>(matrix: &SparseSymmetricMatrix, arith: &A) -> (out:
        Result<Preconditioner, Error>)
        requires
            matrix.well_formed(),
            total(*arith),
        ensures
            match out {
                Ok(pre) => pre matches Preconditioner::Diagonal { reciprocals }
                    && reciprocals@.len() == matrix.dimension() && forall|i: int|
                    0 <= i < reciprocals@.len() ==> reciprocal_of_pivot(
                        *arith,
                        matrix@,
                        i,
                        #[trigger] reciprocals@[i],
                    ),
                Err(e) => singular_at(matrix@, e),
            },
    {
        let d: Vec<u64> = match diagonal(matrix) {
            Ok(d) => d,
            Err(e) => {
                return Err(e);
            },
        };
        let mut reciprocals: Vec<u64> = Vec::with_capacity(d.len());
        let mut i: usize = 0;
        while i < d.len()
            invariant
                i <= d@.len(),
                total(*arith),
                reciprocals@.len() == i,
                forall|k: int| 0 <= k < d@.len() ==> pivot(matrix@, k, #[trigger] d@[k]),
                forall|k: int|
                    0 <= k < i ==> reciprocal_of_pivot(
                        *arith,
                        matrix@,
                        k,
                        #[trigger] reciprocals@[k],
                    ),
            decreases d@.len() - i,
        {
            let r: u64 = arith(Operation::Div { a: ONE, b: d[i] });
            proof {
                assert(pivot(matrix@, i as int, d@[i as int]));
                assert(yields(*arith, Operation::Div { a: ONE, b: d@[i as int] }, r));
            }
            reciprocals.push(r);
            i = i + 1;
        }
        Ok(Preconditioner::Diagonal { reciprocals })
    }

    /// Tells whether the preconditioner can be applied to vectors of length
    /// `n`.
    pub fn fits_length(&self, n: usize) -> (r: bool)
        ensures
            r == fits(*self, n as nat),
    {
        match self {
            Preconditioner::Identity => true,
            Preconditioner::Diagonal { reciprocals } => reciprocals.len() == n,
        }
    }

    /// The correction for a residual of fitting length.
    pub(crate) fn correct<A: Fn(Operation) -> u64>(&self, residual: &Vector, arith: &A) -> (z:
        Vector)
        requires
            total(*arith),
            fits(*self, residual@.len()),
        ensures
            preconditioned_is(*arith, *self, residual@, z@),
    {
        match self {
            Preconditioner::Identity => residual.copy(),
            Preconditioner::Diagonal { reciprocals } => {
                let n: usize = residual.len();
                let mut bits: Vec<u64> = Vec::with_capacity(n);
                let mut i: usize = 0;
                while i < n
                    invariant
                        i <= n,
                        n == residual@.len(),
                        n == reciprocals@.len(),
                        total(*arith),
                        bits@.len() == i,
                        forall|k: int|
                            0 <= k < i ==> yields(
                                *arith,
                                Operation::Mul { a: reciprocals@[k], b: residual@[k] },
                                #[trigger] bits@[k],
                            ),
                    decreases n - i,
                {
                    let b: u64 = arith(Operation::Mul { a: reciprocals[i], b: residual.0[i] });
                    bits.push(b);
                    i = i + 1;
                }
                Vector(bits)
            },
        }
    }

    /// Gives the correction for a residual: the residual itself, or every
    /// component scaled by the reciprocal of its diagonal coefficient.
    pub fn apply<A: Fn(Operation) -> u64>(&self, residual: &Vector, arith: &A) -> (out: Result<
        Vector,
        Error,
    >)
        requires
            total(*arith),
        ensures
            match out {
                Ok(z) => fits(*self, residual@.len()) && preconditioned_is(
                    *arith,
                    *self,
                    residual@,
                    z@,
                ),
                Err(e) => e == Error::DimensionMismatch && !fits(*self, residual@.len()),
            },
    {
        if !self.fits_length(residual.len()) {
            return Err(Error::DimensionMismatch);
        }
        Ok(self.correct(residual, arith))
    }
}

/// `r` is the reciprocal of the diagonal coefficient of row `i`, which is
/// not zero.
pub open spec fn reciprocal_of_pivot<A: Fn(Operation) -> u64>(
    arith: A,
    rows: Seq<Seq<(usize, u64)>>,
    i: int,
    r: u64,
) -> bool {
    exists|d: u64| pivot(rows, i, d) && #[trigger] yields(arith, Operation::Div { a: ONE, b: d }, r)
}

/// Reads the diagonal of the matrix.
///
/// Succeeds exactly when every row has a diagonal coefficient that is not
/// zero; otherwise names the first row that has none.
pub fn diagonal(matrix: &SparseSymmetricMatrix) -> (out: Result<Vec<u64>, Error>)
    requires
        matrix.well_formed(),
    ensures
        match out {
            Ok(d) => d@.len() == matrix.dimension() && forall|i: int|
                0 <= i < d@.len() ==> pivot(matrix@, i, #[trigger] d@[i]),
            Err(e) => singular_at(matrix@, e),
        },
{
    let n: usize = matrix.indices.len();
    let mut d: Vec<u64> = Vec::with_capacity(n);
    let mut i: usize = 0;
    while i < n
        invariant
            i <= n,
            n == matrix.indices@.len(),
            matrix.well_formed(),
            d@.len() == i,
            forall|r: int| 0 <= r < i ==> pivot(matrix@, r, #[trigger] d@[r]),
        decreases n - i,
    {
        let ghost row = matrix@[i as int];
        proof {
            assert(matrix.values@[i as int]@.len() == matrix.indices@[i as int]@.len());
            assert(crate::rows::increasing(row));
        }
        match find_column(&matrix.indices[i], i) {
            Some(t) => {
                let v: u64 = matrix.values[i][t];
                proof {
                    assert(row[t as int] == (i, v));
                    assert(stored(matrix@, i as int, i as int, v));
                }
                if is_zero(v) {
                    proof {
                        assert forall|w: u64| !pivot(matrix@, i as int, w) by {
                            if stored(matrix@, i as int, i as int, w) {
                                let u = choose|u: int|
                                    0 <= u < row.len() && (#[trigger] row[u]).0 == i && row[u].1
                                        == w;
                                if u < t {
                                    assert(row[u].0 < row[t as int].0);
                                } else if t < u {
                                    assert(row[t as int].0 < row[u].0);
                                }
                            }
                        }
                        assert forall|r: int| 0 <= r < i implies has_pivot(matrix@, r) by {
                            assert(pivot(matrix@, r, d@[r]));
                        }
                    }
                    return Err(Error::SingularPreconditioner { row: i });
                }
                d.push(v);
            },
            None => {
                proof {
                    assert forall|w: u64| !pivot(matrix@, i as int, w) by {
                        if stored(matrix@, i as int, i as int, w) {
                            let u = choose|u: int|
                                0 <= u < row.len() && (#[trigger] row[u]).0 == i && row[u].1 == w;
                            assert(matrix.indices@[i as int]@[u] == i);
                        }
                    }
                    assert forall|r: int| 0 <= r < i implies has_pivot(matrix@, r) by {
                        assert(pivot(matrix@, r, d@[r]));
                    }
                }
                return Err(Error::SingularPreconditioner { row: i });
            },
        }
        i = i + 1;
    }
    Ok(d)
}

} // verus!
