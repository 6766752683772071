//! The preconditioned conjugate-gradient iteration.
//!
//! The contract of [`solve`] is the recurrence itself, stated as a relation
//! between the patterns that the caller's arithmetic may answer: which
//! operations are performed on what, in which order, and which observation
//! ends the iteration with which verdict.

use vstd::prelude::*;
use crate::arithmetic::{deterministic, total, yields, Operation};
use crate::binary64::{below, is_below, is_negligible, negate, negated, negligible};
use crate::error::Error;
use crate::preconditioner::{
    fits, lemma_preconditioned_deterministic, preconditioned_is, Preconditioner,
};
use crate::sparse_row_matrix::{
    all_finite, lemma_product_deterministic, product_is, SparseRowMatrix,
};
use crate::vector::{
    dot_is, lemma_dot_deterministic, lemma_norm_deterministic, lemma_scaled_sum_deterministic,
    norm_is, scaled_sum_is, zeros, Vector,
};

verus! {

/// How an iteration ended, and the best iterate it produced.
#[derive(Debug, Clone, PartialEq, Eq)]
pub struct SolverResult {
    pub completed: bool,
    pub iterations: usize,
    pub best_guess: Vector,
}

/// What is solved: the rows of the matrix, the preconditioner, the
/// right-hand side and the tolerance on the norm of the residual.
pub struct Problem {
    pub rows: Seq<Seq<(usize, u64)>>,
    pub pre: Preconditioner,
    pub rhs: Seq<u64>,
    pub tolerance: u64,
}

/// The iteration between two steps: the iterate `x`, its residual `r`, the
/// search direction `p`, and the product `rz` of the residual with its
/// correction.
pub struct Iterate {
    pub x: Seq<u64>,
    pub r: Seq<u64>,
    pub p: Seq<u64>,
    pub rz: u64,
}

/// What the first half of a step computes: the image `q` of the search
/// direction, the denominator, the step length, the moved iterate and
/// residual, and the norm of that residual.
pub struct Move {
    pub q: Seq<u64>,
    pub denom: u64,
    pub alpha: u64,
    pub x: Seq<u64>,
    pub r: Seq<u64>,
    pub norm: u64,
}

/// The norm of the right-hand side, which is the residual of the zero
/// vector, is below the tolerance.
pub open spec fn converges_at_once<A: Fn(Operation) -> u64>(arith: A, pb: Problem) -> bool {
    exists|norm: u64| #[trigger] norm_is(arith, pb.rhs, norm) && below(norm, pb.tolerance)
}

/// `s` is where the iteration begins: at the zero vector, with the
/// right-hand side as residual, not below the tolerance, and its correction
/// as first search direction.
pub open spec fn begins<A: Fn(Operation) -> u64>(arith: A, pb: Problem, s: Iterate) -> bool {
    &&& exists|norm: u64| #[trigger] norm_is(arith, pb.rhs, norm) && !below(norm, pb.tolerance)
    &&& s.x == zeros(pb.rhs.len())
    &&& s.r == pb.rhs
    &&& preconditioned_is(arith, pb.pre, s.r, s.p)
    &&& dot_is(arith, s.r, s.p, s.rz)
}

/// `q` is the image of the search direction under the matrix and `denom`
/// its product with the search direction.
pub open spec fn probes<A: Fn(Operation) -> u64>(
    arith: A,
    pb: Problem,
    s: Iterate,
    q: Seq<u64>,
    denom: u64,
) -> bool {
    product_is(arith, pb.rows, s.p, q) && dot_is(arith, s.p, q, denom)
}

/// `m` is the first half of the step from `s`: the denominator is not
/// negligible, the step length is `rz / denom`, the iterate moves along the
/// search direction and the residual against its image.
pub open spec fn moves<A: Fn(Operation) -> u64>(arith: A, pb: Problem, s: Iterate, m: Move) -> bool {
    &&& probes(arith, pb, s, m.q, m.denom)
    &&& !negligible(m.denom)
    &&& yields(arith, Operation::Div { a: s.rz, b: m.denom }, m.alpha)
    &&& scaled_sum_is(arith, s.x, m.alpha, s.p, m.x)
    &&& scaled_sum_is(arith, s.r, negated(m.alpha), m.q, m.r)
    &&& norm_is(arith, m.r, m.norm)
}

/// `next` is where the second half of a step leaves the iteration: with the
/// moved iterate and residual, and a search direction made of the correction
/// `z` of the residual and, `beta` times, the old one.
pub open spec fn turns<A: Fn(Operation) -> u64>(
    arith: A,
    pb: Problem,
    s: Iterate,
    m: Move,
    z: Seq<u64>,
    beta: u64,
    next: Iterate,
) -> bool {
    &&& preconditioned_is(arith, pb.pre, m.r, z)
    &&& dot_is(arith, m.r, z, next.rz)
    &&& yields(arith, Operation::Div { a: next.rz, b: s.rz }, beta)
    &&& scaled_sum_is(arith, z, beta, s.p, next.p)
    &&& next.x == m.x
    &&& next.r == m.r
}

/// A whole step leads from `s` to `next`: the moved residual is not below
/// the tolerance, so the iteration goes on.
pub open spec fn advances<A: Fn(Operation) -> u64>(
    arith: A,
    pb: Problem,
    s: Iterate,
    next: Iterate,
) -> bool {
    exists|m: Move, z: Seq<u64>, beta: u64|
        moves(arith, pb, s, m) && !below(m.norm, pb.tolerance) && #[trigger] turns(
            arith,
            pb,
            s,
            m,
            z,
            beta,
            next,
        )
}

/// `s` is where the iteration stands after `k` whole steps.
pub open spec fn reaches<A: Fn(Operation) -> u64>(arith: A, pb: Problem, k: nat, s: Iterate) -> bool
    decreases k,
{
    if k == 0 {
        begins(arith, pb, s)
    } else {
        exists|prev: Iterate|
            reaches(arith, pb, (k - 1) as nat, prev) && #[trigger] advances(arith, pb, prev, s)
    }
}

/// From `s` the iteration converges: the moved residual is below the
/// tolerance, and the moved iterate is the best guess.
pub open spec fn converges_from<A: Fn(Operation) -> u64>(
    arith: A,
    pb: Problem,
    s: Iterate,
    m: Move,
    best: Seq<u64>,
) -> bool {
    moves(arith, pb, s, m) && below(m.norm, pb.tolerance) && best == m.x
}

/// From `s` the iteration breaks down: the denominator is negligible, and
/// the iterate stays the best guess.
pub open spec fn breaks_from<A: Fn(Operation) -> u64>(
    arith: A,
    pb: Problem,
    s: Iterate,
    q: Seq<u64>,
    denom: u64,
    best: Seq<u64>,
) -> bool {
    probes(arith, pb, s, q, denom) && negligible(denom) && best == s.x
}

/// The iteration stops in the step that follows `k` whole steps: completed
/// if it converges there, not completed if it breaks down there.
pub open spec fn stops<A: Fn(Operation) -> u64>(
    arith: A,
    pb: Problem,
    k: nat,
    completed: bool,
    best: Seq<u64>,
) -> bool {
    if completed {
        exists|s: Iterate, m: Move|
            reaches(arith, pb, k, s) && #[trigger] converges_from(arith, pb, s, m, best)
    } else {
        exists|s: Iterate, q: Seq<u64>, denom: u64|
            reaches(arith, pb, k, s) && #[trigger] breaks_from(arith, pb, s, q, denom, best)
    }
}

/// The iteration takes all the steps it may, and `best` is its last iterate.
pub open spec fn exhausts<A: Fn(Operation) -> u64>(
    arith: A,
    pb: Problem,
    max: nat,
    best: Seq<u64>,
) -> bool {
    exists|s: Iterate| #[trigger] reaches(arith, pb, max, s) && best == s.x
}

/// The verdict of the iteration that may take `max` steps.
///
/// Completed with no step: the right-hand side is below the tolerance and
/// the zero vector is returned. Completed with `iterations` steps: the last
/// of them converged. Not completed with fewer than `max` steps: the step
/// after them broke down. Not completed with `max` steps: none of them
/// converged or broke down.
pub open spec fn solved<A: Fn(Operation) -> u64>(
    arith: A,
    pb: Problem,
    max: nat,
    completed: bool,
    iterations: nat,
    best: Seq<u64>,
) -> bool {
    if completed {
        if iterations == 0 {
            converges_at_once(arith, pb) && best == zeros(pb.rhs.len())
        } else {
            iterations <= max && stops(arith, pb, (iterations - 1) as nat, true, best)
        }
    } else {
        if iterations < max {
            stops(arith, pb, iterations, false, best)
        } else {
            iterations == max && exhausts(arith, pb, max, best)
        }
    }
}

/// Under a deterministic arithmetic the iteration begins in one place.
proof fn lemma_begins_unique<A: Fn(Operation) -> u64>(arith: A, pb: Problem, a: Iterate, b: Iterate)
    requires
        deterministic(arith),
        begins(arith, pb, a),
        begins(arith, pb, b),
    ensures
        a == b,
{
    lemma_preconditioned_deterministic(arith, pb.pre, pb.rhs, a.p, b.p);
    lemma_dot_deterministic(arith, a.r, a.p, a.rz, b.rz);
}

/// Under a deterministic arithmetic a search direction has one image and
/// one denominator.
proof fn lemma_probes_unique<A: Fn(Operation) -> u64>(
    arith: A,
    pb: Problem,
    s: Iterate,
    q1: Seq<u64>,
    d1: u64,
    q2: Seq<u64>,
    d2: u64,
)
    requires
        deterministic(arith),
        probes(arith, pb, s, q1, d1),
        probes(arith, pb, s, q2, d2),
    ensures
        q1 == q2,
        d1 == d2,
{
    lemma_product_deterministic(arith, pb.rows, s.p, q1, q2);
    lemma_dot_deterministic(arith, s.p, q1, d1, d2);
}

/// Under a deterministic arithmetic the first half of a step has one
/// result.
proof fn lemma_moves_unique<A: Fn(Operation) -> u64>(
    arith: A,
    pb: Problem,
    s: Iterate,
    m1: Move,
    m2: Move,
)
    requires
        deterministic(arith),
        moves(arith, pb, s, m1),
        moves(arith, pb, s, m2),
    ensures
        m1 == m2,
{
    lemma_probes_unique(arith, pb, s, m1.q, m1.denom, m2.q, m2.denom);
    assert(yields(arith, Operation::Div { a: s.rz, b: m1.denom }, m1.alpha));
    assert(yields(arith, Operation::Div { a: s.rz, b: m1.denom }, m2.alpha));
    lemma_scaled_sum_deterministic(arith, s.x, m1.alpha, s.p, m1.x, m2.x);
    lemma_scaled_sum_deterministic(arith, s.r, negated(m1.alpha), m1.q, m1.r, m2.r);
    lemma_norm_deterministic(arith, m1.r, m1.norm, m2.norm);
}

/// Under a deterministic arithmetic a whole step leads to one place.
proof fn lemma_advances_unique<A: Fn(Operation) -> u64>(
    arith: A,
    pb: Problem,
    s: Iterate,
    a: Iterate,
    b: Iterate,
)
    requires
        deterministic(arith),
        advances(arith, pb, s, a),
        advances(arith, pb, s, b),
    ensures
        a == b,
{
    let (m1, z1, beta1) = choose|m: Move, z: Seq<u64>, beta: u64|
        moves(arith, pb, s, m) && !below(m.norm, pb.tolerance) && #[trigger] turns(
            arith,
            pb,
            s,
            m,
            z,
            beta,
            a,
        );
    let (m2, z2, beta2) = choose|m: Move, z: Seq<u64>, beta: u64|
        moves(arith, pb, s, m) && !below(m.norm, pb.tolerance) && #[trigger] turns(
            arith,
            pb,
            s,
            m,
            z,
            beta,
            b,
        );
    lemma_moves_unique(arith, pb, s, m1, m2);
    lemma_preconditioned_deterministic(arith, pb.pre, m1.r, z1, z2);
    lemma_dot_deterministic(arith, m1.r, z1, a.rz, b.rz);
    assert(yields(arith, Operation::Div { a: a.rz, b: s.rz }, beta1));
    assert(yields(arith, Operation::Div { a: a.rz, b: s.rz }, beta2));
    lemma_scaled_sum_deterministic(arith, z1, beta1, s.p, a.p, b.p);
}

/// Under a deterministic arithmetic the iteration stands in one place after
/// `k` steps.
proof fn lemma_reaches_unique<A: Fn(Operation) -> u64>(
    arith: A,
    pb: Problem,
    k: nat,
    a: Iterate,
    b: Iterate,
)
    requires
        deterministic(arith),
        reaches(arith, pb, k, a),
        reaches(arith, pb, k, b),
    ensures
        a == b,
    decreases k,
{
    if k == 0 {
        lemma_begins_unique(arith, pb, a, b);
    } else {
        let pa = choose|prev: Iterate|
            reaches(arith, pb, (k - 1) as nat, prev) && #[trigger] advances(arith, pb, prev, a);
        let pc = choose|prev: Iterate|
            reaches(arith, pb, (k - 1) as nat, prev) && #[trigger] advances(arith, pb, prev, b);
        lemma_reaches_unique(arith, pb, (k - 1) as nat, pa, pc);
        lemma_advances_unique(arith, pb, pa, a, b);
    }
}

/// An iteration that stands somewhere after `later` steps stood somewhere
/// after every smaller number of steps.
proof fn lemma_reaches_earlier<A: Fn(Operation) -> u64>(
    arith: A,
    pb: Problem,
    later: nat,
    end: Iterate,
    k: nat,
) -> (s: Iterate)
    requires
        reaches(arith, pb, later, end),
        k <= later,
    ensures
        reaches(arith, pb, k, s),
    decreases later,
{
    if k == later {
        end
    } else {
        let prev = choose|prev: Iterate|
            reaches(arith, pb, (later - 1) as nat, prev) && #[trigger] advances(
                arith,
                pb,
                prev,
                end,
            );
        lemma_reaches_earlier(arith, pb, (later - 1) as nat, prev, k)
    }
}

/// Where the iteration stood when it stopped.
proof fn lemma_stops_reached<A: Fn(Operation) -> u64>(
    arith: A,
    pb: Problem,
    k: nat,
    completed: bool,
    best: Seq<u64>,
) -> (s: Iterate)
    requires
        stops(arith, pb, k, completed, best),
    ensures
        reaches(arith, pb, k, s),
{
    if completed {
        let (s, m) = choose|s: Iterate, m: Move|
            reaches(arith, pb, k, s) && #[trigger] converges_from(arith, pb, s, m, best);
        s
    } else {
        let (s, q, denom) = choose|s: Iterate, q: Seq<u64>, denom: u64|
            reaches(arith, pb, k, s) && #[trigger] breaks_from(arith, pb, s, q, denom, best);
        s
    }
}

/// Under a deterministic arithmetic an iteration that stops in a step does
/// not complete that step.
proof fn lemma_stop_is_final<A: Fn(Operation) -> u64>(
    arith: A,
    pb: Problem,
    k: nat,
    completed: bool,
    best: Seq<u64>,
    later: nat,
    end: Iterate,
)
    requires
        deterministic(arith),
        stops(arith, pb, k, completed, best),
        reaches(arith, pb, later, end),
    ensures
        later <= k,
{
    if later > k {
        let after = lemma_reaches_earlier(arith, pb, later, end, k + 1);
        let prev = choose|prev: Iterate|
            reaches(arith, pb, k, prev) && #[trigger] advances(arith, pb, prev, after);
        let (m, z, beta) = choose|m: Move, z: Seq<u64>, beta: u64|
            moves(arith, pb, prev, m) && !below(m.norm, pb.tolerance) && #[trigger] turns(
                arith,
                pb,
                prev,
                m,
                z,
                beta,
                after,
            );
        if completed {
            let (s, n) = choose|s: Iterate, n: Move|
                reaches(arith, pb, k, s) && #[trigger] converges_from(arith, pb, s, n, best);
            lemma_reaches_unique(arith, pb, k, s, prev);
            lemma_moves_unique(arith, pb, prev, m, n);
        } else {
            let (s, q, denom) = choose|s: Iterate, q: Seq<u64>, denom: u64|
                reaches(arith, pb, k, s) && #[trigger] breaks_from(arith, pb, s, q, denom, best);
            lemma_reaches_unique(arith, pb, k, s, prev);
            lemma_probes_unique(arith, pb, prev, m.q, m.denom, q, denom);
        }
    }
}

/// Under a deterministic arithmetic an iteration stops in a given step in
/// one way only.
proof fn lemma_stops_unique<A: Fn(Operation) -> u64>(
    arith: A,
    pb: Problem,
    k: nat,
    c1: bool,
    b1: Seq<u64>,
    c2: bool,
    b2: Seq<u64>,
)
    requires
        deterministic(arith),
        stops(arith, pb, k, c1, b1),
        stops(arith, pb, k, c2, b2),
    ensures
        c1 == c2,
        b1 == b2,
{
    if c1 {
        let (s1, m1) = choose|s: Iterate, m: Move|
            reaches(arith, pb, k, s) && #[trigger] converges_from(arith, pb, s, m, b1);
        if c2 {
            let (s2, m2) = choose|s: Iterate, m: Move|
                reaches(arith, pb, k, s) && #[trigger] converges_from(arith, pb, s, m, b2);
            lemma_reaches_unique(arith, pb, k, s1, s2);
            lemma_moves_unique(arith, pb, s1, m1, m2);
        } else {
            let (s2, q, denom) = choose|s: Iterate, q: Seq<u64>, denom: u64|
                reaches(arith, pb, k, s) && #[trigger] breaks_from(arith, pb, s, q, denom, b2);
            lemma_reaches_unique(arith, pb, k, s1, s2);
            lemma_probes_unique(arith, pb, s1, m1.q, m1.denom, q, denom);
        }
    } else {
        let (s1, q1, d1) = choose|s: Iterate, q: Seq<u64>, denom: u64|
            reaches(arith, pb, k, s) && #[trigger] breaks_from(arith, pb, s, q, denom, b1);
        if c2 {
            let (s2, m2) = choose|s: Iterate, m: Move|
                reaches(arith, pb, k, s) && #[trigger] converges_from(arith, pb, s, m, b2);
            lemma_reaches_unique(arith, pb, k, s1, s2);
            lemma_probes_unique(arith, pb, s1, m2.q, m2.denom, q1, d1);
        } else {
            let (s2, q2, d2) = choose|s: Iterate, q: Seq<u64>, denom: u64|
                reaches(arith, pb, k, s) && #[trigger] breaks_from(arith, pb, s, q, denom, b2);
            lemma_reaches_unique(arith, pb, k, s1, s2);
        }
    }
}

/// Under a deterministic arithmetic an iteration that has begun did not
/// converge at once.
proof fn lemma_begun_not_at_once<A: Fn(Operation) -> u64>(
    arith: A,
    pb: Problem,
    later: nat,
    end: Iterate,
)
    requires
        deterministic(arith),
        reaches(arith, pb, later, end),
    ensures
        !converges_at_once(arith, pb),
{
    if converges_at_once(arith, pb) {
        let s = lemma_reaches_earlier(arith, pb, later, end, 0);
        let small = choose|norm: u64| #[trigger]
            norm_is(arith, pb.rhs, norm) && below(norm, pb.tolerance);
        let large = choose|norm: u64| #[trigger]
            norm_is(arith, pb.rhs, norm) && !below(norm, pb.tolerance);
        lemma_norm_deterministic(arith, pb.rhs, small, large);
    }
}

/// The number of whole steps before the one in which a verdict fell.
pub open spec fn steps_before(completed: bool, iterations: nat) -> nat {
    if completed {
        (iterations - 1) as nat
    } else {
        iterations
    }
}

/// Solving is reproducible: under an arithmetic that has one answer to
/// every operation, a problem and a limit have one verdict, one count of
/// steps and one best guess, bit for bit.
pub proof fn lemma_solved_deterministic<A: Fn(Operation) -> u64>(
    arith: A,
    pb: Problem,
    max: nat,
    c1: bool,
    i1: nat,
    b1: Seq<u64>,
    c2: bool,
    i2: nat,
    b2: Seq<u64>,
)
    requires
        deterministic(arith),
        solved(arith, pb, max, c1, i1, b1),
        solved(arith, pb, max, c2, i2, b2),
    ensures
        c1 == c2,
        i1 == i2,
        b1 == b2,
{
    let once1 = c1 && i1 == 0;
    let once2 = c2 && i2 == 0;
    let full1 = !c1 && i1 >= max;
    let full2 = !c2 && i2 >= max;
    let k1 = steps_before(c1, i1);
    let k2 = steps_before(c2, i2);
    if once1 || once2 {
        if !once2 {
            if full2 {
                let s = choose|s: Iterate| #[trigger] reaches(arith, pb, max, s) && b2 == s.x;
                lemma_begun_not_at_once(arith, pb, max, s);
            } else {
                let s = lemma_stops_reached(arith, pb, k2, c2, b2);
                lemma_begun_not_at_once(arith, pb, k2, s);
            }
        }
        if !once1 {
            if full1 {
                let s = choose|s: Iterate| #[trigger] reaches(arith, pb, max, s) && b1 == s.x;
                lemma_begun_not_at_once(arith, pb, max, s);
            } else {
                let s = lemma_stops_reached(arith, pb, k1, c1, b1);
                lemma_begun_not_at_once(arith, pb, k1, s);
            }
        }
    } else if full1 && full2 {
        let s1 = choose|s: Iterate| #[trigger] reaches(arith, pb, max, s) && b1 == s.x;
        let s2 = choose|s: Iterate| #[trigger] reaches(arith, pb, max, s) && b2 == s.x;
        lemma_reaches_unique(arith, pb, max, s1, s2);
    } else if full1 {
        let s1 = choose|s: Iterate| #[trigger] reaches(arith, pb, max, s) && b1 == s.x;
        lemma_stop_is_final(arith, pb, k2, c2, b2, max, s1);
    } else if full2 {
        let s2 = choose|s: Iterate| #[trigger] reaches(arith, pb, max, s) && b2 == s.x;
        lemma_stop_is_final(arith, pb, k1, c1, b1, max, s2);
    } else {
        let s1 = lemma_stops_reached(arith, pb, k1, c1, b1);
        let s2 = lemma_stops_reached(arith, pb, k2, c2, b2);
        lemma_stop_is_final(arith, pb, k1, c1, b1, k2, s2);
        lemma_stop_is_final(arith, pb, k2, c2, b2, k1, s1);
        lemma_stops_unique(arith, pb, k1, c1, b1, c2, b2);
    }
}

/// Solves `A x = rhs` by preconditioned conjugate gradients, starting from
/// the zero vector.
///
/// The iteration ends as completed as soon as the norm of the residual is
/// below `tolerance`; it ends as not completed when the search direction
/// collapses or when `max_iterations` steps are done. The dimension of the
/// matrix is the customary value of `max_iterations`.
pub fn solve<A: Fn(Operation) -> u64>(
    matrix: &SparseRowMatrix,
    rhs: &Vector,
    preconditioner: &Preconditioner,
    tolerance: u64,
    max_iterations: usize,
    arith: &A,
) -> (out: Result<SolverResult, Error>)
    requires
        total(*arith),
    ensures
        match out {
            Ok(result) => {
                &&& rhs@.len() == matrix@.len()
                &&& fits(*preconditioner, rhs@.len())
                &&& all_finite(matrix@)
                &&& result.best_guess@.len() == rhs@.len()
                &&& result.iterations <= max_iterations
                &&& solved(
                    *arith,
                    Problem { rows: matrix@, pre: *preconditioner, rhs: rhs@, tolerance },
                    max_iterations as nat,
                    result.completed,
                    result.iterations as nat,
                    result.best_guess@,
                )
            },
            Err(e) => if rhs@.len() != matrix@.len() || !fits(*preconditioner, rhs@.len()) {
                e == Error::DimensionMismatch
            } else {
                e == Error::NonFinite && !all_finite(matrix@)
            },
        },
{
    let n: usize = matrix.len();
    if rhs.len() != n || !preconditioner.fits_length(n) {
        return Err(Error::DimensionMismatch);
    }
    if !matrix.is_valid() {
        return Err(Error::NonFinite);
    }
    let ghost pb = Problem { rows: matrix@, pre: *preconditioner, rhs: rhs@, tolerance };
    let mut x: Vector = Vector::zeros(n);
    let mut r: Vector = rhs.copy();
    let first_norm: u64 = r.norm(arith);
    if is_below(first_norm, tolerance) {
        proof {
            assert(norm_is(*arith, pb.rhs, first_norm));
        }
        return Ok(SolverResult { completed: true, iterations: 0, best_guess: x });
    }
    let mut p: Vector = preconditioner.correct(&r, arith);
    let mut rz: u64 = r.dot_same_length(&p, arith);
    let mut k: usize = 0;
    proof {
        assert(norm_is(*arith, pb.rhs, first_norm));
        assert(begins(*arith, pb, Iterate { x: x@, r: r@, p: p@, rz }));
    }
    while k < max_iterations
        invariant
            k <= max_iterations,
            total(*arith),
            n == matrix@.len(),
            pb == (Problem { rows: matrix@, pre: *preconditioner, rhs: rhs@, tolerance }),
            fits(*preconditioner, n as nat),
            all_finite(matrix@),
            x@.len() == n,
            r@.len() == n,
            p@.len() == n,
            rhs@.len() == n,
            reaches(*arith, pb, k as nat, Iterate { x: x@, r: r@, p: p@, rz }),
        decreases max_iterations - k,
    {
        let ghost s = Iterate { x: x@, r: r@, p: p@, rz };
        let q: Vector = matrix.multiply(&p, arith);
        let denom: u64 = p.dot_same_length(&q, arith);
        if is_negligible(denom) {
            proof {
                assert(breaks_from(*arith, pb, s, q@, denom, x@));
                assert(stops(*arith, pb, k as nat, false, x@));
            }
            return Ok(SolverResult { completed: false, iterations: k, best_guess: x });
        }
        let alpha: u64 = arith(Operation::Div { a: rz, b: denom });
        let moved: Vector = x.scaled_add_same_length(alpha, &p, arith);
        let residual: Vector = r.scaled_add_same_length(negate(alpha), &q, arith);
        let norm: u64 = residual.norm(arith);
        let ghost m = Move { q: q@, denom, alpha, x: moved@, r: residual@, norm };
        proof {
            assert(moves(*arith, pb, s, m));
        }
        if is_below(norm, tolerance) {
            proof {
                assert(converges_from(*arith, pb, s, m, moved@));
                assert(stops(*arith, pb, k as nat, true, moved@));
            }
            return Ok(SolverResult { completed: true, iterations: k + 1, best_guess: moved });
        }
        let z: Vector = preconditioner.correct(&residual, arith);
        let rz_next: u64 = residual.dot_same_length(&z, arith);
        let beta: u64 = arith(Operation::Div { a: rz_next, b: rz });
        let direction: Vector = z.scaled_add_same_length(beta, &p, arith);
        proof {
            let next = Iterate { x: moved@, r: residual@, p: direction@, rz: rz_next };
            assert(turns(*arith, pb, s, m, z@, beta, next));
            assert(advances(*arith, pb, s, next));
            assert(reaches(*arith, pb, (k + 1) as nat, next));
        }
        x = moved;
        r = residual;
        p = direction;
        rz = rz_next;
        k = k + 1;
    }
    Ok(SolverResult { completed: false, iterations: max_iterations, best_guess: x })
}

} // verus!
