//! Public entry points: [`solve`] and [`solve_batch`], convenience wrappers
//! around the persistent solver.

pub mod laws;
pub mod meaning;

use vstd::prelude::*;

use crate::binary64::Binary64;
use crate::categories::CategoryArray;
use crate::config::LsmrOptions;
use crate::error::{BuildError, WithinError};
use crate::schwarz_precond::error::SolveError;
use crate::schwarz_precond::local_solve::LocalSolver;
use crate::solver::{PreconditionerInput, Solver, SolverKit};

verus! {

/// Common solve output for all orchestration entry points.
#[derive(Debug, Clone)]
#[must_use]
pub struct SolveResult<T> {
    /// Fixed-effect coefficients (length = total unknowns across all factors).
    pub x: Vec<T>,
    /// Demeaned response: `y - D x` (length = number of observations).
    pub demeaned: Vec<T>,
    /// Whether the iterative solver converged within `maxiter` iterations.
    pub converged: bool,
    /// Number of iterations used.
    pub iterations: usize,
    /// Final relative residual norm `|r| / |b|`.
    pub residual: T,
    /// Wall-clock time of the iterative method, in seconds.
    pub time_solve: T,
}

/// Result of a batch solve across multiple responses.
#[derive(Debug, Clone)]
pub struct BatchSolveResult<T> {
    /// All coefficient vectors concatenated.
    pub x: Vec<T>,
    /// All demeaned responses concatenated.
    pub demeaned: Vec<T>,
    /// Per-response convergence flags.
    pub converged: Vec<bool>,
    /// Per-response iteration counts.
    pub iterations: Vec<usize>,
    /// Per-response final relative residual norms.
    pub residual: Vec<T>,
    /// Per-response times of the iterative method, in seconds.
    pub time_solve: Vec<T>,
    /// Number of coefficients per response.
    pub n_dofs: usize,
    /// Number of observations per response.
    pub n_obs: usize,
}

/// Entries `i * n .. (i + 1) * n`.
fn block<T>(values: &Vec<T>, i: usize, n: usize) -> (slice: &[T])
    requires
        (i + 1) * n <= values@.len(),
    ensures
        slice@ == values@.subrange(i * n, (i + 1) * n),
{
    let len: usize = values.len();
    proof {
        assert((i + 1) * n == i * n + n) by (nonlinear_arith);
        assert(0 <= i * n) by (nonlinear_arith);
        if n > 0 {
            assert(i < len) by (nonlinear_arith)
                requires
                    (i + 1) * n <= len,
                    n > 0,
            ;
        }
    }
    let start: usize = i * n;
    let end: usize = start + n;
    &values.as_slice()[start..end]
}

impl<T> BatchSolveResult<T> {
    /// Coefficient vector for the `i`-th response.
    pub fn x(&self, i: usize) -> (slice: &[T])
        requires
            (i + 1) * self.n_dofs <= self.x@.len(),
        ensures
            slice@ == self.x@.subrange(i * self.n_dofs, (i + 1) * self.n_dofs),
    {
        block(&self.x, i, self.n_dofs)
    }

    /// Demeaned response for the `i`-th response.
    pub fn demeaned(&self, i: usize) -> (slice: &[T])
        requires
            (i + 1) * self.n_obs <= self.demeaned@.len(),
        ensures
            slice@ == self.demeaned@.subrange(i * self.n_obs, (i + 1) * self.n_obs),
    {
        block(&self.demeaned, i, self.n_obs)
    }
}

/// The coefficient vectors of the results.
pub open spec fn coefficient_lists<T>(results: Seq<SolveResult<T>>) -> Seq<Seq<T>> {
    Seq::new(results.len(), |i: int| results[i].x@)
}

/// The demeaned responses of the results.
pub open spec fn demeaned_lists<T>(results: Seq<SolveResult<T>>) -> Seq<Seq<T>> {
    Seq::new(results.len(), |i: int| results[i].demeaned@)
}

/// `batch` puts the results side by side.
pub open spec fn is_batch_of<T>(results: Seq<SolveResult<T>>, batch: BatchSolveResult<T>) -> bool {
    &&& batch.x@ == crate::concat::concat_all(coefficient_lists(results))
    &&& batch.demeaned@ == crate::concat::concat_all(demeaned_lists(results))
    &&& batch.converged@ == Seq::new(results.len(), |i: int| results[i].converged)
    &&& batch.iterations@ == Seq::new(results.len(), |i: int| results[i].iterations)
    &&& batch.residual@ == Seq::new(results.len(), |i: int| results[i].residual)
    &&& batch.time_solve@ == Seq::new(results.len(), |i: int| results[i].time_solve)
}

/// One more result adds one more list of each kind.
pub proof fn lemma_lists_push<T>(results: Seq<SolveResult<T>>, result: SolveResult<T>)
    ensures
        crate::concat::concat_all(coefficient_lists(results.push(result)))
            == crate::concat::concat_all(coefficient_lists(results)) + result.x@,
        crate::concat::concat_all(demeaned_lists(results.push(result)))
            == crate::concat::concat_all(demeaned_lists(results)) + result.demeaned@,
{
    let longer = results.push(result);
    assert(coefficient_lists(longer).drop_last() =~= coefficient_lists(results));
    assert(demeaned_lists(longer).drop_last() =~= demeaned_lists(results));
}

/// Column `i` of a batch is the `i`-th result.
pub proof fn law_batch_columns<T>(
    results: Seq<SolveResult<T>>,
    batch: BatchSolveResult<T>,
    i: int,
)
    requires
        is_batch_of(results, batch),
        forall|k: int|
            0 <= k < results.len() ==> (#[trigger] results[k]).x@.len() == batch.n_dofs
                && results[k].demeaned@.len() == batch.n_obs,
        0 <= i < results.len(),
    ensures
        (i + 1) * batch.n_dofs <= batch.x@.len(),
        (i + 1) * batch.n_obs <= batch.demeaned@.len(),
        batch.x@.subrange(i * batch.n_dofs, (i + 1) * batch.n_dofs) == results[i].x@,
        batch.demeaned@.subrange(i * batch.n_obs, (i + 1) * batch.n_obs) == results[i].demeaned@,
        batch.converged@[i] == results[i].converged,
        batch.iterations@[i] == results[i].iterations,
        batch.residual@[i] == results[i].residual,
        batch.time_solve@[i] == results[i].time_solve,
{
    crate::concat::law_concat_in_blocks(coefficient_lists(results), batch.n_dofs as nat, i);
    crate::concat::law_concat_in_blocks(demeaned_lists(results), batch.n_obs as nat, i);
}

// ---------------------------------------------------------------------------
// High-level entry points
// ---------------------------------------------------------------------------

/// The result of a solve, or its failure as an error of the library.
pub open spec fn is_lifted<R>(inner: Result<R, SolveError>, result: Result<R, WithinError>) -> bool {
    result == match inner {
        Ok(found) => Ok::<R, WithinError>(found),
        Err(e) => Err::<R, WithinError>(WithinError::Solve(e)),
    }
}

/// What solving for one response on a freshly built solver gives.
pub open spec fn single_outcome<T: Copy + Send + Sync, S: LocalSolver<T>, K: SolverKit<T, S>>(
    built: Result<Solver<'static, T, S, K>, BuildError>,
    y: Seq<T>,
    lsmr: &LsmrOptions,
    result: Result<SolveResult<T>, WithinError>,
) -> bool {
    match built {
        Err(e) => result == Err::<SolveResult<T>, WithinError>(WithinError::Build(e)),
        Ok(solver) => exists|inner: Result<SolveResult<T>, SolveError>| #[trigger]
            crate::solver::solve_outcome(solver, y, lsmr, inner) && is_lifted(inner, result),
    }
}

/// What solving for many responses on a freshly built solver gives.
pub open spec fn many_outcome<T: Copy + Send + Sync, S: LocalSolver<T>, K: SolverKit<T, S>>(
    built: Result<Solver<'static, T, S, K>, BuildError>,
    ys: Seq<&[T]>,
    lsmr: &LsmrOptions,
    result: Result<BatchSolveResult<T>, WithinError>,
) -> bool {
    match built {
        Err(e) => result == Err::<BatchSolveResult<T>, WithinError>(WithinError::Build(e)),
        Ok(solver) => exists|inner: Result<BatchSolveResult<T>, SolveError>| #[trigger]
            crate::solver::batch_outcome(solver, ys, lsmr, inner) && is_lifted(inner, result),
    }
}

/// What solving for one response on raw categories gives.
pub open spec fn call_outcome<
    T: Copy + Send + Sync,
    S: LocalSolver<T>,
    K: SolverKit<T, S>,
    I: Into<PreconditionerInput<T, S>>,
>(
    kit: K,
    categories: &CategoryArray,
    weights: Option<Seq<Binary64>>,
    preconditioner: I,
    y: Seq<T>,
    lsmr: &LsmrOptions,
    result: Result<SolveResult<T>, WithinError>,
) -> bool {
    exists|built: Result<Solver<'static, T, S, K>, BuildError>| #[trigger]
        crate::solver::new_outcome(kit, categories, weights, preconditioner, built)
            && single_outcome(built, y, lsmr, result)
}

/// What solving for many responses on raw categories gives.
pub open spec fn batch_call_outcome<
    T: Copy + Send + Sync,
    S: LocalSolver<T>,
    K: SolverKit<T, S>,
    I: Into<PreconditionerInput<T, S>>,
>(
    kit: K,
    categories: &CategoryArray,
    weights: Option<Seq<Binary64>>,
    preconditioner: I,
    ys: Seq<&[T]>,
    lsmr: &LsmrOptions,
    result: Result<BatchSolveResult<T>, WithinError>,
) -> bool {
    exists|built: Result<Solver<'static, T, S, K>, BuildError>| #[trigger]
        crate::solver::new_outcome(kit, categories, weights, preconditioner, built)
            && many_outcome(built, ys, lsmr, result)
}

/// Solve fixed-effects least squares from raw category data.
///
/// `categories` has one row per observation and one column per factor. Levels
/// must be `0..max_level` per factor; the number of levels is inferred. `y` is
/// the response vector.
///
/// `preconditioner` accepts the same input shapes as [`Solver::new`].
///
/// This is a convenience wrapper around [`Solver::new`] and [`Solver::solve`].
pub fn solve<
    T: Copy + Send + Sync,
    S: LocalSolver<T> + Send + Sync,
    K: SolverKit<T, S>,
    I: Into<PreconditionerInput<T, S>>,
>(
    categories: &CategoryArray,
    y: &[T],
    weights: Option<Vec<Binary64>>,
    lsmr: &LsmrOptions,
    preconditioner: I,
    kit: K,
) -> (result: Result<SolveResult<T>, WithinError>)
    ensures
        call_outcome(
            kit,
            categories,
            crate::operator::schwarz::optional_vec(weights),
            preconditioner,
            y@,
            lsmr,
            result,
        ),
{
    let built: Result<Solver<'static, T, S, K>, BuildError> = Solver::new(
        categories,
        weights,
        preconditioner,
        kit,
    );
    let ghost found = built;
    let solver: Solver<'static, T, S, K> = match built {
        Err(e) => {
            let result: Result<SolveResult<T>, WithinError> = Err(WithinError::Build(e));
            assert(single_outcome(found, y@, lsmr, result));
            return result;
        },
        Ok(solver) => solver,
    };
    let inner: Result<SolveResult<T>, SolveError> = solver.solve(y, lsmr);
    assert(crate::solver::solve_outcome(solver, y@, lsmr, inner));
    let ghost answer = inner;
    let result: Result<SolveResult<T>, WithinError> = match inner {
        Err(e) => Err(WithinError::Solve(e)),
        Ok(solved) => Ok(solved),
    };
    assert(is_lifted(answer, result));
    assert(single_outcome(found, y@, lsmr, result));
    result
}

/// Solve fixed-effects least squares for multiple response vectors.
///
/// Same as [`solve`] but solves all responses in parallel, reusing the
/// preconditioner across all solves.
pub fn solve_batch<
    T: Copy + Send + Sync,
    S: LocalSolver<T> + Send + Sync,
    K: SolverKit<T, S>,
    I: Into<PreconditionerInput<T, S>>,
>(
    categories: &CategoryArray,
    ys: &[&[T]],
    weights: Option<Vec<Binary64>>,
    lsmr: &LsmrOptions,
    preconditioner: I,
    kit: K,
) -> (result: Result<BatchSolveResult<T>, WithinError>)
    ensures
        batch_call_outcome(
            kit,
            categories,
            crate::operator::schwarz::optional_vec(weights),
            preconditioner,
            ys@,
            lsmr,
            result,
        ),
        result matches Ok(batch) ==> batch.x@.len() == ys@.len() * batch.n_dofs
            && batch.demeaned@.len() == ys@.len() * batch.n_obs,
{
    let built: Result<Solver<'static, T, S, K>, BuildError> = Solver::new(
        categories,
        weights,
        preconditioner,
        kit,
    );
    let ghost found = built;
    let solver: Solver<'static, T, S, K> = match built {
        Err(e) => {
            let result: Result<BatchSolveResult<T>, WithinError> = Err(WithinError::Build(e));
            assert(many_outcome(found, ys@, lsmr, result));
            return result;
        },
        Ok(solver) => solver,
    };
    let inner: Result<BatchSolveResult<T>, SolveError> = solver.solve_batch(ys, lsmr);
    assert(crate::solver::batch_outcome(solver, ys@, lsmr, inner));
    let ghost answer = inner;
    let result: Result<BatchSolveResult<T>, WithinError> = match inner {
        Err(e) => Err(WithinError::Solve(e)),
        Ok(batch) => Ok(batch),
    };
    assert(is_lifted(answer, result));
    assert(many_outcome(found, ys@, lsmr, result));
    result
}

} // verus!
