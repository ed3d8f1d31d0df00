//! What solves have in common: of one response and of many, of a response and
//! its multiples, under weights and their multiples.

use vstd::prelude::*;

use crate::config::LsmrOptions;
use crate::orchestrate::{BatchSolveResult, SolveResult};
use crate::schwarz_precond::error::SolveError;
use crate::schwarz_precond::local_solve::LocalSolver;
use crate::solver::{Solver, SolverKit};

verus! {

// ---------------------------------------------------------------------------
// One response and many
// ---------------------------------------------------------------------------

/// The two results agree in everything but the time that they took.
pub open spec fn is_same_solution<T>(a: SolveResult<T>, b: SolveResult<T>) -> bool {
    &&& a.x@ == b.x@
    &&& a.demeaned@ == b.demeaned@
    &&& a.converged == b.converged
    &&& a.iterations == b.iterations
    &&& a.residual == b.residual
}

/// Every solve for `y` ends alike: all fail, or all have the same solution.
pub open spec fn is_determined<
    'a,
    T: Copy + Send + Sync,
    S: LocalSolver<T>,
    K: SolverKit<T, S>,
>(solver: Solver<'a, T, S, K>, y: Seq<T>, options: &LsmrOptions) -> bool {
    forall|a: Result<SolveResult<T>, SolveError>, b: Result<SolveResult<T>, SolveError>|
        #[trigger] crate::solver::solve_outcome(solver, y, options, a)
            && #[trigger] crate::solver::solve_outcome(solver, y, options, b) ==> match (a, b) {
            (Ok(first), Ok(second)) => is_same_solution(first, second),
            (Err(_), Err(_)) => true,
            _ => false,
        }
}

/// Column `i` of the batch is `solved`.
pub open spec fn is_column<T>(batch: BatchSolveResult<T>, i: int, solved: SolveResult<T>) -> bool {
    &&& (i + 1) * batch.n_dofs <= batch.x@.len()
    &&& (i + 1) * batch.n_obs <= batch.demeaned@.len()
    &&& batch.x@.subrange(i * batch.n_dofs, (i + 1) * batch.n_dofs) == solved.x@
    &&& batch.demeaned@.subrange(i * batch.n_obs, (i + 1) * batch.n_obs) == solved.demeaned@
    &&& i < batch.converged@.len() && batch.converged@[i] == solved.converged
    &&& i < batch.iterations@.len() && batch.iterations@[i] == solved.iterations
    &&& i < batch.residual@.len() && batch.residual@[i] == solved.residual
}

/// Every column of a batch is what a solve for its response alone may give.
pub proof fn law_batch_columns_are_solves<
    'a,
    T: Copy + Send + Sync,
    S: LocalSolver<T>,
    K: SolverKit<T, S>,
>(
    solver: Solver<'a, T, S, K>,
    ys: Seq<&[T]>,
    options: &LsmrOptions,
    batch: BatchSolveResult<T>,
    i: int,
)
    requires
        crate::solver::batch_outcome(solver, ys, options, Ok(batch)),
        0 <= i < ys.len(),
    ensures
        exists|solved: SolveResult<T>| #[trigger]
            is_column(batch, i, solved) && crate::solver::solve_outcome(
                solver,
                ys[i]@,
                options,
                Ok(solved),
            ),
{
    let results = choose|results: Seq<SolveResult<T>>|
        {
            &&& #[trigger] crate::solver::are_solves(solver, ys, options, results)
            &&& results.len() == ys.len()
            &&& crate::orchestrate::is_batch_of(results, batch)
            &&& batch.n_dofs == solver.spec_design().n_dofs
            &&& batch.n_obs == solver.spec_design().n_obs_input
        };
    crate::orchestrate::law_batch_columns(results, batch, i);
    assert(is_column(batch, i, results[i]));
}

/// Where solves are determined, solving for many responses and solving for each
/// alone agree: if every response alone has a solution, the batch holds exactly
/// these solutions, in order.
pub proof fn law_batch_agrees_with_single_solves<
    'a,
    T: Copy + Send + Sync,
    S: LocalSolver<T>,
    K: SolverKit<T, S>,
>(
    solver: Solver<'a, T, S, K>,
    ys: Seq<&[T]>,
    options: &LsmrOptions,
    singles: Seq<SolveResult<T>>,
    result: Result<BatchSolveResult<T>, SolveError>,
)
    requires
        crate::solver::batch_outcome(solver, ys, options, result),
        singles.len() == ys.len(),
        forall|i: int|
            0 <= i < ys.len() ==> is_determined(solver, #[trigger] ys[i]@, options)
                && crate::solver::solve_outcome(solver, ys[i]@, options, Ok(singles[i])),
    ensures
        result matches Ok(batch) && forall|i: int|
            0 <= i < ys.len() ==> is_column(batch, i, #[trigger] singles[i]),
{
    match result {
        Err(e) => {
            let results = choose|results: Seq<SolveResult<T>>|
                {
                    &&& #[trigger] crate::solver::are_solves(solver, ys, options, results)
                    &&& results.len() < ys.len()
                    &&& crate::solver::solve_outcome(
                        solver,
                        ys[results.len() as int]@,
                        options,
                        Err(e),
                    )
                };
            let k = results.len() as int;
            assert(is_determined(solver, ys[k]@, options));
            assert(crate::solver::solve_outcome(solver, ys[k]@, options, Ok(singles[k])));
        },
        Ok(batch) => {
            assert forall|i: int| 0 <= i < ys.len() implies is_column(
                batch,
                i,
                #[trigger] singles[i],
            ) by {
                law_batch_columns_are_solves(solver, ys, options, batch, i);
                let solved = choose|solved: SolveResult<T>| #[trigger]
                    is_column(batch, i, solved) && crate::solver::solve_outcome(
                        solver,
                        ys[i]@,
                        options,
                        Ok(solved),
                    );
                assert(is_determined(solver, ys[i]@, options));
                assert(crate::solver::solve_outcome(solver, ys[i]@, options, Ok(singles[i])));
                assert(is_same_solution(solved, singles[i]));
            }
        },
    }
}

/// Where solves are determined, a batch fails with the failure of the first
/// response that has none but failing solves.
pub proof fn law_batch_reports_the_first_failure<
    'a,
    T: Copy + Send + Sync,
    S: LocalSolver<T>,
    K: SolverKit<T, S>,
>(
    solver: Solver<'a, T, S, K>,
    ys: Seq<&[T]>,
    options: &LsmrOptions,
    k: int,
    singles: Seq<SolveResult<T>>,
    failure: SolveError,
    result: Result<BatchSolveResult<T>, SolveError>,
)
    requires
        crate::solver::batch_outcome(solver, ys, options, result),
        0 <= k < ys.len(),
        singles.len() == k,
        forall|i: int| 0 <= i <= k ==> is_determined(solver, #[trigger] ys[i]@, options),
        forall|i: int|
            0 <= i < k ==> crate::solver::solve_outcome(
                solver,
                ys[i]@,
                options,
                Ok(#[trigger] singles[i]),
            ),
        crate::solver::solve_outcome(solver, ys[k]@, options, Err(failure)),
    ensures
        result matches Err(e) && crate::solver::solve_outcome(solver, ys[k]@, options, Err(e)),
{
    assert(is_determined(solver, ys[k]@, options));
    match result {
        Err(e) => {
            let results = choose|results: Seq<SolveResult<T>>|
                {
                    &&& #[trigger] crate::solver::are_solves(solver, ys, options, results)
                    &&& results.len() < ys.len()
                    &&& crate::solver::solve_outcome(
                        solver,
                        ys[results.len() as int]@,
                        options,
                        Err(e),
                    )
                };
            let at = results.len() as int;
            if at < k {
                assert(is_determined(solver, ys[at]@, options));
                assert(crate::solver::solve_outcome(solver, ys[at]@, options, Ok(singles[at])));
            } else if at > k {
                assert(crate::solver::solve_outcome(solver, ys[k]@, options, Ok(results[k])));
            }
        },
        Ok(batch) => {
            law_batch_columns_are_solves(solver, ys, options, batch, k);
        },
    }
}

/// A batch of no responses is empty.
pub proof fn law_empty_batch<'a, T: Copy + Send + Sync, S: LocalSolver<T>, K: SolverKit<T, S>>(
    solver: Solver<'a, T, S, K>,
    options: &LsmrOptions,
    result: Result<BatchSolveResult<T>, SolveError>,
)
    requires
        crate::solver::batch_outcome(solver, Seq::empty(), options, result),
    ensures
        result matches Ok(batch) && batch.x@.len() == 0 && batch.demeaned@.len() == 0
            && batch.converged@.len() == 0 && batch.iterations@.len() == 0
            && batch.residual@.len() == 0 && batch.time_solve@.len() == 0 && batch.n_dofs
            == solver.spec_design().n_dofs && batch.n_obs == solver.spec_design().n_obs_input,
{
}

// ---------------------------------------------------------------------------
// Multiples
// ---------------------------------------------------------------------------

/// The values of the weights; without weights, every observation counts once.
pub open spec fn weight_values<T>(
    value: spec_fn(T) -> real,
    weights: Option<Vec<T>>,
    n_obs: nat,
) -> Seq<real> {
    match weights {
        None => Seq::new(n_obs, |k: int| 1real),
        Some(w) => crate::operator::fit::values_of(value, w@),
    }
}

/// The solve found a fit: its coefficients solve the normal equations of the response.
pub open spec fn is_fitted<'a, T: Copy + Send + Sync, S: LocalSolver<T>, K: SolverKit<T, S>>(
    solver: Solver<'a, T, S, K>,
    value: spec_fn(T) -> real,
    y: Seq<T>,
    solved: SolveResult<T>,
) -> bool {
    let design = solver.spec_design();
    crate::operator::fit::is_fit(
        design,
        weight_values(value, solver.spec_weights(), design.n_obs as nat),
        crate::operator::fit::values_of(value, crate::solver::internal_response(design, y)),
        crate::operator::fit::values_of(value, solved.x@),
    )
}

/// With exact arithmetic, what a solve returns at an observation of the fit is
/// the response less the fitted value.
pub proof fn law_solve_returns_residuals<
    'a,
    T: Copy + Send + Sync,
    S: LocalSolver<T>,
    K: SolverKit<T, S>,
>(
    solver: Solver<'a, T, S, K>,
    value: spec_fn(T) -> real,
    y: Seq<T>,
    options: &LsmrOptions,
    solved: SolveResult<T>,
    k: int,
)
    requires
        solver.spec_design().wf(),
        solver.spec_design().is_plain(),
        crate::arithmetic::is_exact(solver.spec_kit(), value),
        crate::solver::solve_outcome(solver, y, options, Ok(solved)),
        0 <= k < solver.spec_design().n_obs,
    ensures
        y.len() == solver.spec_design().n_obs_input,
        solved.x@.len() == solver.spec_design().n_dofs,
        value(solved.demeaned@[solver.spec_design().spec_caller_row(k)]) == value(
            y[solver.spec_design().spec_caller_row(k)],
        ) - crate::operator::fit::fitted(
            solver.spec_design(),
            crate::operator::fit::values_of(value, solved.x@),
            k,
        ),
{
    let design = solver.spec_design();
    let kit = solver.spec_kit();
    let inner = crate::solver::internal_response(design, y);
    assert(crate::solver::solves_response(solver, y, options, Ok(solved)));
    let (operator, b, answer) = choose|
        operator: crate::operator::design_operator::DesignOperator<'_, '_, T, K, K>,
        b: &[T],
        answer: Result<crate::solver::LsmrResult<T>, SolveError>,
    |
        #[trigger]
        crate::solver::is_solve_run(solver, y, options, operator, b, answer, Ok(solved));
    let found = answer->Ok_0;
    assert(crate::solver::is_solution(
        kit,
        design,
        operator.sqrt_weights,
        inner,
        b@,
        found,
        solved,
    ));
    let internal = choose|internal: Seq<T>|
        #![trigger crate::solver::is_demeaned(kit, design, inner, found.x@, internal)]
        {
            &&& crate::solver::is_demeaned(kit, design, inner, found.x@, internal)
            &&& crate::solver::is_returned(kit, design, internal, solved.demeaned@)
            &&& crate::solver::is_residual(
                kit,
                design,
                operator.sqrt_weights,
                b@,
                internal,
                solved.residual,
            )
        };
    crate::operator::fit::law_demeaned_is_residual(
        kit,
        design,
        value,
        inner,
        solved.x@,
        internal,
        k,
    );
    match design.rows {
        None => {},
        Some(rows) => {
            assert(solved.demeaned@[rows@[k] as int] == internal[k]);
        },
    }
}

/// Two solvers on the same model whose weights differ by the factor `factor`,
/// and two responses that differ by the factor `c`: with exact arithmetic, and
/// where both solves found a fit, what they return differs by the factor `c` at
/// every observation of positive weight.
pub proof fn law_solves_on_the_same_model<
    'a,
    T: Copy + Send + Sync,
    S: LocalSolver<T>,
    K: SolverKit<T, S>,
>(
    first: Solver<'a, T, S, K>,
    second: Solver<'a, T, S, K>,
    value: spec_fn(T) -> real,
    options: &LsmrOptions,
    factor: real,
    c: real,
    y: Seq<T>,
    multiple: Seq<T>,
    of_y: SolveResult<T>,
    of_multiple: SolveResult<T>,
    k: int,
)
    requires
        first.spec_design().wf(),
        first.spec_design().is_plain(),
        second.spec_design().wf(),
        second.spec_design().is_plain(),
        crate::operator::fit::is_same_model(first.spec_design(), second.spec_design()),
        crate::arithmetic::is_exact(first.spec_kit(), value),
        crate::arithmetic::is_exact(second.spec_kit(), value),
        factor > 0real,
        solver_weights(value, first).len() == first.spec_design().n_obs,
        forall|j: int|
            0 <= j < first.spec_design().n_obs ==> #[trigger] solver_weights(value, first)[j]
                >= 0real,
        solver_weights(value, second) == crate::operator::fit::scaled(
            factor,
            solver_weights(value, first),
        ),
        y.len() == multiple.len(),
        forall|j: int| 0 <= j < y.len() ==> value(#[trigger] multiple[j]) == c * value(y[j]),
        crate::solver::solve_outcome(first, y, options, Ok(of_y)),
        crate::solver::solve_outcome(second, multiple, options, Ok(of_multiple)),
        is_fitted(first, value, y, of_y),
        is_fitted(second, value, multiple, of_multiple),
        0 <= k < first.spec_design().n_obs,
        solver_weights(value, first)[k] > 0real,
    ensures
        value(of_multiple.demeaned@[first.spec_design().spec_caller_row(k)]) == c * value(
            of_y.demeaned@[first.spec_design().spec_caller_row(k)],
        ),
{
    let design = first.spec_design();
    let other = second.spec_design();
    let w = solver_weights(value, first);
    law_solve_returns_residuals(first, value, y, options, of_y, k);
    law_solve_returns_residuals(second, value, multiple, options, of_multiple, k);
    assert(other.spec_caller_row(k) == design.spec_caller_row(k));
    let v = crate::operator::fit::values_of(value, crate::solver::internal_response(design, y));
    let x = crate::operator::fit::values_of(value, of_y.x@);
    let z = crate::operator::fit::values_of(value, of_multiple.x@);
    let cv = crate::operator::fit::scaled(c, v);
    assert(crate::solver::internal_response(other, multiple)
        == crate::solver::internal_response(design, multiple));
    assert(crate::operator::fit::values_of(
        value,
        crate::solver::internal_response(design, multiple),
    ) =~= cv);
    crate::operator::fit::law_same_model_same_fits(
        design,
        other,
        crate::operator::fit::scaled(factor, w),
        cv,
        z,
    );
    crate::operator::fit::law_fit_ignores_the_scale_of_weights(design, w, cv, z, factor);
    crate::operator::fit::law_fit_scales_with_the_response(design, w, v, x, c);
    crate::operator::fit::law_fit_is_unique(
        design,
        w,
        cv,
        crate::operator::fit::scaled(c, x),
        z,
        k,
    );
    assert(crate::operator::fit::fitted(design, z, k) == crate::operator::fit::fitted(other, z, k));
}

/// The values of the solver's weights, one per observation of the fit.
pub open spec fn solver_weights<'a, T: Copy + Send + Sync, S: LocalSolver<T>, K: SolverKit<T, S>>(
    value: spec_fn(T) -> real,
    solver: Solver<'a, T, S, K>,
) -> Seq<real> {
    weight_values(value, solver.spec_weights(), solver.spec_design().n_obs as nat)
}

/// Residuals are linear in the response: with exact arithmetic, and where both
/// solves found a fit, solving for `c` times a response returns `c` times what
/// solving for the response returns, at every observation of positive weight.
pub proof fn law_solve_scales_with_the_response<
    'a,
    T: Copy + Send + Sync,
    S: LocalSolver<T>,
    K: SolverKit<T, S>,
>(
    solver: Solver<'a, T, S, K>,
    value: spec_fn(T) -> real,
    options: &LsmrOptions,
    c: real,
    y: Seq<T>,
    multiple: Seq<T>,
    of_y: SolveResult<T>,
    of_multiple: SolveResult<T>,
    k: int,
)
    requires
        solver.wf(),
        crate::arithmetic::is_exact(solver.spec_kit(), value),
        forall|j: int|
            0 <= j < solver.spec_design().n_obs ==> #[trigger] solver_weights(value, solver)[j]
                >= 0real,
        y.len() == multiple.len(),
        forall|j: int| 0 <= j < y.len() ==> value(#[trigger] multiple[j]) == c * value(y[j]),
        crate::solver::solve_outcome(solver, y, options, Ok(of_y)),
        crate::solver::solve_outcome(solver, multiple, options, Ok(of_multiple)),
        is_fitted(solver, value, y, of_y),
        is_fitted(solver, value, multiple, of_multiple),
        0 <= k < solver.spec_design().n_obs,
        solver_weights(value, solver)[k] > 0real,
    ensures
        value(of_multiple.demeaned@[solver.spec_design().spec_caller_row(k)]) == c * value(
            of_y.demeaned@[solver.spec_design().spec_caller_row(k)],
        ),
{
    let w = solver_weights(value, solver);
    assert(w =~= crate::operator::fit::scaled(1real, w)) by {
        assert forall|j: int| 0 <= j < w.len() implies w[j] == crate::operator::fit::scaled(
            1real,
            w,
        )[j] by {
            assert(1real * w[j] == w[j]) by (nonlinear_arith);
        }
    }
    law_solves_on_the_same_model(
        solver,
        solver,
        value,
        options,
        1real,
        c,
        y,
        multiple,
        of_y,
        of_multiple,
        k,
    );
}

/// The scale of the weights does not matter: with exact arithmetic, and where
/// both solves found a fit, weights and `factor` times these weights return the
/// same at every observation of positive weight.
pub proof fn law_solve_ignores_the_scale_of_weights<
    'a,
    T: Copy + Send + Sync,
    S: LocalSolver<T>,
    K: SolverKit<T, S>,
>(
    solver: Solver<'a, T, S, K>,
    scaled: Solver<'a, T, S, K>,
    value: spec_fn(T) -> real,
    options: &LsmrOptions,
    factor: real,
    y: Seq<T>,
    plain_result: SolveResult<T>,
    scaled_result: SolveResult<T>,
    k: int,
)
    requires
        solver.wf(),
        scaled.wf(),
        crate::operator::fit::is_same_model(solver.spec_design(), scaled.spec_design()),
        crate::arithmetic::is_exact(solver.spec_kit(), value),
        crate::arithmetic::is_exact(scaled.spec_kit(), value),
        factor > 0real,
        forall|j: int|
            0 <= j < solver.spec_design().n_obs ==> #[trigger] solver_weights(value, solver)[j]
                >= 0real,
        solver_weights(value, scaled) == crate::operator::fit::scaled(
            factor,
            solver_weights(value, solver),
        ),
        crate::solver::solve_outcome(solver, y, options, Ok(plain_result)),
        crate::solver::solve_outcome(scaled, y, options, Ok(scaled_result)),
        is_fitted(solver, value, y, plain_result),
        is_fitted(scaled, value, y, scaled_result),
        0 <= k < solver.spec_design().n_obs,
        solver_weights(value, solver)[k] > 0real,
    ensures
        value(scaled_result.demeaned@[solver.spec_design().spec_caller_row(k)]) == value(
            plain_result.demeaned@[solver.spec_design().spec_caller_row(k)],
        ),
{
    lemma_once(value, y);
    law_solves_on_the_same_model(
        solver,
        scaled,
        value,
        options,
        factor,
        1real,
        y,
        y,
        plain_result,
        scaled_result,
        k,
    );
    let r = value(plain_result.demeaned@[solver.spec_design().spec_caller_row(k)]);
    assert(1real * r == r) by (nonlinear_arith);
}

/// A vector is once itself.
pub proof fn lemma_once<T>(value: spec_fn(T) -> real, y: Seq<T>)
    ensures
        forall|j: int| 0 <= j < y.len() ==> value(#[trigger] y[j]) == 1real * value(y[j]),
{
    assert forall|j: int| 0 <= j < y.len() implies value(#[trigger] y[j]) == 1real * value(
        y[j],
    ) by {
        let v = value(y[j]);
        assert(v == 1real * v) by (nonlinear_arith);
    }
}

/// Solving for many responses demeans each as solving for it alone does: with
/// exact arithmetic, and where both found a fit, column `i` of the batch and the
/// single solve return the same at every observation of positive weight.
pub proof fn law_batch_demeans_like_single_solves<
    'a,
    T: Copy + Send + Sync,
    S: LocalSolver<T>,
    K: SolverKit<T, S>,
>(
    solver: Solver<'a, T, S, K>,
    value: spec_fn(T) -> real,
    options: &LsmrOptions,
    ys: Seq<&[T]>,
    batch: BatchSolveResult<T>,
    i: int,
    single: SolveResult<T>,
    k: int,
)
    requires
        solver.wf(),
        crate::arithmetic::is_exact(solver.spec_kit(), value),
        forall|j: int|
            0 <= j < solver.spec_design().n_obs ==> #[trigger] solver_weights(value, solver)[j]
                >= 0real,
        crate::solver::batch_outcome(solver, ys, options, Ok(batch)),
        0 <= i < ys.len(),
        crate::solver::solve_outcome(solver, ys[i]@, options, Ok(single)),
        is_fitted(solver, value, ys[i]@, single),
        forall|column: SolveResult<T>| #[trigger]
            is_column(batch, i, column) ==> is_fitted(solver, value, ys[i]@, column),
        0 <= k < solver.spec_design().n_obs,
        solver_weights(value, solver)[k] > 0real,
    ensures
        value(
            batch.demeaned@.subrange(
                i * batch.n_obs,
                (i + 1) * batch.n_obs,
            )[solver.spec_design().spec_caller_row(k)],
        ) == value(single.demeaned@[solver.spec_design().spec_caller_row(k)]),
{
    law_batch_columns_are_solves(solver, ys, options, batch, i);
    let column = choose|column: SolveResult<T>| #[trigger]
        is_column(batch, i, column) && crate::solver::solve_outcome(
            solver,
            ys[i]@,
            options,
            Ok(column),
        );
    lemma_once(value, ys[i]@);
    law_solve_scales_with_the_response(
        solver,
        value,
        options,
        1real,
        ys[i]@,
        ys[i]@,
        single,
        column,
        k,
    );
    let r = value(single.demeaned@[solver.spec_design().spec_caller_row(k)]);
    assert(1real * r == r) by (nonlinear_arith);
}

} // verus!
