//! What a solve is for: the weighted least-squares fit of the caller's response,
//! reported as the iterative method left it.

use vstd::prelude::*;
use vstd::std_specs::convert::FromSpec;

use crate::arithmetic::Arithmetic;
use crate::binary64::Binary64;
use crate::config::{LsmrOptions, PreconditionerConfig};
use crate::domain::design::Design;
use crate::error::BuildError;
use crate::operator::design_operator::DesignOperator;
use crate::operator::schwarz::Preconditioner;
use crate::orchestrate::SolveResult;
use crate::schwarz_precond::error::SolveError;
use crate::schwarz_precond::local_solve::LocalSolver;
use crate::schwarz_precond::planning::ReductionStrategy;
use crate::solver::{LsmrResult, PreconditionerInput, Solver, SolverKit};

verus! {

// ---------------------------------------------------------------------------
// Normal equations
// ---------------------------------------------------------------------------

/// Row `i` of `A x` for the operator with these row scales: the scale times the
/// sum of the coefficients of the row's levels.
pub open spec fn operator_row<T>(
    value: spec_fn(T) -> real,
    design: Design<'_>,
    sqrt_weights: Option<Vec<T>>,
    x: Seq<T>,
    i: int,
) -> real {
    crate::operator::laws::row_scale(value, sqrt_weights, i) * crate::operator::laws::total(
        design.terms@.len() as int,
        |q: int| value(x[design.terms@[q].offset + design.frame.levels()[q][i]]),
    )
}

/// `x` solves `A^T A x = A^T b`: at every level of every factor, the scaled rows
/// of `b - A x` sum to zero.
pub open spec fn solves_least_squares<T>(
    value: spec_fn(T) -> real,
    design: Design<'_>,
    sqrt_weights: Option<Vec<T>>,
    b: Seq<T>,
    x: Seq<T>,
) -> bool {
    forall|q: int, l: int|
        #![trigger crate::operator::laws::at_level(design.frame.levels()[q], gradient_rows(value, design, sqrt_weights, b, x), l)]
        0 <= q < design.terms@.len() && 0 <= l < design.terms@[q].n_levels
            ==> crate::operator::laws::total(
            design.n_obs as int,
            crate::operator::laws::at_level(
                design.frame.levels()[q],
                gradient_rows(value, design, sqrt_weights, b, x),
                l,
            ),
        ) == 0real
}

/// The scaled rows of `b - A x`.
pub open spec fn gradient_rows<T>(
    value: spec_fn(T) -> real,
    design: Design<'_>,
    sqrt_weights: Option<Vec<T>>,
    b: Seq<T>,
    x: Seq<T>,
) -> spec_fn(int) -> real {
    |i: int|
        crate::operator::laws::row_scale(value, sqrt_weights, i) * (value(b[i]) - operator_row(
            value,
            design,
            sqrt_weights,
            x,
            i,
        ))
}

/// The method answers `found` when run on `operator` and `b`, with the
/// preconditioner if there is one.
pub open spec fn may_answer<T: Copy + Send + Sync, S: LocalSolver<T>, K: SolverKit<T, S>>(
    kit: K,
    preconditioner: Option<Preconditioner<T, S>>,
    options: &LsmrOptions,
    operator: DesignOperator<'_, '_, T, K, K>,
    b: &[T],
    found: LsmrResult<T>,
) -> bool {
    match preconditioner {
        None => call_ensures(
            <K as SolverKit<T, S>>::lsmr,
            (&kit, &operator, b, options),
            Ok::<LsmrResult<T>, SolveError>(found),
        ),
        Some(p) => call_ensures(
            <K as SolverKit<T, S>>::mlsmr,
            (&kit, &operator, b, &p, options),
            Ok::<LsmrResult<T>, SolveError>(found),
        ),
    }
}

/// Whatever least-squares problem the method is given, it solves it.
pub open spec fn is_least_squares_method<
    T: Copy + Send + Sync,
    S: LocalSolver<T>,
    K: SolverKit<T, S>,
>(
    kit: K,
    value: spec_fn(T) -> real,
    preconditioner: Option<Preconditioner<T, S>>,
    options: &LsmrOptions,
) -> bool {
    forall|operator: DesignOperator<'_, '_, T, K, K>, b: &[T], found: LsmrResult<T>| #[trigger]
        may_answer(kit, preconditioner, options, operator, b, found) ==> solves_least_squares(
            value,
            *operator.design,
            operator.sqrt_weights,
            b@,
            found.x@,
        )
}

/// Rows of `W (y - D x)`: the weight, one where there are none, times what the
/// caller's response exceeds the sum of its coefficients by.
pub open spec fn response_rows<T>(
    value: spec_fn(T) -> real,
    design: Design<'_>,
    weights: Option<Vec<T>>,
    y: Seq<T>,
    x: Seq<T>,
) -> spec_fn(int) -> real {
    |k: int|
        crate::operator::laws::row_scale(value, weights, k) * (value(y[crate::domain::meaning::caller_row_of(design, k)])
            - crate::operator::laws::total(
            design.terms@.len() as int,
            |q: int| value(x[design.terms@[q].offset + design.frame.levels()[q][k]]),
        ))
}

/// A solve finds the weighted fit. With exact arithmetic, and if the iterative
/// method solves the least-squares problem that it is given, the coefficients of
/// every solve, with or without a preconditioner, satisfy the normal equations
/// `D^T W (y - D x) = 0` of the caller's response and the solver's weights, and
/// the demeaned response is `y - D x`.
pub proof fn law_solve_satisfies_the_normal_equations<
    'a,
    T: Copy + Send + Sync,
    S: LocalSolver<T>,
    K: SolverKit<T, S>,
>(
    solver: Solver<'a, T, S, K>,
    value: spec_fn(T) -> real,
    y: Seq<T>,
    options: &LsmrOptions,
    solved: SolveResult<T>,
)
    requires
        solver.wf(),
        crate::arithmetic::is_exact_field(solver.spec_kit(), value),
        solver.spec_weights() matches Some(w) ==> forall|k: int|
            0 <= k < w@.len() ==> value(#[trigger] w@[k]) >= 0real,
        is_least_squares_method(solver.spec_kit(), value, solver.spec_preconditioner(), options),
        crate::solver::solve_outcome(solver, y, options, Ok(solved)),
    ensures
        y.len() == solver.spec_design().n_obs_input,
        solved.x@.len() == solver.spec_design().n_dofs,
        forall|q: int, l: int|
            #![trigger crate::operator::laws::at_level(solver.spec_design().frame.levels()[q], response_rows(value, solver.spec_design(), solver.spec_weights(), y, solved.x@), l)]
            0 <= q < solver.spec_design().terms@.len() && 0 <= l
                < solver.spec_design().terms@[q].n_levels ==> crate::operator::laws::total(
                solver.spec_design().n_obs as int,
                crate::operator::laws::at_level(
                    solver.spec_design().frame.levels()[q],
                    response_rows(
                        value,
                        solver.spec_design(),
                        solver.spec_weights(),
                        y,
                        solved.x@,
                    ),
                    l,
                ),
            ) == 0real,
        forall|k: int|
            #![trigger crate::domain::meaning::caller_row_of(solver.spec_design(), k)]
            0 <= k < solver.spec_design().n_obs ==> value(
                solved.demeaned@[crate::domain::meaning::caller_row_of(solver.spec_design(), k)],
            ) == value(y[crate::domain::meaning::caller_row_of(solver.spec_design(), k)]) - crate::operator::laws::total(
                solver.spec_design().terms@.len() as int,
                |q: int|
                    value(
                        solved.x@[solver.spec_design().terms@[q].offset
                            + solver.spec_design().frame.levels()[q][k]],
                    ),
            ),
{
    let design = solver.spec_design();
    let kit = solver.spec_kit();
    let inner = crate::solver::internal_response(design, y);
    assert(crate::solver::solves_response(solver, y, options, Ok(solved)));
    let (operator, b, answer) = choose|
        operator: DesignOperator<'_, '_, T, K, K>,
        b: &[T],
        answer: Result<LsmrResult<T>, SolveError>,
    |
        #[trigger]
        crate::solver::is_solve_run(solver, y, options, operator, b, answer, Ok(solved));
    let found = answer->Ok_0;
    assert(may_answer(kit, solver.spec_preconditioner(), options, operator, b, found));
    assert(solves_least_squares(value, design, operator.sqrt_weights, b@, found.x@));
    let x = solved.x@;
    let rows = response_rows(value, design, solver.spec_weights(), y, x);
    let given = gradient_rows(value, design, operator.sqrt_weights, b@, x);
    assert forall|k: int| 0 <= k < design.n_obs implies #[trigger] given(k) == rows(k) by {
        let f = crate::operator::laws::total(
            design.terms@.len() as int,
            |q: int| value(x[design.terms@[q].offset + design.frame.levels()[q][k]]),
        );
        let at = crate::domain::meaning::caller_row_of(design, k);
        let v = value(y[at]);
        assert(inner[k] == y[at]);
        match solver.spec_weights() {
            None => {
                assert(1real * (v - 1real * f) == 1real * (v - f)) by (nonlinear_arith);
            },
            Some(w) => {
                let roots = operator.sqrt_weights->Some_0;
                assert(crate::arithmetic::root_gives(kit, w@[k], roots@[k]));
                assert(crate::arithmetic::times_gives(kit, roots@[k], inner[k], b@[k]));
                let s = value(roots@[k]);
                assert(value(w@[k]) >= 0real);
                assert(s * (s * v - s * f) == (s * s) * (v - f)) by (nonlinear_arith);
            },
        }
    }
    assert forall|q: int, l: int|
        #![trigger crate::operator::laws::at_level(design.frame.levels()[q], rows, l)]
        0 <= q < design.terms@.len() && 0 <= l < design.terms@[q].n_levels implies
        crate::operator::laws::total(
        design.n_obs as int,
        crate::operator::laws::at_level(design.frame.levels()[q], rows, l),
    ) == 0real by {
        let codes = design.frame.levels()[q];
        let f = crate::operator::laws::at_level(codes, rows, l);
        let g = crate::operator::laws::at_level(codes, given, l);
        assert forall|k: int| 0 <= k < design.n_obs implies #[trigger] f(k) == g(k) by {
            assert(given(k) == rows(k));
        }
        crate::operator::laws::lemma_total_same(design.n_obs as int, f, g);
    }
    assert forall|k: int|
        #![trigger crate::domain::meaning::caller_row_of(design, k)]
        0 <= k < design.n_obs implies value(solved.demeaned@[crate::domain::meaning::caller_row_of(design, k)]) == value(
        y[crate::domain::meaning::caller_row_of(design, k)],
    ) - crate::operator::laws::total(
        design.terms@.len() as int,
        |q: int| value(x[design.terms@[q].offset + design.frame.levels()[q][k]]),
    ) by {
        crate::solver::laws::law_solve_returns_residuals(solver, value, y, options, solved, k);
        let f = |q: int|
            crate::operator::fit::values_of(value, x)[design.terms@[q].offset
                + design.frame.levels()[q][k]];
        let g = |q: int| value(x[design.terms@[q].offset + design.frame.levels()[q][k]]);
        assert forall|q: int| 0 <= q < design.terms@.len() implies #[trigger] f(q) == g(q) by {
            crate::operator::lemma_term_in_range(design, q);
            assert(design.frame.levels()[q][k] < design.terms@[q].n_levels);
        }
        crate::operator::laws::lemma_total_same(design.terms@.len() as int, f, g);
    }
}

// ---------------------------------------------------------------------------
// Report
// ---------------------------------------------------------------------------

/// The operator is one of this solver: its design, and weights if there are any.
pub open spec fn is_own_operator<'a, T: Copy + Send + Sync, S: LocalSolver<T>, K: SolverKit<T, S>>(
    solver: Solver<'a, T, S, K>,
    operator: DesignOperator<'_, '_, T, K, K>,
) -> bool {
    &&& *operator.design == solver.spec_design()
    &&& operator.sqrt_weights is Some <==> solver.spec_weights() is Some
}

/// What a successful solve reports of the run is what the method reported: the
/// coefficients, whether it converged, the iterations and the time.
pub proof fn law_solve_reports_the_run<
    'a,
    T: Copy + Send + Sync,
    S: LocalSolver<T>,
    K: SolverKit<T, S>,
>(solver: Solver<'a, T, S, K>, y: Seq<T>, options: &LsmrOptions, solved: SolveResult<T>)
    requires
        solver.wf(),
        crate::solver::solve_outcome(solver, y, options, Ok(solved)),
    ensures
        exists|operator: DesignOperator<'_, '_, T, K, K>, b: &[T], found: LsmrResult<T>|
            #[trigger] may_answer(
                solver.spec_kit(),
                solver.spec_preconditioner(),
                options,
                operator,
                b,
                found,
            ) && is_own_operator(solver, operator) && solved.x@ == found.x@ && solved.converged
                == found.converged && solved.iterations == found.iterations && solved.time_solve
                == found.time_solve,
{
    assert(crate::solver::solves_response(solver, y, options, Ok(solved)));
    let (operator, b, answer) = choose|
        operator: DesignOperator<'_, '_, T, K, K>,
        b: &[T],
        answer: Result<LsmrResult<T>, SolveError>,
    |
        #[trigger]
        crate::solver::is_solve_run(solver, y, options, operator, b, answer, Ok(solved));
    let found = answer->Ok_0;
    assert(may_answer(
        solver.spec_kit(),
        solver.spec_preconditioner(),
        options,
        operator,
        b,
        found,
    ));
}

/// If every answer that the method may give for this solver says that it
/// converged, so does every result; if every answer says that it did not, so
/// does every result. The same holds of the number of iterations.
pub proof fn law_convergence_is_the_methods<
    'a,
    T: Copy + Send + Sync,
    S: LocalSolver<T>,
    K: SolverKit<T, S>,
>(
    solver: Solver<'a, T, S, K>,
    y: Seq<T>,
    options: &LsmrOptions,
    solved: SolveResult<T>,
    says: bool,
    iterations: usize,
)
    requires
        solver.wf(),
        crate::solver::solve_outcome(solver, y, options, Ok(solved)),
    ensures
        (forall|operator: DesignOperator<'_, '_, T, K, K>, b: &[T], found: LsmrResult<T>| #[trigger]
            may_answer(
                solver.spec_kit(),
                solver.spec_preconditioner(),
                options,
                operator,
                b,
                found,
            ) && is_own_operator(solver, operator) ==> found.converged == says)
            ==> solved.converged == says,
        (forall|operator: DesignOperator<'_, '_, T, K, K>, b: &[T], found: LsmrResult<T>| #[trigger]
            may_answer(
                solver.spec_kit(),
                solver.spec_preconditioner(),
                options,
                operator,
                b,
                found,
            ) && is_own_operator(solver, operator) ==> found.iterations == iterations)
            ==> solved.iterations == iterations,
{
    law_solve_reports_the_run(solver, y, options, solved);
}

/// The method fails with `error` when run on `operator` and `b`.
pub open spec fn may_fail<T: Copy + Send + Sync, S: LocalSolver<T>, K: SolverKit<T, S>>(
    kit: K,
    preconditioner: Option<Preconditioner<T, S>>,
    options: &LsmrOptions,
    operator: DesignOperator<'_, '_, T, K, K>,
    b: &[T],
    error: SolveError,
) -> bool {
    match preconditioner {
        None => call_ensures(
            <K as SolverKit<T, S>>::lsmr,
            (&kit, &operator, b, options),
            Err::<LsmrResult<T>, SolveError>(error),
        ),
        Some(p) => call_ensures(
            <K as SolverKit<T, S>>::mlsmr,
            (&kit, &operator, b, &p, options),
            Err::<LsmrResult<T>, SolveError>(error),
        ),
    }
}

/// The input was refused.
pub open spec fn is_refused<T>(result: Result<SolveResult<T>, SolveError>) -> bool {
    result matches Err(e) && e is InvalidInput
}

/// When a solve fails. A response of the wrong length is refused as invalid
/// input, and so is one with an entry of the fit that never tests as finite. A
/// response of the right length whose entries of the fit never test as anything
/// but finite fails only if the method fails, with the method's error, or
/// answers with a number of coefficients that is not the number of unknowns.
pub proof fn law_solve_failures<
    'a,
    T: Copy + Send + Sync,
    S: LocalSolver<T>,
    K: SolverKit<T, S>,
>(
    solver: Solver<'a, T, S, K>,
    y: Seq<T>,
    options: &LsmrOptions,
    result: Result<SolveResult<T>, SolveError>,
)
    requires
        solver.wf(),
        crate::solver::solve_outcome(solver, y, options, result),
    ensures
        y.len() != solver.spec_design().n_obs_input ==> is_refused(result),
        y.len() == solver.spec_design().n_obs_input && (exists|k: int|
            #![trigger crate::domain::meaning::caller_row_of(solver.spec_design(), k)]
            0 <= k < solver.spec_design().n_obs && !call_ensures(
                K::is_finite,
                (&solver.spec_kit(), y[crate::domain::meaning::caller_row_of(solver.spec_design(), k)]),
                true,
            )) ==> is_refused(result),
        y.len() == solver.spec_design().n_obs_input && (forall|k: int|
            #![trigger crate::domain::meaning::caller_row_of(solver.spec_design(), k)]
            0 <= k < solver.spec_design().n_obs ==> !call_ensures(
                K::is_finite,
                (&solver.spec_kit(), y[crate::domain::meaning::caller_row_of(solver.spec_design(), k)]),
                false,
            )) ==> match result {
            Ok(_) => true,
            Err(e) => {
                ||| exists|operator: DesignOperator<'_, '_, T, K, K>, b: &[T]|
                    #[trigger] may_fail(
                        solver.spec_kit(),
                        solver.spec_preconditioner(),
                        options,
                        operator,
                        b,
                        e,
                    ) && is_own_operator(solver, operator)
                ||| exists|
                    operator: DesignOperator<'_, '_, T, K, K>,
                    b: &[T],
                    found: LsmrResult<T>,
                |
                    #[trigger] may_answer(
                        solver.spec_kit(),
                        solver.spec_preconditioner(),
                        options,
                        operator,
                        b,
                        found,
                    ) && is_own_operator(solver, operator) && found.x@.len()
                        != solver.spec_design().n_dofs && e is InvalidInput
            },
        },
{
    let design = solver.spec_design();
    let kit = solver.spec_kit();
    let inner = crate::solver::internal_response(design, y);
    if y.len() == design.n_obs_input {
        assert(inner.len() == design.n_obs);
        assert forall|k: int| 0 <= k < design.n_obs implies #[trigger] inner[k] == y[crate::domain::meaning::caller_row_of(
            design,
            k,
        )] by {}
        if crate::solver::refuses_response(solver, y, result) {
            let k = choose|k: int| #[trigger]
                crate::solver::is_first_non_finite(kit, inner, k)
                    && crate::solver::names_observation(
                    design.spec_caller_row(k) as nat,
                    result,
                );
            assert(inner[k] == y[crate::domain::meaning::caller_row_of(design, k)]);
        } else {
            assert(crate::solver::all_finite(kit, inner));
            assert forall|k: int|
                #![trigger crate::domain::meaning::caller_row_of(design, k)]
                0 <= k < design.n_obs implies call_ensures(
                K::is_finite,
                (&kit, y[crate::domain::meaning::caller_row_of(design, k)]),
                true,
            ) by {
                assert(inner[k] == y[crate::domain::meaning::caller_row_of(design, k)]);
            }
            let (operator, b, answer) = choose|
                operator: DesignOperator<'_, '_, T, K, K>,
                b: &[T],
                answer: Result<LsmrResult<T>, SolveError>,
            |
                #[trigger]
                crate::solver::is_solve_run(solver, y, options, operator, b, answer, result);
            let p = solver.spec_preconditioner();
            match answer {
                Err(e) => {
                    assert(may_fail(kit, p, options, operator, b, e));
                },
                Ok(found) => {
                    assert(may_answer(kit, p, options, operator, b, found));
                },
            }
        }
    }
}

/// At the rows that take no part in the fit, the demeaned response is not a number.
pub proof fn law_removed_rows_are_not_a_number<
    'a,
    T: Copy + Send + Sync,
    S: LocalSolver<T>,
    K: SolverKit<T, S>,
>(
    solver: Solver<'a, T, S, K>,
    y: Seq<T>,
    options: &LsmrOptions,
    solved: SolveResult<T>,
    row: int,
)
    requires
        solver.wf(),
        crate::solver::solve_outcome(solver, y, options, Ok(solved)),
        0 <= row < solver.spec_design().n_obs_input,
        !crate::domain::meaning::is_represented(solver.spec_design(), row),
    ensures
        solved.demeaned@.len() == solver.spec_design().n_obs_input,
        crate::arithmetic::scalar_of(
            solver.spec_kit(),
            Binary64 { bits: 0x7ff8_0000_0000_0000 },
            solved.demeaned@[row],
        ),
{
    let design = solver.spec_design();
    let kit = solver.spec_kit();
    let inner = crate::solver::internal_response(design, y);
    assert(crate::solver::solves_response(solver, y, options, Ok(solved)));
    let (operator, b, answer) = choose|
        operator: DesignOperator<'_, '_, T, K, K>,
        b: &[T],
        answer: Result<LsmrResult<T>, SolveError>,
    |
        #[trigger]
        crate::solver::is_solve_run(solver, y, options, operator, b, answer, Ok(solved));
    let found = answer->Ok_0;
    assert(crate::solver::is_solution(
        kit,
        design,
        operator.sqrt_weights,
        inner,
        b@,
        found,
        solved,
    ));
    let internal = choose|internal: Seq<T>|
        #![trigger crate::solver::is_demeaned(kit, design, inner, found.x@, internal)]
        {
            &&& crate::solver::is_demeaned(kit, design, inner, found.x@, internal)
            &&& crate::solver::is_returned(kit, design, internal, solved.demeaned@)
            &&& crate::solver::is_residual(
                kit,
                design,
                operator.sqrt_weights,
                b@,
                internal,
                solved.residual,
            )
        };
    match design.rows {
        None => {
            assert(crate::domain::meaning::caller_row_of(design, row) == row);
        },
        Some(rows) => {
            if rows@.contains(row as u32) {
                let k = choose|k: int| 0 <= k < rows@.len() && rows@[k] == row as u32;
                assert(crate::domain::meaning::caller_row_of(design, k) == row);
            }
        },
    }
}

// ---------------------------------------------------------------------------
// Residual
// ---------------------------------------------------------------------------

/// The squared norm of `D^T v`: the squares of the sums of `v` at every level of
/// every factor.
pub open spec fn squared_level_sums(design: Design<'_>, v: spec_fn(int) -> real) -> real {
    crate::operator::laws::total(
        design.terms@.len() as int,
        |q: int|
            crate::operator::laws::total(
                design.terms@[q].n_levels as int,
                |l: int|
                    square(
                        crate::operator::laws::total(
                            design.n_obs as int,
                            crate::operator::laws::at_level(design.frame.levels()[q], v, l),
                        ),
                    ),
            ),
    )
}

/// `a` times itself.
pub open spec fn square(a: real) -> real {
    a * a
}

/// Rows of `W y`.
pub open spec fn weighted_rows<T>(
    value: spec_fn(T) -> real,
    design: Design<'_>,
    weights: Option<Vec<T>>,
    y: Seq<T>,
) -> spec_fn(int) -> real {
    |k: int|
        crate::operator::laws::row_scale(value, weights, k) * value(y[crate::domain::meaning::caller_row_of(design, k)])
}

/// With exact arithmetic, the norm of `D^T W^{1/2} u` is the root of the squared
/// sums of the scaled rows.
proof fn lemma_gradient_norm<T, A: Arithmetic<T>>(
    ops: A,
    design: Design<'_>,
    value: spec_fn(T) -> real,
    sqrt_weights: Option<Vec<T>>,
    u: Seq<T>,
    norm: T,
    v: spec_fn(int) -> real,
)
    requires
        design.wf(),
        design.is_plain(),
        crate::arithmetic::is_exact_field(ops, value),
        u.len() == design.n_obs,
        crate::solver::is_gradient_norm(ops, design, sqrt_weights, u, norm),
        forall|k: int|
            0 <= k < design.n_obs ==> #[trigger] v(k) == crate::operator::laws::row_scale(
                value,
                sqrt_weights,
                k,
            ) * value(u[k]),
    ensures
        value(norm) >= 0real,
        value(norm) * value(norm) == squared_level_sums(design, v),
{
    let gradient = choose|gradient: Seq<T>| #[trigger]
        crate::operator::design_operator::is_adjoint_product(
            ops,
            design,
            sqrt_weights,
            u,
            gradient,
        ) && crate::schwarz_precond::solve::is_norm(ops, gradient, norm);
    let sum = choose|sum: T| #[trigger]
        crate::schwarz_precond::solve::is_dot(ops, gradient, gradient, sum)
            && crate::arithmetic::root_gives(ops, sum, norm);
    crate::schwarz_precond::solve::law_dot_is_exact(ops, value, gradient, gradient, sum);
    crate::schwarz_precond::symmetry::lemma_dot_is_total(value, gradient, gradient);
    let n = design.n_dofs as int;
    let m = design.terms@.len() as int;
    let f = |d: int| value(gradient[d]) * value(gradient[d]);
    crate::operator::laws::lemma_total_same(
        n,
        f,
        |k: int| value(gradient[k]) * value(gradient[k]),
    );
    crate::operator::laws::lemma_dof_total(design, f, m);
    let by_term = |q: int|
        crate::operator::laws::total(
            design.terms@[q].n_levels as int,
            |l: int| f(design.terms@[q].offset + l),
        );
    let wanted = |q: int|
        crate::operator::laws::total(
            design.terms@[q].n_levels as int,
            |l: int|
                square(
                    crate::operator::laws::total(
                        design.n_obs as int,
                        crate::operator::laws::at_level(design.frame.levels()[q], v, l),
                    ),
                ),
        );
    assert forall|q: int| 0 <= q < m implies #[trigger] by_term(q) == wanted(q) by {
        let codes = design.frame.levels()[q];
        let a = |l: int| f(design.terms@[q].offset + l);
        let b = |l: int|
            square(
                crate::operator::laws::total(
                    design.n_obs as int,
                    crate::operator::laws::at_level(codes, v, l),
                ),
            );
        let n_levels = design.terms@[q].n_levels as int;
        assert forall|l: int| 0 <= l < n_levels implies #[trigger] a(l) == b(l) by {
            crate::operator::laws::law_adjoint_product_is_exact(
                ops,
                design,
                value,
                sqrt_weights,
                u,
                gradient,
                q,
                l,
            );
            let r = |i: int|
                crate::operator::laws::row_scale(value, sqrt_weights, i) * value(u[i]);
            let g = crate::operator::laws::at_level(codes, r, l);
            let h = crate::operator::laws::at_level(codes, v, l);
            assert forall|k: int| 0 <= k < design.n_obs implies #[trigger] g(k) == h(k) by {
                assert(v(k) == r(k));
            }
            crate::operator::laws::lemma_total_same(design.n_obs as int, g, h);
        }
        crate::operator::laws::lemma_total_same(n_levels, a, b);
    }
    crate::operator::laws::lemma_total_same(m, by_term, wanted);
    crate::operator::laws::lemma_total_same(
        n,
        |k: int| value(gradient[k]) * value(gradient[k]),
        f,
    );
    lemma_total_of_squares(n, f, gradient, value);
}

pub proof fn lemma_total_of_squares<T>(
    n: int,
    f: spec_fn(int) -> real,
    v: Seq<T>,
    value: spec_fn(T) -> real,
)
    requires
        forall|d: int| #[trigger] f(d) == value(v[d]) * value(v[d]),
    ensures
        crate::operator::laws::total(n, f) >= 0real,
    decreases n,
{
    if n > 0 {
        lemma_total_of_squares(n - 1, f, v, value);
        let a = value(v[n - 1]);
        assert(f(n - 1) == a * a);
        assert(a * a >= 0real) by (nonlinear_arith);
    }
}

/// The residual of a solve is the norm of the gradient `D^T W (y - D x)` relative
/// to that of the response, `D^T W y`, or to `1e-15` where that is larger: with
/// exact arithmetic, the residual times the larger of the two is the norm of the
/// gradient at the reported demeaned response.
pub proof fn law_residual_is_relative<
    'a,
    T: Copy + Send + Sync,
    S: LocalSolver<T>,
    K: SolverKit<T, S>,
>(
    solver: Solver<'a, T, S, K>,
    value: spec_fn(T) -> real,
    floor: real,
    y: Seq<T>,
    options: &LsmrOptions,
    solved: SolveResult<T>,
)
    requires
        solver.wf(),
        crate::arithmetic::is_exact_field(solver.spec_kit(), value),
        solver.spec_weights() matches Some(w) ==> forall|k: int|
            0 <= k < w@.len() ==> value(#[trigger] w@[k]) >= 0real,
        floor > 0real,
        forall|r: T| #[trigger]
            crate::arithmetic::scalar_of(
                solver.spec_kit(),
                Binary64 { bits: 0x3cd2_03af_9ee7_5616 },
                r,
            ) ==> value(r) == floor,
        crate::solver::solve_outcome(solver, y, options, Ok(solved)),
    ensures
        exists|rhs: real, gradient: real| #[trigger]
            are_norms(
                squared_level_sums(
                    solver.spec_design(),
                    weighted_rows(value, solver.spec_design(), solver.spec_weights(), y),
                ),
                squared_level_sums(
                    solver.spec_design(),
                    weighted_rows(
                        value,
                        solver.spec_design(),
                        solver.spec_weights(),
                        solved.demeaned@,
                    ),
                ),
                rhs,
                gradient,
            ) && value(solved.residual) * (if rhs >= floor {
                rhs
            } else {
                floor
            }) == gradient,
{
    let design = solver.spec_design();
    let kit = solver.spec_kit();
    let inner = crate::solver::internal_response(design, y);
    assert(crate::solver::solves_response(solver, y, options, Ok(solved)));
    let (operator, b, answer) = choose|
        operator: DesignOperator<'_, '_, T, K, K>,
        b: &[T],
        answer: Result<LsmrResult<T>, SolveError>,
    |
        #[trigger]
        crate::solver::is_solve_run(solver, y, options, operator, b, answer, Ok(solved));
    let found = answer->Ok_0;
    let roots = operator.sqrt_weights;
    assert(crate::solver::is_solution(kit, design, roots, inner, b@, found, solved));
    let internal = choose|internal: Seq<T>|
        #![trigger crate::solver::is_demeaned(kit, design, inner, found.x@, internal)]
        {
            &&& crate::solver::is_demeaned(kit, design, inner, found.x@, internal)
            &&& crate::solver::is_returned(kit, design, internal, solved.demeaned@)
            &&& crate::solver::is_residual(kit, design, roots, b@, internal, solved.residual)
        };
    let (rhs_norm, bottom, scaled, top) = choose|rhs_norm: T, bottom: T, scaled: Seq<T>, top: T|
        {
            &&& #[trigger] crate::solver::is_gradient_norm(kit, design, roots, b@, rhs_norm)
            &&& #[trigger] crate::solver::is_floored(kit, rhs_norm, bottom)
            &&& crate::operator::design_operator::is_scaled(kit, roots, internal, scaled)
            &&& #[trigger] crate::solver::is_gradient_norm(kit, design, roots, scaled, top)
            &&& crate::arithmetic::divide_gives(kit, top, bottom, solved.residual)
        };
    let of_y = weighted_rows(value, design, solver.spec_weights(), y);
    let of_rest = weighted_rows(value, design, solver.spec_weights(), solved.demeaned@);
    assert forall|k: int| 0 <= k < design.n_obs implies #[trigger] of_y(k)
        == crate::operator::laws::row_scale(value, roots, k) * value(b@[k]) by {
        let v = value(y[crate::domain::meaning::caller_row_of(design, k)]);
        assert(inner[k] == y[crate::domain::meaning::caller_row_of(design, k)]);
        lemma_scaled_twice(kit, value, solver.spec_weights(), roots, inner, b@, k);
    }
    assert forall|k: int| 0 <= k < design.n_obs implies #[trigger] of_rest(k)
        == crate::operator::laws::row_scale(value, roots, k) * value(scaled[k]) by {
        assert(solved.demeaned@[crate::domain::meaning::caller_row_of(design, k)] == internal[k]) by {
            match design.rows {
                None => {},
                Some(rows) => {
                    assert(solved.demeaned@[rows@[k] as int] == internal[k]);
                },
            }
        }
        lemma_scaled_twice(kit, value, solver.spec_weights(), roots, internal, scaled, k);
    }
    lemma_gradient_norm(kit, design, value, roots, b@, rhs_norm, of_y);
    lemma_gradient_norm(kit, design, value, roots, scaled, top, of_rest);
    lemma_floored(kit, value, floor, rhs_norm, bottom);
    assert(are_norms(
        squared_level_sums(design, of_y),
        squared_level_sums(design, of_rest),
        value(rhs_norm),
        value(top),
    ));
}

/// The non-negative roots of two numbers.
pub open spec fn are_norms(a: real, b: real, root_a: real, root_b: real) -> bool {
    &&& root_a >= 0real
    &&& root_b >= 0real
    &&& root_a * root_a == a
    &&& root_b * root_b == b
}

/// With exact arithmetic, the floor is the larger of the two.
proof fn lemma_floored<T, A: Arithmetic<T>>(
    ops: A,
    value: spec_fn(T) -> real,
    floor: real,
    a: T,
    out: T,
)
    requires
        crate::arithmetic::is_exact_field(ops, value),
        forall|r: T| #[trigger]
            crate::arithmetic::scalar_of(ops, Binary64 { bits: 0x3cd2_03af_9ee7_5616 }, r)
                ==> value(r) == floor,
        crate::solver::is_floored(ops, a, out),
    ensures
        value(out) == if value(a) >= floor {
            value(a)
        } else {
            floor
        },
{
    let least = choose|least: T| #[trigger]
        crate::arithmetic::scalar_of(
            ops,
            Binary64 { bits: crate::solver::RESIDUAL_FLOOR_BITS },
            least,
        ) && {
            ||| call_ensures(A::at_least, (&ops, a, least), true) && out == a
            ||| call_ensures(A::at_least, (&ops, a, least), false) && out == least
        };
    assert(value(least) == floor);
    if call_ensures(A::at_least, (&ops, a, least), true) && out == a {
        assert(crate::arithmetic::at_least_says(ops, a, least, true));
    } else {
        assert(crate::arithmetic::at_least_says(ops, a, least, false));
    }
}

/// Scaling by the roots of the weights twice is scaling by the weights.
proof fn lemma_scaled_twice<T, A: Arithmetic<T>>(
    ops: A,
    value: spec_fn(T) -> real,
    weights: Option<Vec<T>>,
    roots: Option<Vec<T>>,
    v: Seq<T>,
    scaled: Seq<T>,
    k: int,
)
    requires
        crate::arithmetic::is_exact_field(ops, value),
        match weights {
            None => roots is None,
            Some(w) => roots matches Some(s) && value(w@[k]) >= 0real
                && crate::operator::design_operator::are_square_roots(ops, w@, s@) && k < w@.len(),
        },
        crate::operator::design_operator::is_scaled(ops, roots, v, scaled),
        0 <= k < v.len(),
    ensures
        crate::operator::laws::row_scale(value, roots, k) * value(scaled[k])
            == crate::operator::laws::row_scale(value, weights, k) * value(v[k]),
{
    match weights {
        None => {},
        Some(w) => {
            let s = roots->Some_0;
            assert(crate::arithmetic::root_gives(ops, w@[k], s@[k]));
            assert(crate::arithmetic::times_gives(ops, s@[k], v[k], scaled[k]));
            let a = value(s@[k]);
            let b = value(v[k]);
            assert(a * (a * b) == (a * a) * b) by (nonlinear_arith);
        },
    }
}

// ---------------------------------------------------------------------------
// Construction
// ---------------------------------------------------------------------------

/// The configuration that an input asks for; a prebuilt preconditioner asks for none.
pub open spec fn asks_for<T, S>(input: PreconditionerInput<T, S>) -> Option<PreconditionerConfig> {
    match input {
        PreconditionerInput::Default => Some(
            PreconditionerConfig::Additive {
                local_solver: crate::config::solver_default_local_solver(),
                reduction: ReductionStrategy::Auto,
            },
        ),
        PreconditionerInput::Config(config) => Some(config),
        PreconditionerInput::Prebuilt(_) => None,
    }
}

/// A new solver is one for its inputs. It holds the design and the caller's
/// weights, row by row, and its preconditioner is the one that was handed in, of
/// the right size, or one of the configured kind for `D^T W D` with these weights.
pub proof fn law_new_solver_holds_its_inputs<
    'a,
    T: Copy + Send + Sync,
    S: LocalSolver<T>,
    K: SolverKit<T, S>,
>(
    kit: K,
    value: spec_fn(T) -> real,
    reading: spec_fn(Binary64) -> real,
    design: Design<'a>,
    given: Option<Seq<Binary64>>,
    input: PreconditionerInput<T, S>,
    solver: Solver<'a, T, S, K>,
)
    requires
        design.wf(),
        design.is_plain(),
        crate::arithmetic::is_exact_field(kit, value),
        crate::operator::meaning::reads_as(kit, value, reading),
        crate::solver::design_outcome(kit, design, given, input, Ok(solver)),
    ensures
        solver.spec_kit() == kit,
        solver.spec_design() == design,
        solver.spec_weights() is Some <==> given is Some,
        solver.spec_weights() matches Some(w) ==> w@.len() == design.n_obs,
        given matches Some(w) ==> w.len() == design.n_obs_input,
        forall|k: int|
            0 <= k < design.n_obs ==> crate::operator::laws::row_scale(
                value,
                solver.spec_weights(),
                k,
            ) == #[trigger] crate::operator::meaning::given_weight(reading, design, given)(k),
        forall|k: int|
            0 <= k < design.n_obs ==> #[trigger] crate::operator::meaning::given_weight(
                reading,
                design,
                given,
            )(k) >= 0real,
        match asks_for(input) {
            Some(config) => crate::operator::meaning::is_preconditioner_of(
                kit,
                value,
                design,
                crate::operator::meaning::given_weight(reading, design, given),
                config,
                solver.spec_preconditioner(),
            ),
            None => solver.spec_preconditioner() matches Some(p) && p
                == input->Prebuilt_0 && p.spec_n_dofs() == design.n_dofs,
        },
{
    let result: Result<Solver<'a, T, S, K>, BuildError> = Ok(solver);
    let rows = crate::domain::design::optional_rows(design.rows);
    let checked = choose|checked: Result<(), BuildError>|
        {
            &&& #[trigger] crate::domain::design::weights_outcome(
                rows,
                design.n_obs_input as nat,
                given,
                checked,
            )
            &&& match checked {
                Err(e) => result == Err::<Solver<'a, T, S, K>, BuildError>(e),
                Ok(()) => crate::solver::accepted_outcome(kit, design, given, input, result),
            }
        };
    assert(checked is Ok);
    match input {
        PreconditionerInput::Default => {
            lemma_configured_solver(kit, value, reading, design, given, None, solver);
        },
        PreconditionerInput::Config(config) => {
            lemma_configured_solver(kit, value, reading, design, given, Some(config), solver);
        },
        PreconditionerInput::Prebuilt(p) => {},
    }
    let internal = crate::operator::schwarz::optional_vec(solver.spec_weights());
    crate::operator::meaning::law_internal_weights_are_the_callers(
        kit,
        value,
        reading,
        design,
        given,
        internal,
    );
    let w = crate::operator::meaning::given_weight(reading, design, given);
    assert forall|k: int| 0 <= k < design.n_obs implies crate::operator::laws::row_scale(
        value,
        solver.spec_weights(),
        k,
    ) == #[trigger] w(k) && w(k) >= 0real by {
        assert(crate::domain::local_matrix::observation_weight(value, internal, k) == w(k));
        match given {
            None => {},
            Some(bits) => {
                let at = crate::domain::meaning::caller_row_of(design, k);
                assert(crate::domain::design::is_listed(rows, design.n_obs_input as nat, at)) by {
                    match design.rows {
                        None => {},
                        Some(list) => {
                            assert(list@[k] < design.n_obs_input);
                            assert(crate::domain::singletons::row_set(list@).contains(at));
                        },
                    }
                }
                assert(bits[at].spec_is_finite_non_negative());
                let own = solver.spec_weights()->Some_0@[k];
                assert(crate::arithmetic::scalar_of(kit, bits[at], own)) by {
                    assert(at == design.spec_caller_row(k));
                    assert(internal->Some_0[k] == own);
                }
            },
        }
    }
}

proof fn lemma_configured_solver<
    'a,
    T: Copy + Send + Sync,
    S: LocalSolver<T>,
    K: SolverKit<T, S>,
>(
    kit: K,
    value: spec_fn(T) -> real,
    reading: spec_fn(Binary64) -> real,
    design: Design<'a>,
    given: Option<Seq<Binary64>>,
    config: Option<PreconditionerConfig>,
    solver: Solver<'a, T, S, K>,
)
    requires
        design.wf(),
        design.is_plain(),
        crate::arithmetic::is_exact_field(kit, value),
        crate::operator::meaning::reads_as(kit, value, reading),
        crate::solver::is_configured(kit, design, given, config, Ok(solver)),
    ensures
        crate::solver::is_solver_of(solver, kit, design, given, solver.spec_preconditioner()),
        crate::operator::meaning::is_preconditioner_of(
            kit,
            value,
            design,
            crate::operator::meaning::given_weight(reading, design, given),
            match config {
                Some(config) => config,
                None => PreconditionerConfig::Additive {
                    local_solver: crate::config::solver_default_local_solver(),
                    reduction: ReductionStrategy::Auto,
                },
            },
            solver.spec_preconditioner(),
        ),
{
    let result: Result<Solver<'a, T, S, K>, BuildError> = Ok(solver);
    let built = choose|built: Result<Option<Preconditioner<T, S>>, BuildError>|
        {
            &&& #[trigger] crate::operator::schwarz::preconditioner_outcome(
                kit,
                kit,
                design,
                given,
                config,
                built,
            )
            &&& match built {
                Err(e) => result == Err::<Solver<'a, T, S, K>, BuildError>(e),
                Ok(p) => result matches Ok(solver) && crate::solver::is_solver_of(
                    solver,
                    kit,
                    design,
                    given,
                    p,
                ),
            }
        };
    assert(built is Ok);
    crate::operator::meaning::law_built_preconditioner_uses_the_callers_weights(
        kit,
        kit,
        value,
        reading,
        design,
        given,
        config,
        built->Ok_0,
    );
}

/// A solver on a design is built on that design, with the weights that were given
/// or else the design's own.
pub proof fn law_new_solver_on_a_design<
    'a,
    T: Copy + Send + Sync,
    S: LocalSolver<T>,
    K: SolverKit<T, S>,
>(
    kit: K,
    design: Design<'a>,
    weights: Option<Seq<Binary64>>,
    input: PreconditionerInput<T, S>,
    result: Result<Solver<'a, T, S, K>, BuildError>,
)
    requires
        crate::solver::input_outcome(kit, design, weights, input, result),
    ensures
        crate::solver::design_outcome(
            kit,
            design,
            match weights {
                Some(given) => Some(given),
                None => match design.options.weights {
                    Some(own) => Some(crate::observation::elements(own)),
                    None => None,
                },
            },
            input,
            result,
        ),
{
}

/// When a solver cannot be built: weights of the wrong number are refused, and so
/// is a prebuilt preconditioner of the wrong size. A prebuilt preconditioner of
/// the right size, with weights of the right number that are all finite and not
/// negative, or without weights, is never refused.
pub proof fn law_new_solver_failures<
    'a,
    T: Copy + Send + Sync,
    S: LocalSolver<T>,
    K: SolverKit<T, S>,
>(
    kit: K,
    design: Design<'a>,
    given: Option<Seq<Binary64>>,
    input: PreconditionerInput<T, S>,
    result: Result<Solver<'a, T, S, K>, BuildError>,
)
    requires
        design.wf(),
        crate::solver::design_outcome(kit, design, given, input, result),
    ensures
        given matches Some(w) ==> w.len() != design.n_obs_input ==> is_weight_count_error(
            design.n_obs_input as nat,
            w.len(),
            result,
        ),
        given is None && input is Prebuilt ==> (result is Ok <==> input->Prebuilt_0.spec_n_dofs()
            == design.n_dofs),
        given matches Some(w) ==> w.len() == design.n_obs_input && (forall|row: int|
            0 <= row < w.len() ==> (#[trigger] w[row]).bits < 0x7ff0_0000_0000_0000
                || w[row].bits == 0x8000_0000_0000_0000) && input is Prebuilt ==> (result is Ok
            <==> input->Prebuilt_0.spec_n_dofs() == design.n_dofs),
        given matches Some(w) ==> (exists|k: int|
            #![trigger crate::domain::meaning::caller_row_of(design, k)]
            0 <= k < design.n_obs && w.len() == design.n_obs_input && (w[crate::domain::meaning::caller_row_of(
                design,
                k,
            )].bits >= 0x7ff0_0000_0000_0000 && w[crate::domain::meaning::caller_row_of(design, k)].bits
                != 0x8000_0000_0000_0000)) ==> result is Err,
{
    let rows = crate::domain::design::optional_rows(design.rows);
    let checked = choose|checked: Result<(), BuildError>|
        {
            &&& #[trigger] crate::domain::design::weights_outcome(
                rows,
                design.n_obs_input as nat,
                given,
                checked,
            )
            &&& match checked {
                Err(e) => result == Err::<Solver<'a, T, S, K>, BuildError>(e),
                Ok(()) => crate::solver::accepted_outcome(kit, design, given, input, result),
            }
        };
    assert forall|k: int|
        #![trigger crate::domain::meaning::caller_row_of(design, k)]
        0 <= k < design.n_obs implies crate::domain::design::is_listed(
        rows,
        design.n_obs_input as nat,
        crate::domain::meaning::caller_row_of(design, k),
    ) by {
        match design.rows {
            None => {},
            Some(list) => {
                assert(list@[k] < design.n_obs_input);
                assert(crate::domain::singletons::row_set(list@).contains(
                    crate::domain::meaning::caller_row_of(design, k),
                ));
            },
        }
    }
}

/// The weights are refused for their number.
pub open spec fn is_weight_count_error<R>(
    expected: nat,
    got: nat,
    result: Result<R, BuildError>,
) -> bool {
    result matches Err(e) && e matches BuildError::WeightCountMismatch { expected: a, got: b }
        && a == expected && b == got
}

/// A solver without a preconditioner is always built where the weights are valid,
/// and so is one that is to be additive on a design of fewer than two terms.
pub proof fn law_unpreconditioned_solver_is_built<
    'a,
    T: Copy + Send + Sync,
    S: LocalSolver<T>,
    K: SolverKit<T, S>,
>(
    kit: K,
    design: Design<'a>,
    given: Option<Seq<Binary64>>,
    input: PreconditionerInput<T, S>,
    result: Result<Solver<'a, T, S, K>, BuildError>,
)
    requires
        design.wf(),
        design.is_plain(),
        given matches Some(w) ==> w.len() == design.n_obs_input && forall|row: int|
            0 <= row < w.len() ==> crate::domain::meaning::is_valid_weight(#[trigger] w[row]),
        asks_for(input) matches Some(config) && match config {
            PreconditionerConfig::Off => true,
            PreconditionerConfig::Additive { .. } => design.terms@.len() < 2,
            PreconditionerConfig::Diagonal => false,
        },
        crate::solver::design_outcome(kit, design, given, input, result),
    ensures
        result matches Ok(solver) && solver.spec_preconditioner() is None,
{
    let rows = crate::domain::design::optional_rows(design.rows);
    let checked = choose|checked: Result<(), BuildError>|
        {
            &&& #[trigger] crate::domain::design::weights_outcome(
                rows,
                design.n_obs_input as nat,
                given,
                checked,
            )
            &&& match checked {
                Err(e) => result == Err::<Solver<'a, T, S, K>, BuildError>(e),
                Ok(()) => crate::solver::accepted_outcome(kit, design, given, input, result),
            }
        };
    assert(checked is Ok);
    let config = match input {
        PreconditionerInput::Config(config) => Some(config),
        _ => None,
    };
    assert(crate::solver::is_configured(kit, design, given, config, result));
    let built = choose|built: Result<Option<Preconditioner<T, S>>, BuildError>|
        {
            &&& #[trigger] crate::operator::schwarz::preconditioner_outcome(
                kit,
                kit,
                design,
                given,
                config,
                built,
            )
            &&& match built {
                Err(e) => result == Err::<Solver<'a, T, S, K>, BuildError>(e),
                Ok(p) => result matches Ok(solver) && crate::solver::is_solver_of(
                    solver,
                    kit,
                    design,
                    given,
                    p,
                ),
            }
        };
    let resolved = crate::operator::schwarz::resolved_config(config);
    let again = choose|checked: Result<(), BuildError>|
        {
            &&& #[trigger] crate::domain::design::weights_outcome(
                rows,
                design.n_obs_input as nat,
                given,
                checked,
            )
            &&& match checked {
                Err(e) => built == Err::<Option<Preconditioner<T, S>>, BuildError>(e),
                Ok(()) => crate::operator::schwarz::is_built(
                    kit,
                    kit,
                    design,
                    given,
                    resolved,
                    built,
                ),
            }
        };
    assert(again is Ok);
    let internal = choose|internal: Option<Seq<T>>| #[trigger]
        crate::operator::schwarz::are_internal_weights(kit, design, given, internal)
            && crate::operator::schwarz::configured_outcome(
            kit,
            kit,
            design,
            internal,
            resolved,
            built,
        );
    match resolved {
        PreconditionerConfig::Additive { local_solver, reduction } => {
            crate::operator::schwarz::law_additive_needs_two_factors(
                kit,
                kit,
                design,
                internal,
                local_solver,
                reduction,
                built,
            );
        },
        _ => {},
    }
}

/// What converts into an input is held by it: nothing asks for the default, a
/// configuration for itself, and a preconditioner is reused, each by value or by
/// reference.
pub proof fn law_inputs_hold_what_they_are_made_of<T, S>(
    config: PreconditionerConfig,
    p: Preconditioner<T, S>,
)
    ensures
        <PreconditionerInput<T, S> as FromSpec<PreconditionerConfig>>::from_spec(config)
            == PreconditionerInput::<T, S>::Config(config),
        <PreconditionerInput<T, S> as FromSpec<&PreconditionerConfig>>::from_spec(&config)
            == PreconditionerInput::<T, S>::Config(config),
        <PreconditionerInput<T, S> as FromSpec<Option<&PreconditionerConfig>>>::from_spec(None)
            == PreconditionerInput::<T, S>::Default,
        <PreconditionerInput<T, S> as FromSpec<Option<&PreconditionerConfig>>>::from_spec(
            Some(&config),
        ) == PreconditionerInput::<T, S>::Config(config),
        <PreconditionerInput<T, S> as FromSpec<Preconditioner<T, S>>>::from_spec(p)
            == PreconditionerInput::<T, S>::Prebuilt(p),
        <PreconditionerInput<T, S> as FromSpec<&Preconditioner<T, S>>>::from_spec(&p)
            == PreconditionerInput::<T, S>::Prebuilt(p),
{
}

/// A refused response is told why. One of the wrong length is told its length and
/// the number of the caller's observations. One whose first entry of the fit that
/// tests as anything but finite is at internal row `k` is told the caller's row
/// there.
pub proof fn law_refusals_say_why<
    'a,
    T: Copy + Send + Sync,
    S: LocalSolver<T>,
    K: SolverKit<T, S>,
>(
    solver: Solver<'a, T, S, K>,
    y: Seq<T>,
    options: &LsmrOptions,
    result: Result<SolveResult<T>, SolveError>,
    k: int,
)
    requires
        solver.wf(),
        crate::solver::solve_outcome(solver, y, options, result),
    ensures
        y.len() != solver.spec_design().n_obs_input ==> says(
            result,
            "response vector length ("@ + crate::text::decimal_text(y.len())
                + ") does not match number of observations ("@ + crate::text::decimal_text(
                solver.spec_design().n_obs_input as nat,
            ) + ")"@,
        ),
        y.len() == solver.spec_design().n_obs_input && 0 <= k < solver.spec_design().n_obs
            && !call_ensures(
            K::is_finite,
            (&solver.spec_kit(), y[crate::domain::meaning::caller_row_of(solver.spec_design(), k)]),
            true,
        ) && (forall|j: int|
            #![trigger crate::domain::meaning::caller_row_of(solver.spec_design(), j)]
            0 <= j < k ==> !call_ensures(
                K::is_finite,
                (&solver.spec_kit(), y[crate::domain::meaning::caller_row_of(solver.spec_design(), j)]),
                false,
            )) ==> says(
            result,
            "response vector is not finite at observation "@ + crate::text::decimal_text(
                crate::domain::meaning::caller_row_of(solver.spec_design(), k) as nat,
            ),
        ),
{
    let design = solver.spec_design();
    let kit = solver.spec_kit();
    let inner = crate::solver::internal_response(design, y);
    if y.len() == design.n_obs_input && 0 <= k < design.n_obs && !call_ensures(
        K::is_finite,
        (&kit, y[crate::domain::meaning::caller_row_of(design, k)]),
        true,
    ) && (forall|j: int|
        #![trigger crate::domain::meaning::caller_row_of(design, j)]
        0 <= j < k ==> !call_ensures(K::is_finite, (&kit, y[crate::domain::meaning::caller_row_of(design, j)]), false)) {
        assert(inner.len() == design.n_obs);
        assert forall|j: int| 0 <= j < design.n_obs implies #[trigger] inner[j] == y[crate::domain::meaning::caller_row_of(
            design,
            j,
        )] by {}
        assert(inner[k] == y[crate::domain::meaning::caller_row_of(design, k)]);
        assert(!crate::solver::all_finite(kit, inner));
        assert(crate::solver::refuses_response(solver, y, result));
        let at = choose|at: int| #[trigger]
            crate::solver::is_first_non_finite(kit, inner, at) && crate::solver::names_observation(
                design.spec_caller_row(at) as nat,
                result,
            );
        if at < k {
            assert(inner[at] == y[crate::domain::meaning::caller_row_of(design, at)]);
        } else if k < at {
            assert(inner.take(at)[k] == inner[k]);
        }
        assert(at == k);
        assert(design.spec_caller_row(k) == crate::domain::meaning::caller_row_of(design, k));
    }
}

/// The result refuses the input of a solve with this message.
pub open spec fn says<T>(
    result: Result<SolveResult<T>, SolveError>,
    message: Seq<char>,
) -> bool {
    result matches Err(SolveError::InvalidInput { context, message: text }) && context
        == "Solver::solve" && text@ == message
}

} // verus!
