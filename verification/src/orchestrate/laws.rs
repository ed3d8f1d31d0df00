//! What solves on the same categories have in common.

use vstd::prelude::*;

use crate::arithmetic::Arithmetic;
use crate::binary64::Binary64;
use crate::categories::CategoryArray;
use crate::config::LsmrOptions;
use crate::domain::design::Design;
use crate::error::BuildError;
use crate::orchestrate::SolveResult;
use crate::schwarz_precond::local_solve::LocalSolver;
use crate::solver::{PreconditionerInput, Solver, SolverKit};

verus! {

/// `solved` comes from a solve on the categories that found a fit.
pub open spec fn is_fit_result<
    T: Copy + Send + Sync,
    S: LocalSolver<T>,
    K: SolverKit<T, S>,
    I: Into<PreconditionerInput<T, S>>,
>(
    kit: K,
    categories: &CategoryArray,
    weights: Option<Seq<Binary64>>,
    preconditioner: I,
    value: spec_fn(T) -> real,
    y: Seq<T>,
    lsmr: &LsmrOptions,
    solved: SolveResult<T>,
) -> bool {
    exists|solver: Solver<'static, T, S, K>| #[trigger]
        crate::solver::new_outcome(kit, categories, weights, preconditioner, Ok(solver))
            && crate::solver::solve_outcome(solver, y, lsmr, Ok(solved))
            && crate::solver::laws::is_fitted(solver, value, y, solved)
}

/// The second weights are `factor` times the first, which are not negative;
/// missing weights stand for one each.
pub open spec fn weights_scale<T, A: Arithmetic<T>>(
    ops: A,
    value: spec_fn(T) -> real,
    factor: real,
    first: Option<Seq<Binary64>>,
    second: Option<Seq<Binary64>>,
) -> bool {
    match (first, second) {
        (None, None) => factor == 1real,
        (Some(a), Some(b)) => {
            &&& a.len() == b.len()
            &&& forall|j: int, r: T, s: T|
                #![trigger crate::arithmetic::scalar_of(ops, a[j], r), crate::arithmetic::scalar_of(ops, b[j], s)]
                0 <= j < a.len() && crate::arithmetic::scalar_of(ops, a[j], r)
                    && crate::arithmetic::scalar_of(ops, b[j], s) ==> value(s) == factor * value(r)
            &&& forall|j: int, r: T| #[trigger]
                crate::arithmetic::scalar_of(ops, a[j], r) && 0 <= j < a.len() ==> value(r) >= 0real
        },
        _ => false,
    }
}

/// The weight of row `row` is positive.
pub open spec fn is_weighted_row<T, A: Arithmetic<T>>(
    ops: A,
    value: spec_fn(T) -> real,
    weights: Option<Seq<Binary64>>,
    row: int,
) -> bool {
    weights matches Some(w) ==> forall|r: T| #[trigger]
        crate::arithmetic::scalar_of(ops, w[row], r) ==> value(r) > 0real
}

/// What a solver built from categories holds.
pub proof fn lemma_built_from_categories<
    T: Copy + Send + Sync,
    S: LocalSolver<T>,
    K: SolverKit<T, S>,
    I: Into<PreconditionerInput<T, S>>,
>(
    kit: K,
    categories: &CategoryArray,
    weights: Option<Seq<Binary64>>,
    preconditioner: I,
    solver: Solver<'static, T, S, K>,
)
    requires
        crate::solver::new_outcome(kit, categories, weights, preconditioner, Ok(solver)),
    ensures
        solver.spec_kit() == kit,
        solver.spec_design().is_plain(),
        ({
            let rows = crate::categories::category_rows(*categories);
            let columns = crate::categories::columns_of(rows);
            crate::domain::design::is_design_of(
                columns,
                Seq::empty(),
                rows.len(),
                crate::domain::access::plain_structure(columns.len()),
                crate::domain::access::default_options(),
                solver.spec_design(),
            )
        }),
        crate::operator::schwarz::are_internal_weights(
            kit,
            solver.spec_design(),
            weights,
            crate::operator::schwarz::optional_vec(solver.spec_weights()),
        ),
        weights matches Some(w) ==> w.len() == crate::categories::category_rows(*categories).len(),
        exists|input: PreconditionerInput<T, S>|
            crate::solver::design_outcome(
                kit,
                solver.spec_design(),
                weights,
                input,
                Ok::<Solver<'static, T, S, K>, BuildError>(solver),
            ),
{
    let result: Result<Solver<'static, T, S, K>, BuildError> = Ok(solver);
    let input = choose|input: PreconditionerInput<T, S>| #[trigger]
        crate::solver::converts_to(preconditioner, input) && crate::solver::input_outcome(
            kit,
            categories,
            weights,
            input,
            result,
        );
    let built = choose|design: Result<Design<'static>, BuildError>|
        {
            &&& #[trigger] crate::categories::IntoDesign::gives(&categories, design)
            &&& match design {
                Err(e) => result == Err::<Solver<'static, T, S, K>, BuildError>(e),
                Ok(design) => crate::solver::design_outcome(
                    kit,
                    design,
                    crate::solver::effective_weights(design, weights),
                    input,
                    result,
                ),
            }
        };
    let design = built->Ok_0;
    let rows = crate::categories::category_rows(*categories);
    let columns = crate::categories::columns_of(rows);
    let structure = crate::domain::access::plain_structure(columns.len());
    assert(crate::domain::design::is_design_of(
        columns,
        Seq::empty(),
        rows.len(),
        structure,
        crate::domain::access::default_options(),
        design,
    ));
    assert(crate::solver::effective_weights(design, weights) == weights);
    assert forall|t: int| 0 <= t < design.terms@.len() implies (
    #[trigger] design.terms@[t]).columns@.len() == 1 by {
        assert(design.terms@[t].columns@ == structure[t]);
    }
}

/// Scaling the response scales the residuals, and scaling all weights changes
/// nothing: with exact arithmetic, solving for `c` times a response under
/// `factor` times the weights returns `c` times what solving for the response
/// returns, at every row of positive weight, where both solves found a fit.
pub proof fn law_solve_scales<
    T: Copy + Send + Sync,
    S: LocalSolver<T>,
    K: SolverKit<T, S>,
    I: Into<PreconditionerInput<T, S>>,
>(
    kit: K,
    categories: &CategoryArray,
    preconditioner: I,
    value: spec_fn(T) -> real,
    lsmr: &LsmrOptions,
    factor: real,
    c: real,
    weights: Option<Seq<Binary64>>,
    scaled_weights: Option<Seq<Binary64>>,
    y: Seq<T>,
    multiple: Seq<T>,
    of_y: SolveResult<T>,
    of_multiple: SolveResult<T>,
    row: int,
)
    requires
        crate::arithmetic::is_exact(kit, value),
        factor > 0real,
        weights_scale(kit, value, factor, weights, scaled_weights),
        y.len() == multiple.len(),
        forall|j: int| 0 <= j < y.len() ==> value(#[trigger] multiple[j]) == c * value(y[j]),
        is_fit_result(kit, categories, weights, preconditioner, value, y, lsmr, of_y),
        is_fit_result(
            kit,
            categories,
            scaled_weights,
            preconditioner,
            value,
            multiple,
            lsmr,
            of_multiple,
        ),
        0 <= row < crate::categories::category_rows(*categories).len(),
        is_weighted_row(kit, value, weights, row),
    ensures
        value(of_multiple.demeaned@[row]) == c * value(of_y.demeaned@[row]),
{
    let first = choose|solver: Solver<'static, T, S, K>| #[trigger]
        crate::solver::new_outcome(kit, categories, weights, preconditioner, Ok(solver))
            && crate::solver::solve_outcome(solver, y, lsmr, Ok(of_y))
            && crate::solver::laws::is_fitted(solver, value, y, of_y);
    let second = choose|solver: Solver<'static, T, S, K>| #[trigger]
        crate::solver::new_outcome(kit, categories, scaled_weights, preconditioner, Ok(solver))
            && crate::solver::solve_outcome(solver, multiple, lsmr, Ok(of_multiple))
            && crate::solver::laws::is_fitted(solver, value, multiple, of_multiple);
    lemma_built_from_categories(kit, categories, weights, preconditioner, first);
    lemma_built_from_categories(kit, categories, scaled_weights, preconditioner, second);
    let rows = crate::categories::category_rows(*categories);
    let columns = crate::categories::columns_of(rows);
    let structure = crate::domain::access::plain_structure(columns.len());
    let options = crate::domain::access::default_options();
    let design = first.spec_design();
    let other = second.spec_design();
    crate::domain::design::law_design_is_determined(
        columns,
        Seq::empty(),
        rows.len(),
        structure,
        options,
        design,
        other,
    );
    let w = crate::solver::laws::solver_weights(value, first);
    let v = crate::solver::laws::solver_weights(value, second);
    assert forall|j: int| 0 <= j < design.n_obs implies design.spec_caller_row(j)
        == other.spec_caller_row(j) && 0 <= #[trigger] design.spec_caller_row(j)
        < rows.len() by {
        match design.rows {
            None => {},
            Some(list) => {
                assert(list@[j] < design.n_obs_input);
            },
        }
    }
    assert(w.len() == design.n_obs && v.len() == design.n_obs);
    assert forall|j: int| 0 <= j < design.n_obs implies #[trigger] w[j] >= 0real && v[j] == factor
        * w[j] by {
        let at = design.spec_caller_row(j);
        match weights {
            None => {
                assert(1real == 1real * 1real) by (nonlinear_arith);
            },
            Some(a) => {
                let b = scaled_weights->Some_0;
                let r = first.spec_weights()->Some_0@[j];
                let s = second.spec_weights()->Some_0@[j];
                assert(crate::arithmetic::scalar_of(kit, a[at], r));
                assert(crate::arithmetic::scalar_of(kit, b[at], s));
            },
        }
    }
    assert(v =~= crate::operator::fit::scaled(factor, w));
    // the caller's row is part of the fit
    let k = match design.rows {
        None => row,
        Some(list) => {
            assert(crate::domain::design::is_retained(columns, rows.len(), false, row));
            assert(crate::domain::singletons::row_set(list@).contains(row));
            choose|k: int| 0 <= k < list@.len() && #[trigger] list@[k] == row
        },
    };
    assert(design.spec_caller_row(k) == row);
    assert(w[k] > 0real) by {
        match weights {
            None => {},
            Some(a) => {
                let r = first.spec_weights()->Some_0@[k];
                assert(crate::arithmetic::scalar_of(kit, a[row], r));
            },
        }
    }
    crate::solver::laws::law_solves_on_the_same_model(
        first,
        second,
        value,
        lsmr,
        factor,
        c,
        y,
        multiple,
        of_y,
        of_multiple,
        k,
    );
}

} // verus!
