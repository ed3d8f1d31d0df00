//! What a solve on raw categories is for, in terms of the categories, the
//! response and the weights alone.

use vstd::prelude::*;

use crate::binary64::Binary64;
use crate::categories::CategoryArray;
use crate::config::LsmrOptions;
use crate::domain::design::Design;
use crate::error::{BuildError, WithinError};
use crate::operator::schwarz::Preconditioner;
use crate::orchestrate::{BatchSolveResult, SolveResult};
use crate::schwarz_precond::error::SolveError;
use crate::schwarz_precond::local_solve::LocalSolver;
use crate::solver::{PreconditionerInput, Solver, SolverKit};

verus! {

/// First coefficient of factor `q`: one per level of each factor before it, where
/// a factor has all levels up to its largest.
pub open spec fn first_coefficient(rows: Seq<Seq<u32>>, q: int) -> int
    decreases q,
{
    if q <= 0 {
        0
    } else {
        first_coefficient(rows, q - 1) + crate::domain::design::max_code(
            crate::categories::column_of(rows, q - 1),
        ) as int + 1
    }
}

/// The sum of the coefficients of row `i`'s levels.
pub open spec fn fitted_value<T>(
    value: spec_fn(T) -> real,
    rows: Seq<Seq<u32>>,
    x: Seq<T>,
    i: int,
) -> real {
    crate::operator::laws::total(
        rows[0].len() as int,
        |q: int| value(x[first_coefficient(rows, q) + rows[i][q]]),
    )
}

/// The weight of row `i`, one without weights.
pub open spec fn row_weight(
    reading: spec_fn(Binary64) -> real,
    weights: Option<Seq<Binary64>>,
    i: int,
) -> real {
    match weights {
        None => 1real,
        Some(w) => reading(w[i]),
    }
}

/// What row `i` adds to the gradient at level `l` of factor `q`: its weight times
/// what its response exceeds its fitted value by, if it is at that level.
pub open spec fn gradient_part<T>(
    value: spec_fn(T) -> real,
    reading: spec_fn(Binary64) -> real,
    rows: Seq<Seq<u32>>,
    weights: Option<Seq<Binary64>>,
    y: Seq<T>,
    x: Seq<T>,
    q: int,
    l: int,
) -> spec_fn(int) -> real {
    |i: int|
        if rows[i][q] == l {
            row_weight(reading, weights, i) * (value(y[i]) - fitted_value(value, rows, x, i))
        } else {
            0real
        }
}

/// `x` is the weighted least-squares fit of `y` on the categories: at every level of
/// every factor, the weighted residuals sum to zero.
pub open spec fn is_weighted_fit<T>(
    value: spec_fn(T) -> real,
    reading: spec_fn(Binary64) -> real,
    rows: Seq<Seq<u32>>,
    weights: Option<Seq<Binary64>>,
    y: Seq<T>,
    x: Seq<T>,
) -> bool {
    forall|q: int, l: int|
        0 <= q < rows[0].len() && 0 <= l <= crate::domain::design::max_code(
            crate::categories::column_of(rows, q),
        ) ==> #[trigger] gradient_vanishes(value, reading, rows, weights, y, x, q, l)
}

/// The weighted residuals at level `l` of factor `q` sum to zero.
pub open spec fn gradient_vanishes<T>(
    value: spec_fn(T) -> real,
    reading: spec_fn(Binary64) -> real,
    rows: Seq<Seq<u32>>,
    weights: Option<Seq<Binary64>>,
    y: Seq<T>,
    x: Seq<T>,
    q: int,
    l: int,
) -> bool {
    crate::operator::laws::total(
        rows.len() as int,
        gradient_part(value, reading, rows, weights, y, x, q, l),
    ) == 0real
}

/// Changing one entry of a total from zero adds the new entry.
proof fn lemma_total_point(
    m: int,
    f: spec_fn(int) -> real,
    g: spec_fn(int) -> real,
    j: int,
)
    requires
        0 <= j < m,
        f(j) == 0real,
        forall|i: int| 0 <= i < m && i != j ==> #[trigger] f(i) == g(i),
    ensures
        crate::operator::laws::total(m, g) == crate::operator::laws::total(m, f) + g(j),
    decreases m,
{
    if j == m - 1 {
        crate::operator::laws::lemma_total_same(m - 1, f, g);
    } else {
        lemma_total_point(m - 1, f, g, j);
        assert(f(m - 1) == g(m - 1));
    }
}

/// `p` reaches `i` from below `n`.
pub open spec fn is_reached(n: int, p: spec_fn(int) -> int, i: int) -> bool {
    exists|k: int| 0 <= k < n && #[trigger] p(k) == i
}

/// The entries that `p` reaches from below `n`, zero elsewhere.
spec fn reached(n: int, p: spec_fn(int) -> int, f: spec_fn(int) -> real) -> spec_fn(int) -> real {
    |i: int|
        if is_reached(n, p, i) {
            f(i)
        } else {
            0real
        }
}

/// A total over rearranged entries.
proof fn lemma_total_reached(
    n: int,
    m: int,
    p: spec_fn(int) -> int,
    f: spec_fn(int) -> real,
    h: spec_fn(int) -> real,
)
    requires
        0 <= n,
        forall|k: int| 0 <= k < n ==> 0 <= #[trigger] p(k) < m,
        forall|j: int, k: int| #![trigger p(j), p(k)] 0 <= j < k < n ==> p(j) != p(k),
        forall|k: int| 0 <= k < n ==> #[trigger] h(k) == f(p(k)),
    ensures
        crate::operator::laws::total(n, h) == crate::operator::laws::total(m, reached(n, p, f)),
    decreases n,
{
    let now = reached(n, p, f);
    if n == 0 {
        crate::operator::laws::lemma_total_same(m, now, |i: int| 0real);
        crate::operator::laws::lemma_total_zero(m);
    } else {
        lemma_total_reached(n - 1, m, p, f, h);
        let before = reached(n - 1, p, f);
        let j = p(n - 1);
        assert(before(j) == 0real) by {
            if exists|k: int| 0 <= k < n - 1 && #[trigger] p(k) == j {
                let k = choose|k: int| 0 <= k < n - 1 && #[trigger] p(k) == j;
                assert(p(k) != p(n - 1));
            }
        }
        assert forall|i: int| 0 <= i < m && i != j implies #[trigger] before(i) == now(i) by {
            if exists|k: int| 0 <= k < n && #[trigger] p(k) == i {
                let k = choose|k: int| 0 <= k < n && #[trigger] p(k) == i;
                assert(k != n - 1);
                assert(0 <= k < n - 1 && p(k) == i);
            }
        }
        lemma_total_point(m, before, now, j);
        assert(now(j) == f(j)) by {
            assert(0 <= n - 1 < n && p(n - 1) == j);
        }
        assert(h(n - 1) == f(p(n - 1)));
    }
}

/// Rearranging all entries does not change their total.
pub proof fn lemma_total_rearranged(
    n: int,
    m: int,
    p: spec_fn(int) -> int,
    f: spec_fn(int) -> real,
    h: spec_fn(int) -> real,
)
    requires
        0 <= n,
        forall|k: int| 0 <= k < n ==> 0 <= #[trigger] p(k) < m,
        forall|j: int, k: int| #![trigger p(j), p(k)] 0 <= j < k < n ==> p(j) != p(k),
        forall|i: int| 0 <= i < m ==> #[trigger] is_reached(n, p, i),
        forall|k: int| 0 <= k < n ==> #[trigger] h(k) == f(p(k)),
    ensures
        crate::operator::laws::total(n, h) == crate::operator::laws::total(m, f),
{
    lemma_total_reached(n, m, p, f, h);
    let g = reached(n, p, f);
    assert forall|i: int| 0 <= i < m implies #[trigger] g(i) == f(i) by {
        assert(is_reached(n, p, i));
    }
    crate::operator::laws::lemma_total_same(m, g, f);
}

/// A solve on raw categories finds the weighted least-squares fit. With exact
/// arithmetic, and if the iterative method solves the least-squares problems that
/// it is given, the coefficients of every successful solve satisfy the weighted
/// normal equations of the categories, the response and the weights as the caller
/// gave them, and the demeaned response is the response less the fitted values.
pub proof fn law_solve_finds_the_weighted_fit<
    T: Copy + Send + Sync,
    S: LocalSolver<T>,
    K: SolverKit<T, S>,
    I: Into<PreconditionerInput<T, S>>,
>(
    kit: K,
    value: spec_fn(T) -> real,
    reading: spec_fn(Binary64) -> real,
    categories: &CategoryArray,
    weights: Option<Seq<Binary64>>,
    preconditioner: I,
    y: Seq<T>,
    lsmr: &LsmrOptions,
    solved: SolveResult<T>,
)
    requires
        crate::arithmetic::is_exact_field(kit, value),
        crate::operator::meaning::reads_as(kit, value, reading),
        forall|p: Option<Preconditioner<T, S>>| #[trigger]
            crate::solver::meaning::is_least_squares_method(kit, value, p, lsmr),
        crate::orchestrate::call_outcome(
            kit,
            categories,
            weights,
            preconditioner,
            y,
            lsmr,
            Ok(solved),
        ),
    ensures
        ({
            let rows = crate::categories::category_rows(*categories);
            &&& rows.len() > 0
            &&& y.len() == rows.len()
            &&& is_weighted_fit(value, reading, rows, weights, y, solved.x@)
            &&& forall|i: int|
                0 <= i < rows.len() ==> value(#[trigger] solved.demeaned@[i]) == value(y[i])
                    - fitted_value(value, rows, solved.x@, i)
        }),
{
    let built = choose|built: Result<Solver<'static, T, S, K>, BuildError>| #[trigger]
        crate::solver::new_outcome(kit, categories, weights, preconditioner, built)
            && crate::orchestrate::single_outcome(built, y, lsmr, Ok(solved));
    let solver = built->Ok_0;
    let inner = choose|inner: Result<SolveResult<T>, SolveError>| #[trigger]
        crate::solver::solve_outcome(solver, y, lsmr, inner) && crate::orchestrate::is_lifted(
            inner,
            Ok(solved),
        );
    assert(inner == Ok::<SolveResult<T>, SolveError>(solved));
    let rows = crate::categories::category_rows(*categories);
    let design = solver.spec_design();
    lemma_solver_on_categories(kit, value, reading, categories, weights, preconditioner, solver);
    crate::solver::meaning::law_solve_satisfies_the_normal_equations(
        solver,
        value,
        y,
        lsmr,
        solved,
    );
    let x = solved.x@;
    assert forall|k: int| 0 <= k < design.n_obs implies
        crate::operator::laws::total(
        design.terms@.len() as int,
        |q: int| value(x[design.terms@[q].offset + design.frame.levels()[q][k]]),
    ) == fitted_value(value, rows, x, #[trigger] crate::domain::meaning::caller_row_of(
        design,
        k,
    )) by {
        let i = crate::domain::meaning::caller_row_of(design, k);
        let f = |q: int| value(x[design.terms@[q].offset + design.frame.levels()[q][k]]);
        let g = |q: int| value(x[first_coefficient(rows, q) + rows[i][q]]);
        assert forall|q: int| 0 <= q < design.terms@.len() implies #[trigger] f(q) == g(q) by {
            assert(is_factor_of(design, rows, q));
            assert(design.frame.levels()[q][k] == rows[i][q]);
        }
        crate::operator::laws::lemma_total_same(design.terms@.len() as int, f, g);
    }
    assert forall|q: int, l: int|
        0 <= q < rows[0].len() && 0 <= l <= crate::domain::design::max_code(
            crate::categories::column_of(rows, q),
        ) implies #[trigger] gradient_vanishes(
        value,
        reading,
        rows,
        weights,
        y,
        x,
        q,
        l,
    ) by {
        assert(is_factor_of(design, rows, q));
        let inside = crate::solver::meaning::response_rows(
            value,
            design,
            solver.spec_weights(),
            y,
            x,
        );
        let h = crate::operator::laws::at_level(design.frame.levels()[q], inside, l);
        assert(crate::operator::laws::total(design.n_obs as int, h) == 0real);
        let f = gradient_part(value, reading, rows, weights, y, x, q, l);
        let p = |k: int| crate::domain::meaning::caller_row_of(design, k);
        assert forall|k: int| 0 <= k < design.n_obs implies #[trigger] h(k) == f(p(k)) by {
            let i = crate::domain::meaning::caller_row_of(design, k);
            assert(design.frame.levels()[q][k] == rows[i][q]);
            assert(crate::operator::laws::row_scale(value, solver.spec_weights(), k)
                == row_weight(reading, weights, i));
        }
        assert forall|i: int| 0 <= i < rows.len() implies #[trigger] is_reached(
            design.n_obs as int,
            p,
            i,
        ) by {
            assert(crate::domain::meaning::is_represented(design, i));
            let k = choose|k: int|
                0 <= k < design.n_obs && #[trigger] crate::domain::meaning::caller_row_of(
                    design,
                    k,
                ) == i;
            assert(p(k) == i);
        }
        assert forall|k: int| 0 <= k < design.n_obs implies 0 <= #[trigger] p(k) < rows.len() by {
            assert(0 <= crate::domain::meaning::caller_row_of(design, k) < rows.len());
        }
        assert forall|j: int, k: int| #![trigger p(j), p(k)] 0 <= j < k < design.n_obs implies p(j)
            != p(k) by {
            assert(crate::domain::meaning::caller_row_of(design, j) == p(j));
            assert(crate::domain::meaning::caller_row_of(design, k) == p(k));
        }
        lemma_total_rearranged(design.n_obs as int, rows.len() as int, p, f, h);
    }
    assert forall|i: int| 0 <= i < rows.len() implies value(#[trigger] solved.demeaned@[i])
        == value(y[i]) - fitted_value(value, rows, x, i) by {
        assert(crate::domain::meaning::is_represented(design, i));
        let k = choose|k: int|
            0 <= k < design.n_obs && #[trigger] crate::domain::meaning::caller_row_of(design, k)
                == i;
    }
}

/// Term `q` of the design is factor `q` of the categories.
spec fn is_factor_of(design: Design<'_>, rows: Seq<Seq<u32>>, q: int) -> bool {
    &&& design.terms@[q].offset == first_coefficient(rows, q)
    &&& design.terms@[q].n_levels == crate::domain::design::max_code(
        crate::categories::column_of(rows, q),
    ) + 1
    &&& forall|k: int|
        0 <= k < design.n_obs ==> #[trigger] design.frame.levels()[q][k]
            == rows[crate::domain::meaning::caller_row_of(design, k)][q]
}

proof fn lemma_solver_on_categories<
    T: Copy + Send + Sync,
    S: LocalSolver<T>,
    K: SolverKit<T, S>,
    I: Into<PreconditionerInput<T, S>>,
>(
    kit: K,
    value: spec_fn(T) -> real,
    reading: spec_fn(Binary64) -> real,
    categories: &CategoryArray,
    weights: Option<Seq<Binary64>>,
    preconditioner: I,
    solver: Solver<'static, T, S, K>,
)
    requires
        crate::arithmetic::is_exact_field(kit, value),
        crate::operator::meaning::reads_as(kit, value, reading),
        crate::solver::new_outcome(kit, categories, weights, preconditioner, Ok(solver)),
    ensures
        solver.wf(),
        solver.spec_kit() == kit,
        crate::categories::category_rows(*categories).len() > 0,
        solver.spec_design().n_obs_input == crate::categories::category_rows(*categories).len(),
        solver.spec_design().terms@.len() == crate::categories::category_rows(*categories)[0].len(),
        solver.spec_weights() matches Some(w) ==> forall|k: int|
            0 <= k < w@.len() ==> value(#[trigger] w@[k]) >= 0real,
        forall|q: int|
            0 <= q < solver.spec_design().terms@.len() ==> #[trigger] is_factor_of(
                solver.spec_design(),
                crate::categories::category_rows(*categories),
                q,
            ),
        forall|k: int|
            0 <= k < solver.spec_design().n_obs ==> crate::operator::laws::row_scale(
                value,
                solver.spec_weights(),
                k,
            ) == row_weight(
                reading,
                weights,
                #[trigger] crate::domain::meaning::caller_row_of(solver.spec_design(), k),
            ),
        forall|k: int|
            0 <= k < solver.spec_design().n_obs ==> 0
                <= #[trigger] crate::domain::meaning::caller_row_of(solver.spec_design(), k)
                < crate::categories::category_rows(*categories).len(),
        forall|j: int, k: int|
            #![trigger crate::domain::meaning::caller_row_of(solver.spec_design(), j), crate::domain::meaning::caller_row_of(solver.spec_design(), k)]
            0 <= j < k < solver.spec_design().n_obs ==> crate::domain::meaning::caller_row_of(
                solver.spec_design(),
                j,
            ) != crate::domain::meaning::caller_row_of(solver.spec_design(), k),
        forall|i: int|
            0 <= i < crate::categories::category_rows(*categories).len()
                ==> #[trigger] crate::domain::meaning::is_represented(solver.spec_design(), i),
{
    let rows = crate::categories::category_rows(*categories);
    let columns = crate::categories::columns_of(rows);
    let structure = crate::domain::access::plain_structure(columns.len());
    let options = crate::domain::access::default_options();
    let design = solver.spec_design();
    crate::orchestrate::laws::lemma_built_from_categories(
        kit,
        categories,
        weights,
        preconditioner,
        solver,
    );
    let input = choose|input: PreconditionerInput<T, S>|
        crate::solver::design_outcome(kit, design, weights, input, Ok(solver));
    crate::solver::meaning::law_new_solver_holds_its_inputs(
        kit,
        value,
        reading,
        design,
        weights,
        input,
        solver,
    );
    lemma_categories_design(rows, design);
    assert forall|k: int| 0 <= k < design.n_obs implies crate::operator::laws::row_scale(
        value,
        solver.spec_weights(),
        k,
    ) == row_weight(
        reading,
        weights,
        #[trigger] crate::domain::meaning::caller_row_of(design, k),
    ) by {
        let w = crate::operator::meaning::given_weight(reading, design, weights);
        assert(crate::operator::laws::row_scale(value, solver.spec_weights(), k) == w(k));
    }
    match solver.spec_weights() {
        None => {},
        Some(w) => {
            assert forall|k: int| 0 <= k < w@.len() implies value(#[trigger] w@[k]) >= 0real by {
                let g = crate::operator::meaning::given_weight(reading, design, weights);
                assert(crate::operator::laws::row_scale(value, solver.spec_weights(), k) == g(k));
                assert(g(k) >= 0real);
            }
        },
    }
}

/// The design of categories: one term per factor, all rows.
proof fn lemma_categories_design(rows: Seq<Seq<u32>>, design: Design<'_>)
    requires
        crate::domain::design::is_design_of(
            crate::categories::columns_of(rows),
            Seq::empty(),
            rows.len(),
            crate::domain::access::plain_structure(crate::categories::columns_of(rows).len()),
            crate::domain::access::default_options(),
            design,
        ),
    ensures
        rows.len() > 0,
        design.n_obs_input == rows.len(),
        design.terms@.len() == rows[0].len(),
        forall|q: int|
            0 <= q < design.terms@.len() ==> #[trigger] is_factor_of(design, rows, q),
        forall|k: int|
            0 <= k < design.n_obs ==> 0 <= #[trigger] crate::domain::meaning::caller_row_of(
                design,
                k,
            ) < rows.len(),
        forall|j: int, k: int|
            #![trigger crate::domain::meaning::caller_row_of(design, j), crate::domain::meaning::caller_row_of(design, k)]
            0 <= j < k < design.n_obs ==> crate::domain::meaning::caller_row_of(design, j)
                != crate::domain::meaning::caller_row_of(design, k),
        forall|i: int|
            0 <= i < rows.len() ==> #[trigger] crate::domain::meaning::is_represented(design, i),
{
    let columns = crate::categories::columns_of(rows);
    let structure = crate::domain::access::plain_structure(columns.len());
    let options = crate::domain::access::default_options();
    crate::domain::meaning::lemma_row_map(
        columns,
        Seq::empty(),
        rows.len(),
        structure,
        options,
        design,
    );
    crate::domain::meaning::lemma_columns_follow(
        columns,
        Seq::empty(),
        rows.len(),
        structure,
        options,
        design,
    );
    assert(design.terms@.len() == columns.len());
    assert forall|q: int| 0 <= q < design.terms@.len() implies #[trigger] is_factor_of(
        design,
        rows,
        q,
    ) by {
        lemma_first_coefficient(rows, q);
        assert(columns[q] == crate::categories::column_of(rows, q));
        assert(design.terms@[q].n_levels == crate::domain::design::max_code(columns[q]) + 1);
        assert(design.terms@[q].offset == crate::domain::design::dofs_before(
            columns,
            structure,
            q,
        ));
        assert forall|k: int| 0 <= k < design.n_obs implies #[trigger] design.frame.levels()[q][k]
            == rows[crate::domain::meaning::caller_row_of(design, k)][q] by {
            let i = crate::domain::meaning::caller_row_of(design, k);
            assert(design.frame.levels()[q][k] == columns[q][i]);
        }
    }
}

proof fn lemma_first_coefficient(rows: Seq<Seq<u32>>, q: int)
    requires
        rows.len() > 0,
        0 <= q <= rows[0].len(),
    ensures
        crate::domain::design::dofs_before(
            crate::categories::columns_of(rows),
            crate::domain::access::plain_structure(crate::categories::columns_of(rows).len()),
            q,
        ) == first_coefficient(rows, q),
    decreases q,
{
    if q > 0 {
        lemma_first_coefficient(rows, q - 1);
        let columns = crate::categories::columns_of(rows);
        let structure = crate::domain::access::plain_structure(columns.len());
        let size = crate::domain::design::max_code(columns[q - 1]) + 1;
        assert(structure[q - 1].len() == 1);
        assert(1 * size == size) by (nonlinear_arith);
        assert(crate::domain::design::dofs_of(columns, structure, q - 1) == size);
    }
}

/// A batch on raw categories is made of solves: each of its columns is what a
/// solve for that response alone, on the same categories, weights and
/// preconditioner, may give.
pub proof fn law_batch_is_made_of_solves<
    T: Copy + Send + Sync,
    S: LocalSolver<T>,
    K: SolverKit<T, S>,
    I: Into<PreconditionerInput<T, S>>,
>(
    kit: K,
    categories: &CategoryArray,
    weights: Option<Seq<Binary64>>,
    preconditioner: I,
    ys: Seq<&[T]>,
    lsmr: &LsmrOptions,
    batch: BatchSolveResult<T>,
    i: int,
)
    requires
        crate::orchestrate::batch_call_outcome(
            kit,
            categories,
            weights,
            preconditioner,
            ys,
            lsmr,
            Ok(batch),
        ),
        0 <= i < ys.len(),
    ensures
        exists|solved: SolveResult<T>| #[trigger]
            crate::solver::laws::is_column(batch, i, solved) && crate::orchestrate::call_outcome(
                kit,
                categories,
                weights,
                preconditioner,
                ys[i]@,
                lsmr,
                Ok(solved),
            ),
{
    let built = choose|built: Result<Solver<'static, T, S, K>, BuildError>| #[trigger]
        crate::solver::new_outcome(kit, categories, weights, preconditioner, built)
            && crate::orchestrate::many_outcome(built, ys, lsmr, Ok(batch));
    let solver = built->Ok_0;
    let inner = choose|inner: Result<BatchSolveResult<T>, SolveError>| #[trigger]
        crate::solver::batch_outcome(solver, ys, lsmr, inner) && crate::orchestrate::is_lifted(
            inner,
            Ok(batch),
        );
    assert(inner == Ok::<BatchSolveResult<T>, SolveError>(batch));
    crate::solver::laws::law_batch_columns_are_solves(solver, ys, lsmr, batch, i);
    let solved = choose|solved: SolveResult<T>| #[trigger]
        crate::solver::laws::is_column(batch, i, solved) && crate::solver::solve_outcome(
            solver,
            ys[i]@,
            lsmr,
            Ok(solved),
        );
    let single: Result<SolveResult<T>, SolveError> = Ok(solved);
    let lifted: Result<SolveResult<T>, WithinError> = Ok(solved);
    assert(crate::solver::solve_outcome(solver, ys[i]@, lsmr, single));
    assert(crate::orchestrate::is_lifted(single, lifted));
    assert(crate::orchestrate::single_outcome(built, ys[i]@, lsmr, lifted));
    assert(crate::orchestrate::call_outcome(
        kit,
        categories,
        weights,
        preconditioner,
        ys[i]@,
        lsmr,
        lifted,
    ));
}

/// A solve on raw categories fails while building exactly if no solver can be
/// built, and while solving exactly if the solver's solve fails, each time with
/// the failure itself.
pub proof fn law_solve_passes_failures_on<
    T: Copy + Send + Sync,
    S: LocalSolver<T>,
    K: SolverKit<T, S>,
    I: Into<PreconditionerInput<T, S>>,
>(
    kit: K,
    categories: &CategoryArray,
    weights: Option<Seq<Binary64>>,
    preconditioner: I,
    y: Seq<T>,
    lsmr: &LsmrOptions,
    result: Result<SolveResult<T>, WithinError>,
)
    requires
        crate::orchestrate::call_outcome(
            kit,
            categories,
            weights,
            preconditioner,
            y,
            lsmr,
            result,
        ),
    ensures
        match result {
            Err(WithinError::Build(e)) => crate::solver::new_outcome::<'static, T, S, K, _, I>(
                kit,
                categories,
                weights,
                preconditioner,
                Err(e),
            ),
            Err(WithinError::Solve(e)) => exists|solver: Solver<'static, T, S, K>|
                #[trigger] crate::solver::new_outcome(
                    kit,
                    categories,
                    weights,
                    preconditioner,
                    Ok(solver),
                ) && crate::solver::solve_outcome(solver, y, lsmr, Err(e)),
            Ok(solved) => exists|solver: Solver<'static, T, S, K>|
                #[trigger] crate::solver::new_outcome(
                    kit,
                    categories,
                    weights,
                    preconditioner,
                    Ok(solver),
                ) && crate::solver::solve_outcome(solver, y, lsmr, Ok(solved)),
        },
{
    let built = choose|built: Result<Solver<'static, T, S, K>, BuildError>| #[trigger]
        crate::solver::new_outcome(kit, categories, weights, preconditioner, built)
            && crate::orchestrate::single_outcome(built, y, lsmr, result);
    match built {
        Err(e) => {},
        Ok(solver) => {
            let inner = choose|inner: Result<SolveResult<T>, SolveError>| #[trigger]
                crate::solver::solve_outcome(solver, y, lsmr, inner)
                    && crate::orchestrate::is_lifted(inner, result);
            assert(crate::solver::solve_outcome(solver, y, lsmr, inner));
        },
    }
}

} // verus!
