use std::borrow::Cow;

use within::arithmetic::Arithmetic;
use within::binary64::Binary64;
use within::categories::{CategoryArray, IntoDesign};
use within::config::{LocalSolverConfig, LsmrOptions, PreconditionerConfig, ReductionStrategy};
use within::domain::{Design, DesignOptions};
use within::elimination::CrossTab;
use within::error::{BuildError, WithinError};
use within::kernels::AtomicBins;
use within::observation::{FactorMajorStore, ObservationFrame};
use within::operator::design_operator::DesignOperator;
use within::operator::preconditioner as additive_only;
use within::operator::schwarz::{
    build_diagonal, build_preconditioner, invert_diagonal, DiagonalPreconditioner,
    LocalSolverBuilder, Preconditioner,
};
use within::orchestrate::{solve, solve_batch, SolveResult};
use within::schwarz_precond::error::{LocalSolveError, SolveError};
use within::schwarz_precond::local_solve::LocalSolver;
use within::schwarz_precond::solve::vec_norm;
use within::solver::{finish_solve, LsmrResult, PreconditionerInput, Solver, SolverKit};

#[derive(Debug, Clone, Copy)]
struct Kit;

impl Arithmetic<f64> for Kit {
    fn zero(&self) -> f64 {
        0.0
    }
    fn one(&self) -> f64 {
        1.0
    }
    fn plus(&self, a: f64, b: f64) -> f64 {
        a + b
    }
    fn minus(&self, a: f64, b: f64) -> f64 {
        a - b
    }
    fn times(&self, a: f64, b: f64) -> f64 {
        a * b
    }
    fn divide(&self, a: f64, b: f64) -> f64 {
        a / b
    }
    fn square_root(&self, a: f64) -> f64 {
        a.sqrt()
    }
    fn magnitude(&self, a: f64) -> f64 {
        a.abs()
    }
    fn at_least(&self, a: f64, b: f64) -> bool {
        a >= b
    }
    fn is_positive(&self, a: f64) -> bool {
        a > 0.0
    }
    fn is_finite(&self, a: f64) -> bool {
        a.is_finite()
    }
    fn from_count(&self, count: u32) -> f64 {
        count as f64
    }
    fn from_binary64(&self, value: Binary64) -> f64 {
        f64::from_bits(value.bits)
    }
}

impl AtomicBins<f64, Kit> for Kit {
    fn accumulate(
        &self,
        initial: Vec<f64>,
        codes: &[u32],
        values: &[f64],
        _ops: &Kit,
    ) -> Vec<f64> {
        let mut bins = initial;
        for (&code, &value) in codes.iter().zip(values) {
            bins[code as usize] += value;
        }
        bins
    }
}

/// Inverse of a connected subdomain's matrix, shifted along its null vector.
#[derive(Debug, Clone)]
struct Dense {
    n: usize,
    inverse: Vec<f64>,
}

impl LocalSolver<f64> for Dense {
    fn n_local(&self) -> usize {
        self.n
    }
    fn scratch_size(&self) -> usize {
        self.n
    }
    fn inner_parallelism_work_estimate(&self) -> usize {
        0
    }
    fn solve_local(&self, rhs: Vec<f64>, _allow: bool) -> Result<Vec<f64>, LocalSolveError> {
        Ok((0..self.n)
            .map(|i| (0..self.n).map(|j| self.inverse[i * self.n + j] * rhs[j]).sum())
            .collect())
    }
}

impl LocalSolverBuilder<f64, Dense> for Kit {
    fn build(&self, table: CrossTab<f64>, config: &LocalSolverConfig) -> Result<Dense, BuildError> {
        if config.dense_threshold == 999 {
            return Err(BuildError::LocalSolverBuild("factorization failed".to_string()));
        }
        let (n_q, n_r) = (table.n_q(), table.n_r());
        let n = n_q + n_r;
        let mut a = vec![0.0; n * n];
        for i in 0..n {
            for j in 0..n {
                let sign = if (i < n_q) == (j < n_q) { 1.0 } else { -1.0 };
                a[i * n + j] = sign / n as f64;
            }
        }
        for i in 0..n_q {
            a[i * n + i] += table.diag_q[i];
            for e in table.c.indptr[i]..table.c.indptr[i + 1] {
                let j = n_q + table.c.indices[e] as usize;
                a[i * n + j] += table.c.data[e];
                a[j * n + i] += table.c.data[e];
            }
        }
        for j in 0..n_r {
            a[(n_q + j) * n + n_q + j] += table.diag_r[j];
        }
        // Gauss-Jordan
        let mut inverse = vec![0.0; n * n];
        for i in 0..n {
            inverse[i * n + i] = 1.0;
        }
        for k in 0..n {
            let pivot = (k..n)
                .max_by(|&i, &j| a[i * n + k].abs().total_cmp(&a[j * n + k].abs()))
                .expect("rows left");
            for j in 0..n {
                a.swap(k * n + j, pivot * n + j);
                inverse.swap(k * n + j, pivot * n + j);
            }
            let d = a[k * n + k];
            for j in 0..n {
                a[k * n + j] /= d;
                inverse[k * n + j] /= d;
            }
            for i in 0..n {
                let f = a[i * n + k];
                if i != k && f != 0.0 {
                    for j in 0..n {
                        a[i * n + j] -= f * a[k * n + j];
                        inverse[i * n + j] -= f * inverse[k * n + j];
                    }
                }
            }
        }
        Ok(Dense { n, inverse })
    }
}

/// Conjugate gradients on the normal equations.
fn conjugate_gradients(
    operator: &DesignOperator<'_, '_, f64, Kit, Kit>,
    b: &[f64],
    preconditioner: Option<&Preconditioner<f64, Dense>>,
    options: &LsmrOptions,
) -> Result<LsmrResult<f64>, SolveError> {
    let n = operator.ncols();
    let precondition = |r: &[f64]| -> Result<Vec<f64>, SolveError> {
        match preconditioner {
            None => Ok(r.to_vec()),
            Some(p) => {
                let mut z = vec![0.0; n];
                p.apply(r, &mut z, &Kit, &Kit)?;
                Ok(z)
            }
        }
    };
    let dot = |a: &[f64], b: &[f64]| -> f64 { a.iter().zip(b).map(|(x, y)| x * y).sum() };
    let tol = f64::from_bits(options.tol.bits);
    let mut x = vec![0.0; n];
    let mut r = vec![0.0; n];
    operator.apply_adjoint(b, &mut r);
    let target = tol * dot(&r, &r).sqrt();
    let mut z = precondition(&r)?;
    let mut p = z.clone();
    let mut rz = dot(&r, &z);
    for iterations in 0..options.maxiter {
        if dot(&r, &r).sqrt() <= target {
            return Ok(LsmrResult { x, converged: true, iterations, time_solve: 0.25 });
        }
        let mut ap = vec![0.0; operator.nrows()];
        operator.apply(&p, &mut ap);
        let mut aap = vec![0.0; n];
        operator.apply_adjoint(&ap, &mut aap);
        let alpha = rz / dot(&p, &aap);
        for i in 0..n {
            x[i] += alpha * p[i];
            r[i] -= alpha * aap[i];
        }
        z = precondition(&r)?;
        let next = dot(&r, &z);
        for i in 0..n {
            p[i] = z[i] + next / rz * p[i];
        }
        rz = next;
    }
    Ok(LsmrResult { x, converged: false, iterations: options.maxiter, time_solve: 0.25 })
}

impl SolverKit<f64, Dense> for Kit {
    fn lsmr(
        &self,
        operator: &DesignOperator<'_, '_, f64, Kit, Kit>,
        b: &[f64],
        options: &LsmrOptions,
    ) -> Result<LsmrResult<f64>, SolveError> {
        conjugate_gradients(operator, b, None, options)
    }
    fn mlsmr(
        &self,
        operator: &DesignOperator<'_, '_, f64, Kit, Kit>,
        b: &[f64],
        preconditioner: &Preconditioner<f64, Dense>,
        options: &LsmrOptions,
    ) -> Result<LsmrResult<f64>, SolveError> {
        conjugate_gradients(operator, b, Some(preconditioner), options)
    }
}

fn bits(values: &[f64]) -> Vec<Binary64> {
    values
        .iter()
        .map(|v| Binary64 { bits: v.to_bits() })
        .collect()
}

const FIRST: [u32; 5] = [0, 1, 0, 1, 2];
const SECOND: [u32; 5] = [0, 0, 1, 1, 0];

fn frame(columns: Vec<Vec<u32>>) -> ObservationFrame<'static> {
    ObservationFrame::new(columns.into_iter().map(Cow::Owned).collect(), Vec::new())
        .expect("valid frame")
}

fn make_test_design() -> Design<'static> {
    Design::from_frame(frame(vec![FIRST.to_vec(), SECOND.to_vec()])).expect("valid design")
}

fn make_deterministic_y(n: usize) -> Vec<f64> {
    (0..n).map(|i| ((i * 7 + 3) % 11) as f64 - 4.0).collect()
}

fn params() -> LsmrOptions {
    LsmrOptions {
        tol: Binary64 { bits: 1e-8f64.to_bits() },
        maxiter: 1000,
        ..LsmrOptions::default()
    }
}

fn assert_converged_with_small_residual(result: &SolveResult<f64>, tol: f64) {
    assert!(result.converged, "did not converge");
    assert!(result.residual < tol, "residual {}", result.residual);
}

/// `D^T W (y - D x)` vanishes, computed from the raw categories.
fn assert_normal_equations_satisfied(
    weights: Option<&[f64]>,
    y: &[f64],
    result: &SolveResult<f64>,
    tol: f64,
) {
    let mut gradient = [0.0f64; 5];
    for i in 0..5 {
        let fitted = result.x[FIRST[i] as usize] + result.x[3 + SECOND[i] as usize];
        assert!((y[i] - fitted - result.demeaned[i]).abs() < 1e-12);
        let r = result.demeaned[i] * weights.map_or(1.0, |w| w[i]);
        gradient[FIRST[i] as usize] += r;
        gradient[3 + SECOND[i] as usize] += r;
    }
    assert!(gradient.iter().all(|g| g.abs() < tol), "{:?}", gradient);
}

#[test]
fn test_lsmr_unpreconditioned() {
    let y = make_deterministic_y(5);
    let solver: Solver<f64, Dense, Kit> =
        Solver::new(make_test_design(), None, PreconditionerConfig::Off, Kit)
            .expect("build solver");
    assert!(solver.preconditioner().is_none());
    let result = solver.solve(&y, &params()).expect("solve");
    assert_converged_with_small_residual(&result, 1e-6);
    assert_normal_equations_satisfied(None, &y, &result, 1e-6);
}

#[test]
fn test_lsmr_preconditioned() {
    let y = make_deterministic_y(5);
    let precond = PreconditionerConfig::Additive {
        local_solver: LocalSolverConfig::default(),
        reduction: ReductionStrategy::Auto,
    };
    let solver: Solver<f64, Dense, Kit> =
        Solver::new(make_test_design(), None, &precond, Kit).expect("build solver");
    let result = solver.solve(&y, &params()).expect("solve");
    assert_converged_with_small_residual(&result, 1e-6);
    assert_normal_equations_satisfied(None, &y, &result, 1e-6);
    assert_eq!(
        solver.preconditioner().expect("built").variant_name(),
        "Additive"
    );
}

#[test]
fn test_lsmr_diagonal_preconditioned() {
    let y = make_deterministic_y(5);
    let precond = PreconditionerConfig::Diagonal;
    let solver: Solver<f64, Dense, Kit> =
        Solver::new(make_test_design(), None, &precond, Kit).expect("build solver");
    let result = solver.solve(&y, &params()).expect("solve");
    assert_converged_with_small_residual(&result, 1e-6);
    assert!(result.x.iter().all(|v| v.is_finite()));
    assert_normal_equations_satisfied(None, &y, &result, 1e-6);
    assert_eq!(
        solver.preconditioner().expect("built").variant_name(),
        "Diagonal"
    );
}

#[test]
fn test_lsmr_least_squares() {
    let y = vec![1.0, 2.0, 3.0, 4.0, 5.0];
    let solver: Solver<f64, Dense, Kit> =
        Solver::new(make_test_design(), None, None, Kit).expect("build solver");
    let result = solver.solve(&y, &params()).expect("solve");
    assert!(result.converged, "LSMR LS did not converge");
    assert!(result.x.iter().all(|v| v.is_finite()));
    assert_normal_equations_satisfied(None, &y, &result, 1e-6);
}

#[test]
fn test_lsmr_least_squares_weighted_preconditioned() {
    let weights = vec![1.0, 2.0, 1.5, 0.5, 3.0];
    let y = vec![1.0, 2.0, 3.0, 4.0, 5.0];
    let design = DesignOptions::default()
        .weights(Cow::Owned(bits(&weights)))
        .from_frame(frame(vec![vec![0, 1, 0, 1, 2], vec![0, 0, 1, 1, 0]]))
        .expect("valid design");
    let precond = PreconditionerConfig::default();
    let solver: Solver<f64, Dense, Kit> =
        Solver::new(design, None, &precond, Kit).expect("build solver");
    let result = solver.solve(&y, &params()).expect("solve");
    assert_converged_with_small_residual(&result, 1e-6);
    assert!(result.x.iter().all(|v| v.is_finite()));
    assert_normal_equations_satisfied(Some(&weights), &y, &result, 1e-6);
    // The same weights as an argument.
    let solver: Solver<f64, Dense, Kit> =
        Solver::new(make_test_design(), Some(bits(&weights)), &precond, Kit)
            .expect("build solver");
    let again = solver.solve(&y, &params()).expect("solve");
    assert_eq!(again.x, result.x);
}

#[test]
fn solver_filters_caller_rhs_and_restores_removed_rows_as_nan() {
    let design = DesignOptions::default()
        .drop_singletons(true)
        .from_frame(frame(vec![vec![0u32, 1, 0, 0, 2]]))
        .unwrap();

    let solver: Solver<f64, Dense, Kit> =
        Solver::new(design, None, PreconditionerConfig::default(), Kit).unwrap();
    let y = [1.0, f64::NAN, 3.0, 4.0, f64::NAN];
    let result = solver.solve(&y, &LsmrOptions::default()).unwrap();

    assert_eq!(solver.n_obs(), 5);
    assert_eq!(solver.n_retained_obs(), 3);
    assert_eq!(result.demeaned.len(), 5);
    assert!((result.demeaned[0] + 5.0 / 3.0).abs() < 1e-10);
    assert!(result.demeaned[1].is_nan());
    assert!((result.demeaned[2] - 1.0 / 3.0).abs() < 1e-10);
    assert!((result.demeaned[3] - 4.0 / 3.0).abs() < 1e-10);
    assert!(result.demeaned[4].is_nan());

    let batch = solver
        .solve_batch(&[&y, &y], &LsmrOptions::default())
        .unwrap();
    assert_eq!(batch.n_obs, 5);
    for demeaned in [batch.demeaned(0), batch.demeaned(1)] {
        assert!((demeaned[0] + 5.0 / 3.0).abs() < 1e-10);
        assert!(demeaned[1].is_nan());
        assert!((demeaned[2] - 1.0 / 3.0).abs() < 1e-10);
        assert!((demeaned[3] - 4.0 / 3.0).abs() < 1e-10);
        assert!(demeaned[4].is_nan());
    }
}

fn cats() -> CategoryArray {
    CategoryArray::from_shape(4, 2, vec![0u32, 0, 1, 1, 2, 0, 3, 1]).expect("cats")
}

type S = Solver<'static, f64, Dense, Kit>;

#[test]
fn precond_input_call_shapes_compile() {
    let categories = cats();
    let cfg = PreconditionerConfig::default();

    // Obtain a prebuilt preconditioner through the public path.
    let setup: S = Solver::new(&categories, None, &cfg, Kit).unwrap();
    let prec = setup
        .preconditioner()
        .expect("default solver has a preconditioner")
        .clone();

    let _: S = Solver::new(&categories, None, None, Kit).expect("None form");
    let _: S = Solver::new(&categories, None, &cfg, Kit).expect("&Cfg form");
    let _: S = Solver::new(&categories, None, Some(&cfg), Kit).expect("Some(&Cfg) form");
    let _: S = Solver::new(&categories, None, prec.clone(), Kit).expect("owned Prec form");
    let _: S = Solver::new(&categories, None, &prec, Kit).expect("&Prec form");
    let _: S = Solver::new(&categories, None, prec, Kit).expect("owned Prec form (move)");
}

#[test]
fn precond_input_owned_config_form() {
    let categories = cats();
    let cfg = PreconditionerConfig::default();
    let _: S = Solver::new(&categories, None, cfg, Kit).expect("owned Cfg form");
}

#[test]
fn solve_free_function_precond_call_shapes_compile() {
    let categories = cats();
    let y = vec![0.0; 4];
    let lsmr = LsmrOptions::default();
    let cfg = PreconditionerConfig::default();

    let setup: S = Solver::new(&categories, None, &cfg, Kit).unwrap();
    let prec = setup
        .preconditioner()
        .expect("default solver has a preconditioner")
        .clone();

    let _ = solve::<f64, Dense, Kit, Option<&PreconditionerConfig>>(&categories, &y, None, &lsmr, None, Kit).expect("None form");
    let _ = solve::<f64, Dense, Kit, _>(&categories, &y, None, &lsmr, &cfg, Kit).expect("&Cfg form");
    let _ = solve::<f64, Dense, Kit, _>(&categories, &y, None, &lsmr, Some(&cfg), Kit).expect("Some(&Cfg) form");
    let _ = solve(&categories, &y, None, &lsmr, prec.clone(), Kit).expect("owned Prec form");
    let _ = solve(&categories, &y, None, &lsmr, &prec, Kit).expect("&Prec form");
    let _ = solve::<f64, Dense, Kit, _>(&categories, &y, None, &lsmr, cfg.clone(), Kit).expect("owned Cfg form");

    // solve_batch accepts the same shapes.
    let ys: Vec<&[f64]> = vec![&y];
    let _ = solve_batch::<f64, Dense, Kit, Option<&PreconditionerConfig>>(&categories, &ys, None, &lsmr, None, Kit).expect("batch None form");
    let _ = solve_batch::<f64, Dense, Kit, _>(&categories, &ys, None, &lsmr, &cfg, Kit).expect("batch &Cfg form");
    let _ = solve_batch::<f64, Dense, Kit, _>(&categories, &ys, None, &lsmr, Some(&cfg), Kit)
        .expect("batch Some(&Cfg) form");
    let _ = solve_batch(&categories, &ys, None, &lsmr, prec.clone(), Kit)
        .expect("batch owned Prec form");
    let _ = solve_batch(&categories, &ys, None, &lsmr, &prec, Kit).expect("batch &Prec form");
    let _ = solve_batch::<f64, Dense, Kit, _>(&categories, &ys, None, &lsmr, cfg, Kit).expect("batch owned Cfg form");
}

#[test]
fn solver_new_weights_call_shapes_compile() {
    let categories = cats();
    let w_vec: Vec<f64> = vec![1.0; 4];
    let w_slice: &[f64] = &w_vec;

    let _: S = Solver::new(&categories, None, None, Kit).expect("None weights");
    let _: S = Solver::new(&categories, Some(bits(&w_vec)), None, Kit).expect("Vec<f64> weights");
    let _: S = Solver::new(&categories, Some(bits(w_slice)), None, Kit).expect("&[f64] weights");
}

#[test]
fn test_weight_count_mismatch_error() {
    // Weights of wrong length are caught at Solver construction time.
    let store = FactorMajorStore::new(vec![vec![0, 1, 2], vec![0, 1, 0]], 3).expect("store ok");
    let design = Design::from_store(store).expect("valid design");
    let result: Result<S, BuildError> = Solver::new(design, Some(bits(&[1.0, 2.0])), None, Kit);
    let err = result
        .err()
        .expect("expected WeightCountMismatch error, got Ok");
    match err {
        BuildError::WeightCountMismatch { .. } => {}
        other => panic!("Expected WeightCountMismatch, got: {:?}", other),
    }
}

#[test]
fn test_empty_categories_via_solve() {
    let cats = CategoryArray::from_shape(0, 2, vec![]).expect("empty array");
    let y: Vec<f64> = vec![];
    let precond = PreconditionerConfig::default();
    let result =
        solve::<f64, Dense, Kit, _>(&cats, &y, None, &LsmrOptions::default(), Some(&precond), Kit);
    assert!(result.is_err());
    match result.unwrap_err() {
        WithinError::Build(BuildError::EmptyObservations) => {}
        other => panic!(
            "Expected Build(EmptyObservations) via solve(), got: {:?}",
            other
        ),
    }
}

#[test]
fn category_arrays_are_read_by_column() {
    let array = CategoryArray::from_shape(3, 2, vec![0, 10, 1, 11, 2, 12]).expect("array");
    assert_eq!(array.n_obs(), 3);
    assert_eq!(array.columns(), [vec![0, 1, 2], vec![10, 11, 12]]);
    assert!(CategoryArray::from_shape(3, 2, vec![0; 5]).is_none());
    assert!(CategoryArray::from_shape(3, 2, vec![0; 7]).is_none());
    assert!(CategoryArray::from_shape(0, usize::MAX, vec![]).is_none());
    assert!(CategoryArray::from_shape(0, 2, vec![])
        .expect("empty")
        .columns()
        .is_empty());
    let design = array.into_design().expect("design");
    assert_eq!(design.n_dofs(), 3 + 13);
    assert_eq!(design.frame.level_column(1), [10, 11, 12]);
    assert!(matches!(
        CategoryArray::from_shape(2, 0, vec![])
            .expect("no columns")
            .into_design()
            .map(|d| d.n_dofs()),
        Ok(0)
    ));
}

#[test]
fn responses_of_the_wrong_length_are_refused() {
    let solver: S = Solver::new(&cats(), None, None, Kit).expect("solver");
    for n in [3, 5] {
        match solver.solve(&vec![0.0; n], &params()) {
            Err(SolveError::InvalidInput { context, message }) => {
                assert_eq!(context, "Solver::solve");
                assert_eq!(
                    message,
                    format!(
                        "response vector length ({n}) does not match number of observations (4)"
                    )
                );
            }
            other => panic!("unexpected {:?}", other.is_ok()),
        }
    }
    let good = vec![0.0; 4];
    let bad = vec![0.0; 6];
    match solver.solve_batch(&[&good, &bad], &params()) {
        Err(SolveError::InvalidInput { message, .. }) => {
            assert!(message.contains("(6)"));
        }
        other => panic!("unexpected {:?}", other.is_ok()),
    }
}

#[test]
fn responses_that_are_not_finite_are_refused() {
    let design = DesignOptions::default()
        .drop_singletons(true)
        .from_frame(frame(vec![vec![0u32, 1, 0, 0, 2]]))
        .expect("design");
    let solver: Solver<f64, Dense, Kit> =
        Solver::new(design, None, PreconditionerConfig::Off, Kit).expect("solver");
    for bad in [f64::NAN, f64::INFINITY, f64::NEG_INFINITY] {
        match solver.solve(&[1.0, bad, 3.0, bad, bad], &params()) {
            Err(SolveError::InvalidInput { context, message }) => {
                assert_eq!(context, "Solver::solve");
                assert_eq!(
                    message,
                    "response vector is not finite at observation 3"
                );
            }
            other => panic!("unexpected {:?}", other.is_ok()),
        }
        // rows that take no part in the fit are not looked at
        assert!(solver.solve(&[1.0, bad, 3.0, 4.0, bad], &params()).is_ok());
    }
}

#[test]
fn a_batch_reports_its_first_failure() {
    let solver: S = Solver::new(&cats(), None, None, Kit).expect("solver");
    let good = [0.0; 4];
    let bad = [0.0, f64::NAN, 0.0, 0.0];
    let short = [0.0; 2];
    match solver.solve_batch(&[&good, &bad, &short], &params()) {
        Err(SolveError::InvalidInput { message, .. }) => assert_eq!(
            message,
            "response vector is not finite at observation 1"
        ),
        other => panic!("unexpected {:?}", other.is_ok()),
    }
}

#[test]
fn batches_hold_the_single_solves_side_by_side() {
    let solver: S = Solver::new(&cats(), None, None, Kit).expect("solver");
    let ys: Vec<Vec<f64>> = (0..3)
        .map(|k| (0..4).map(|i| ((i * 5 + k * 3) % 7) as f64).collect())
        .collect();
    let refs: Vec<&[f64]> = ys.iter().map(|y| y.as_slice()).collect();
    let batch = solver.solve_batch(&refs, &params()).expect("batch");
    assert_eq!((batch.n_dofs, batch.n_obs), (6, 4));
    for (k, y) in ys.iter().enumerate() {
        let single = solver.solve(y, &params()).expect("single");
        assert_eq!(batch.x(k), single.x);
        assert_eq!(batch.demeaned(k), single.demeaned);
        assert_eq!(batch.converged[k], single.converged);
        assert_eq!(batch.iterations[k], single.iterations);
        assert_eq!(batch.residual[k], single.residual);
        assert_eq!(batch.time_solve[k], 0.25);
    }
    let empty = solver.solve_batch(&[], &params()).expect("empty batch");
    assert!(empty.x.is_empty() && empty.converged.is_empty());
    assert_eq!((empty.n_dofs, empty.n_obs), (6, 4));
}

#[test]
fn prebuilt_preconditioners_must_fit() {
    let big: S = Solver::new(&cats(), None, PreconditionerConfig::Diagonal, Kit).expect("solver");
    let prec = big.preconditioner().expect("built");
    assert_eq!((prec.nrows(), prec.ncols()), (6, 6));
    let small = CategoryArray::from_shape(2, 1, vec![0, 1]).expect("small");
    let result: Result<S, BuildError> = Solver::new(&small, None, prec, Kit);
    match result {
        Err(BuildError::PreconditionerDimensionMismatch {
            expected,
            actual_rows,
            actual_cols,
        }) => assert_eq!((expected, actual_rows, actual_cols), (2, 6, 6)),
        other => panic!("unexpected {:?}", other.is_ok()),
    }
    match Solver::<f64, Dense, Kit>::new(&small, Some(bits(&[1.0, -1.0])), prec, Kit) {
        Err(BuildError::InvalidWeight { index, .. }) => assert_eq!(index, 1),
        other => panic!("unexpected {:?}", other.is_ok()),
    }
}

#[test]
fn a_failing_factorization_stops_the_build() {
    let config = PreconditionerConfig::Additive {
        local_solver: LocalSolverConfig {
            dense_threshold: 999,
            ..LocalSolverConfig::default()
        },
        reduction: ReductionStrategy::Auto,
    };
    let result: Result<S, BuildError> = Solver::new(&cats(), None, config, Kit);
    assert!(matches!(result, Err(BuildError::LocalSolverBuild(_))));
}

#[test]
fn single_factor_designs_stay_unpreconditioned() {
    let categories = CategoryArray::from_shape(3, 1, vec![0, 1, 0]).expect("cats");
    let solver: S = Solver::new(&categories, None, None, Kit).expect("solver");
    assert!(solver.preconditioner().is_none());
    assert_eq!((solver.n_dofs(), solver.n_obs()), (2, 3));
    let result = solver.solve(&[1.0, 5.0, 3.0], &params()).expect("solve");
    assert_eq!(result.x, [2.0, 5.0]);
    assert_eq!(result.demeaned, [-1.0, 0.0, 1.0]);
    assert_eq!(result.residual, 0.0);
}

#[test]
fn diagonal_preconditioner_inverts_level_weights() {
    let design = Design::from_frame_unsorted(frame(vec![vec![0, 1, 0], vec![0, 0, 1]])).unwrap();
    let p = build_diagonal(&design, Some(&[1.0, 2.0, 3.0]), &Kit).expect("diagonal");
    let mut y = vec![0.0; 4];
    p.apply_scaling(&[4.0, 4.0, 3.0, 3.0], &mut y, &Kit).expect("apply");
    assert_eq!(y, [1.0, 2.0, 1.0, 1.0]);
    match build_diagonal(&design, Some(&[1.0, 0.0, 3.0]), &Kit) {
        Err(BuildError::SingularDiagonal { block, index }) => {
            assert_eq!((block, index), ("diagonal", 1));
        }
        other => panic!("unexpected {:?}", other.is_ok()),
    }
    assert!(matches!(
        invert_diagonal(&[1.0, f64::INFINITY], &Kit),
        Err(BuildError::SingularDiagonal { index: 1, .. })
    ));
    assert!(matches!(
        invert_diagonal(&[f64::NAN], &Kit),
        Err(BuildError::SingularDiagonal { index: 0, .. })
    ));
}

#[test]
fn diagonal_preconditioner_refuses_wrong_lengths() {
    let p: Preconditioner<f64, Dense> =
        Preconditioner::diagonal(DiagonalPreconditioner::new(vec![2.0, 3.0]));
    let mut y = vec![0.0; 2];
    p.apply(&[1.0, 1.0], &mut y, &Kit, &Kit).expect("apply");
    assert_eq!(y, [2.0, 3.0]);
    let mut again = vec![0.0; 2];
    p.clone()
        .apply_adjoint(&[1.0, 1.0], &mut again, &Kit, &Kit)
        .expect("adjoint");
    assert_eq!(again, y);
    match p.apply(&[1.0], &mut y, &Kit, &Kit) {
        Err(SolveError::InvalidInput { context, message }) => {
            assert_eq!(context, "DiagonalPreconditioner::apply");
            assert_eq!(message, "x.len() (1) != n_dofs (2)");
        }
        other => panic!("unexpected {:?}", other),
    }
    let mut long = vec![0.0; 3];
    match p.apply(&[1.0, 1.0], &mut long, &Kit, &Kit) {
        Err(SolveError::InvalidInput { message, .. }) => {
            assert_eq!(message, "y.len() (3) != n_dofs (2)");
        }
        other => panic!("unexpected {:?}", other),
    }
}

#[test]
fn configurations_choose_the_preconditioner() {
    let design = make_test_design();
    let off: Option<Preconditioner<f64, Dense>> =
        build_preconditioner(&design, None, Some(&PreconditionerConfig::Off), &Kit, &Kit)
            .expect("off");
    assert!(off.is_none());
    let default: Option<Preconditioner<f64, Dense>> =
        build_preconditioner(&design, None, None, &Kit, &Kit).expect("default");
    assert_eq!(default.expect("additive").variant_name(), "Additive");
    let bad: Result<Option<Preconditioner<f64, Dense>>, BuildError> =
        build_preconditioner(&design, Some(&bits(&[1.0])), None, &Kit, &Kit);
    assert!(matches!(bad, Err(BuildError::WeightCountMismatch { .. })));
    let fe = additive_only::build_preconditioner::<f64, Dense, Kit, Kit>(
        &design,
        None,
        &within::config::Preconditioner::default(),
        &Kit,
        &Kit,
    )
    .expect("additive");
    assert_eq!(fe.n_subdomains(), 1);
    assert_eq!(fe.subdomain_inner_parallel_work::<f64>(), [0]);
    assert_eq!(
        fe.additive_reduction_strategy(),
        Some(ReductionStrategy::Auto)
    );
    assert!(fe.resolved_additive_reduction_strategy().is_some());
    assert_eq!((fe.nrows(), fe.ncols()), (5, 5));
    let mut z = vec![0.0; 5];
    fe.apply(&[1.0, 0.0, 0.0, 0.0, 0.0], &mut z, &Kit, &Kit)
        .expect("apply");
    assert!(vec_norm(&z, &Kit) > 0.0);
}

#[test]
fn answers_of_the_wrong_length_are_refused() {
    let design = make_test_design();
    let operator = DesignOperator::new(&design, None, &Kit, &Kit);
    let answer = LsmrResult {
        x: vec![0.0; 4],
        converged: true,
        iterations: 1,
        time_solve: 0.5,
    };
    let y = make_deterministic_y(5);
    match finish_solve(&operator, &y, &y, answer) {
        Err(SolveError::InvalidInput { message, .. }) => assert_eq!(
            message,
            "coefficient vector length (4) does not match number of unknowns (5)"
        ),
        other => panic!("unexpected {:?}", other.is_ok()),
    }
}

#[test]
fn the_residual_is_relative_to_the_gradient_of_the_response() {
    let design = Design::from_frame_unsorted(frame(vec![vec![0, 0, 1]])).unwrap();
    let operator = DesignOperator::new(&design, Some(&[4.0, 1.0, 1.0]), &Kit, &Kit);
    let y = [3.0, 1.0, 2.0];
    let b = operator.weighted_rhs(&y);
    let answer = LsmrResult {
        x: vec![2.0, 2.0],
        converged: false,
        iterations: 3,
        time_solve: 0.5,
    };
    let solved = finish_solve(&operator, &y, &b, answer).expect("finish");
    assert_eq!(solved.demeaned, [1.0, -1.0, 0.0]);
    assert!(!solved.converged);
    assert_eq!(solved.iterations, 3);
    assert_eq!(solved.time_solve, 0.5);
    // D^T W r = (3, 0), D^T W y = (13, 2)
    assert_eq!(solved.residual, 3.0 / (173.0f64).sqrt());
    let zero = LsmrResult {
        x: vec![1.0, 0.0],
        converged: true,
        iterations: 0,
        time_solve: 0.5,
    };
    // a zero response is measured against the floor
    let solved = finish_solve(&operator, &[0.0; 3], &[0.0; 3], zero).expect("finish");
    assert_eq!(solved.residual, 5.0 / 1e-15);
}

#[test]
fn inputs_are_taken_as_they_are() {
    let built: S = Solver::from_input(&cats(), None, PreconditionerInput::Default, Kit)
        .expect("default input");
    let prec = built.preconditioner().expect("built").clone();
    assert_eq!(prec.variant_name(), "Additive");
    let off: S = Solver::from_input(
        &cats(),
        None,
        PreconditionerInput::Config(PreconditionerConfig::Off),
        Kit,
    )
    .expect("configured input");
    assert!(off.preconditioner().is_none());
    let reused: S = Solver::from_input(&cats(), None, PreconditionerInput::Prebuilt(prec), Kit)
        .expect("prebuilt input");
    assert!(reused.preconditioner().is_some());
    let y = [1.0, 2.0, 4.0, 8.0];
    let a = built.solve(&y, &params()).expect("solve");
    let b = reused.solve(&y, &params()).expect("solve");
    assert_eq!(a.x, b.x);
    let refused: Result<S, BuildError> = Solver::from_input(
        make_test_design(),
        None,
        PreconditionerInput::Prebuilt(built.preconditioner().expect("built").clone()),
        Kit,
    );
    assert!(matches!(
        refused.err(),
        Some(BuildError::PreconditionerDimensionMismatch {
            expected: 5,
            actual_rows: 6,
            actual_cols: 6,
        })
    ));
}

#[test]
fn inputs_say_what_they_hold() {
    let cfg = PreconditionerConfig::Off;
    let none: PreconditionerInput<f64, Dense> = None.into();
    assert!(matches!(none, PreconditionerInput::Default));
    let some: PreconditionerInput<f64, Dense> = Some(&cfg).into();
    assert!(matches!(
        some,
        PreconditionerInput::Config(PreconditionerConfig::Off)
    ));
}

// A small deterministic stand-in for random problems.
fn problem(seed: u64) -> (CategoryArray, Vec<f64>) {
    let mut state = seed.wrapping_mul(0x9e37_79b9_7f4a_7c15) | 1;
    let mut next = move || {
        state ^= state << 13;
        state ^= state >> 7;
        state ^= state << 17;
        state
    };
    let n = 30;
    let mut levels = Vec::new();
    let mut y = Vec::new();
    for _ in 0..n {
        levels.push((next() % 5) as u32);
        levels.push((next() % 4) as u32);
        levels.push((next() % 3) as u32);
        y.push((next() % 2001) as f64 / 100.0 - 10.0);
    }
    (CategoryArray::from_shape(n, 3, levels).expect("cats"), y)
}

fn tight_params() -> LsmrOptions {
    LsmrOptions {
        tol: Binary64 { bits: 1e-11f64.to_bits() },
        maxiter: 3000,
        local_size: Some(10),
    }
}

fn rel_l2_diff(actual: &[f64], expected: &[f64]) -> f64 {
    let num: f64 = actual
        .iter()
        .zip(expected)
        .map(|(a, e)| (a - e).powi(2))
        .sum::<f64>()
        .sqrt();
    let den: f64 = expected.iter().map(|e| e * e).sum::<f64>().sqrt();
    num / den.max(1e-12)
}

#[test]
fn response_scaling_scales_the_residuals() {
    for seed in 1..13 {
        let (cats, y) = problem(seed);
        let base = solve::<f64, Dense, Kit, _>(&cats, &y, None, &tight_params(), None, Kit)
            .expect("base");
        let c = -2.5;
        let scaled_y: Vec<f64> = y.iter().map(|v| c * v).collect();
        let scaled =
            solve::<f64, Dense, Kit, _>(&cats, &scaled_y, None, &tight_params(), None, Kit)
                .expect("scaled");
        assert!(base.converged && scaled.converged);
        let expected: Vec<f64> = base.demeaned.iter().map(|v| c * v).collect();
        assert!(rel_l2_diff(&scaled.demeaned, &expected) <= 1e-6);
    }
}

#[test]
fn weight_scaling_keeps_the_residuals() {
    for seed in 1..13 {
        let (cats, y) = problem(seed);
        let w: Vec<f64> = (0..y.len()).map(|i| 0.2 + (i % 7) as f64 * 0.4).collect();
        let scaled_w: Vec<f64> = w.iter().map(|v| 3.5 * v).collect();
        let base =
            solve::<f64, Dense, Kit, _>(&cats, &y, Some(bits(&w)), &tight_params(), None, Kit)
                .expect("base");
        let scaled = solve::<f64, Dense, Kit, _>(
            &cats,
            &y,
            Some(bits(&scaled_w)),
            &tight_params(),
            None,
            Kit,
        )
        .expect("scaled");
        assert!(base.converged && scaled.converged);
        assert!(rel_l2_diff(&scaled.demeaned, &base.demeaned) <= 1e-6);
    }
}

#[test]
fn residuals_do_not_depend_on_which_solution_was_found() {
    for seed in 20..26 {
        let (cats, y) = problem(seed);
        let fits: Vec<SolveResult<f64>> = [
            PreconditionerConfig::Off,
            PreconditionerConfig::Diagonal,
            PreconditionerConfig::default(),
        ]
        .into_iter()
        .map(|config| {
            solve::<f64, Dense, Kit, _>(&cats, &y, None, &tight_params(), config, Kit)
                .expect("solve")
        })
        .collect();
        assert!(fits.iter().all(|fit| fit.converged));
        for fit in &fits[1..] {
            assert!(rel_l2_diff(&fit.demeaned, &fits[0].demeaned) <= 1e-8);
        }
    }
}
