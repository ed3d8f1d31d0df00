//! Persistent solver that caches the preconditioner across multiple solves on
//! the same design.

pub mod laws;
pub mod meaning;

use vstd::prelude::*;
use vstd::std_specs::convert::IntoSpec;

use crate::arithmetic::Arithmetic;
use crate::binary64::{Binary64, NAN_BITS};
use crate::categories::IntoDesign;
use crate::config::{LsmrOptions, PreconditionerConfig};
use crate::domain::design::Design;
use crate::domain::ordering::restore_caller_order;
use crate::error::BuildError;
use crate::kernels::{filled, AtomicBins};
use crate::observation::select;
use crate::operator::design_operator::DesignOperator;
use crate::operator::schwarz::{
    build_preconditioner, internal_weights, LocalSolverBuilder, Preconditioner,
};
use crate::orchestrate::{BatchSolveResult, SolveResult};
use crate::parallel::par_map;
use crate::schwarz_precond::error::SolveError;
use crate::schwarz_precond::local_solve::LocalSolver;
use crate::schwarz_precond::solve::vec_norm;
use crate::text::decimal;

verus! {

// ---------------------------------------------------------------------------
// Inputs
// ---------------------------------------------------------------------------

/// Preconditioner input for [`Solver::new`].
#[derive(Debug)]
pub enum PreconditionerInput<T, S> {
    /// Library default: an additive Schwarz preconditioner with default tuning.
    Default,
    /// Build from this config ([`PreconditionerConfig::Off`]: unpreconditioned).
    Config(PreconditionerConfig),
    /// Reuse this pre-built preconditioner.
    Prebuilt(Preconditioner<T, S>),
}

impl<T, S> From<PreconditionerConfig> for PreconditionerInput<T, S> {
    fn from(config: PreconditionerConfig) -> (input: Self) {
        PreconditionerInput::Config(config)
    }
}

impl<T, S> vstd::std_specs::convert::FromSpecImpl<PreconditionerConfig> for PreconditionerInput<T, S> {
    open spec fn obeys_from_spec() -> bool {
        true
    }

    open spec fn from_spec(config: PreconditionerConfig) -> Self {
        PreconditionerInput::Config(config)
    }
}

impl<T, S> From<&PreconditionerConfig> for PreconditionerInput<T, S> {
    fn from(config: &PreconditionerConfig) -> (input: Self) {
        PreconditionerInput::Config(*config)
    }
}

impl<T, S> vstd::std_specs::convert::FromSpecImpl<&PreconditionerConfig> for PreconditionerInput<T, S> {
    open spec fn obeys_from_spec() -> bool {
        true
    }

    open spec fn from_spec(config: &PreconditionerConfig) -> Self {
        PreconditionerInput::Config(*config)
    }
}

impl<T, S> From<Option<&PreconditionerConfig>> for PreconditionerInput<T, S> {
    fn from(config: Option<&PreconditionerConfig>) -> (input: Self) {
        match config {
            None => PreconditionerInput::Default,
            Some(config) => PreconditionerInput::Config(*config),
        }
    }
}

impl<T, S> vstd::std_specs::convert::FromSpecImpl<Option<&PreconditionerConfig>> for PreconditionerInput<T, S> {
    open spec fn obeys_from_spec() -> bool {
        true
    }

    open spec fn from_spec(config: Option<&PreconditionerConfig>) -> Self {
        match config {
            None => PreconditionerInput::Default,
            Some(config) => PreconditionerInput::Config(*config),
        }
    }
}

impl<T, S> From<Preconditioner<T, S>> for PreconditionerInput<T, S> {
    fn from(p: Preconditioner<T, S>) -> (input: Self) {
        PreconditionerInput::Prebuilt(p)
    }
}

impl<T, S> vstd::std_specs::convert::FromSpecImpl<Preconditioner<T, S>> for PreconditionerInput<T, S> {
    open spec fn obeys_from_spec() -> bool {
        true
    }

    open spec fn from_spec(p: Preconditioner<T, S>) -> Self {
        PreconditionerInput::Prebuilt(p)
    }
}

impl<T, S> From<&Preconditioner<T, S>> for PreconditionerInput<T, S> {
    /// Reuse a preconditioner by reference; the factorization is shared.
    fn from(p: &Preconditioner<T, S>) -> (input: Self) {
        PreconditionerInput::Prebuilt(p.clone())
    }
}

impl<T, S> vstd::std_specs::convert::FromSpecImpl<&Preconditioner<T, S>> for PreconditionerInput<T, S> {
    open spec fn obeys_from_spec() -> bool {
        true
    }

    open spec fn from_spec(p: &Preconditioner<T, S>) -> Self {
        PreconditionerInput::Prebuilt(*p)
    }
}

// ---------------------------------------------------------------------------
// Numerical kit
// ---------------------------------------------------------------------------

/// What an iterative solve returns.
#[derive(Debug, Clone)]
pub struct LsmrResult<T> {
    /// Coefficients.
    pub x: Vec<T>,
    /// Whether the tolerance was met.
    pub converged: bool,
    /// Number of iterations.
    pub iterations: usize,
    /// How long it took, in seconds.
    pub time_solve: T,
}

/// The numerical means of a solver: scalar arithmetic, shared accumulation,
/// local factorizations and the iterative least-squares method.
pub trait SolverKit<T: Copy + Send + Sync, S: LocalSolver<T>>: Arithmetic<T> + AtomicBins<
    T,
    Self,
> + LocalSolverBuilder<T, S> + Sync + Sized {
    /// Minimize `|A x - b|` without a preconditioner.
    fn lsmr(
        &self,
        operator: &DesignOperator<'_, '_, T, Self, Self>,
        b: &[T],
        options: &LsmrOptions,
    ) -> Result<LsmrResult<T>, SolveError>
        requires
            operator.wf(),
            b@.len() == operator.design.n_obs,
    ;

    /// Minimize `|A x - b|` with a preconditioner for `A^T A`.
    fn mlsmr(
        &self,
        operator: &DesignOperator<'_, '_, T, Self, Self>,
        b: &[T],
        preconditioner: &Preconditioner<T, S>,
        options: &LsmrOptions,
    ) -> Result<LsmrResult<T>, SolveError>
        requires
            operator.wf(),
            b@.len() == operator.design.n_obs,
            preconditioner.spec_n_dofs() == operator.design.n_dofs,
    ;
}

// ---------------------------------------------------------------------------
// Solver
// ---------------------------------------------------------------------------

/// Persistent solver that owns its preconditioner for reuse across multiple solves.
///
/// Build once with [`Solver::new`], then call [`Solver::solve`] or
/// [`Solver::solve_batch`] repeatedly with different responses. The expensive
/// factorization happens only at construction time; [`LsmrOptions`] are
/// supplied per call.
#[derive(Debug)]
pub struct Solver<'a, T, S, K> {
    design: Design<'a>,
    weights: Option<Vec<T>>,
    preconditioner: Option<Preconditioner<T, S>>,
    kit: K,
}

/// The weights that apply: those given, or else the design's own.
pub open spec fn effective_weights(
    design: Design<'_>,
    weights: Option<Seq<Binary64>>,
) -> Option<Seq<Binary64>> {
    match weights {
        Some(given) => Some(given),
        None => crate::domain::design::optional_elements(design.options.weights),
    }
}

/// `input` is what the argument converts into.
pub open spec fn converts_to<T, S, I: Into<PreconditionerInput<T, S>>>(
    given: I,
    input: PreconditionerInput<T, S>,
) -> bool {
    <I as IntoSpec<PreconditionerInput<T, S>>>::obeys_into_spec() ==> input
        == <I as IntoSpec<PreconditionerInput<T, S>>>::into_spec(given)
}

/// The solver has the given parts.
pub open spec fn is_solver_of<
    'a,
    T: Copy + Send + Sync,
    S: LocalSolver<T>,
    K: SolverKit<T, S>,
>(
    solver: Solver<'a, T, S, K>,
    kit: K,
    design: Design<'a>,
    weights: Option<Seq<Binary64>>,
    preconditioner: Option<Preconditioner<T, S>>,
) -> bool {
    &&& solver.spec_kit() == kit
    &&& solver.spec_design() == design
    &&& solver.spec_preconditioner() == preconditioner
    &&& crate::operator::schwarz::are_internal_weights(
        kit,
        design,
        weights,
        crate::operator::schwarz::optional_vec(solver.spec_weights()),
    )
}

/// What constructing a solver gives once its weights are accepted.
pub open spec fn accepted_outcome<
    'a,
    T: Copy + Send + Sync,
    S: LocalSolver<T>,
    K: SolverKit<T, S>,
>(
    kit: K,
    design: Design<'a>,
    weights: Option<Seq<Binary64>>,
    input: PreconditionerInput<T, S>,
    result: Result<Solver<'a, T, S, K>, BuildError>,
) -> bool {
    match input {
        PreconditionerInput::Default => is_configured(kit, design, weights, None, result),
        PreconditionerInput::Config(config) => is_configured(
            kit,
            design,
            weights,
            Some(config),
            result,
        ),
        PreconditionerInput::Prebuilt(p) => if p.spec_n_dofs() != design.n_dofs {
            result matches Err(e) && e matches BuildError::PreconditionerDimensionMismatch {
                expected,
                actual_rows,
                actual_cols,
            } && expected == design.n_dofs && actual_rows == p.spec_n_dofs() && actual_cols
                == p.spec_n_dofs()
        } else {
            result matches Ok(solver) && is_solver_of(solver, kit, design, weights, Some(p))
        },
    }
}

/// The solver has the preconditioner that the configuration gives.
pub open spec fn is_configured<
    'a,
    T: Copy + Send + Sync,
    S: LocalSolver<T>,
    K: SolverKit<T, S>,
>(
    kit: K,
    design: Design<'a>,
    weights: Option<Seq<Binary64>>,
    config: Option<PreconditionerConfig>,
    result: Result<Solver<'a, T, S, K>, BuildError>,
) -> bool {
    exists|built: Result<Option<Preconditioner<T, S>>, BuildError>|
        {
            &&& #[trigger] crate::operator::schwarz::preconditioner_outcome(
                kit,
                kit,
                design,
                weights,
                config,
                built,
            )
            &&& match built {
                Err(e) => result == Err::<Solver<'a, T, S, K>, BuildError>(e),
                Ok(p) => result matches Ok(solver) && is_solver_of(
                    solver,
                    kit,
                    design,
                    weights,
                    p,
                ),
            }
        }
}

/// What constructing a solver on a design gives: the complaint about the
/// weights, if there is one, or what the preconditioner input asks for.
pub open spec fn design_outcome<
    'a,
    T: Copy + Send + Sync,
    S: LocalSolver<T>,
    K: SolverKit<T, S>,
>(
    kit: K,
    design: Design<'a>,
    weights: Option<Seq<Binary64>>,
    input: PreconditionerInput<T, S>,
    result: Result<Solver<'a, T, S, K>, BuildError>,
) -> bool {
    exists|checked: Result<(), BuildError>|
        {
            &&& #[trigger] crate::domain::design::weights_outcome(
                crate::domain::design::optional_rows(design.rows),
                design.n_obs_input as nat,
                weights,
                checked,
            )
            &&& match checked {
                Err(e) => result == Err::<Solver<'a, T, S, K>, BuildError>(e),
                Ok(()) => accepted_outcome(kit, design, weights, input, result),
            }
        }
}

/// What constructing a solver with a preconditioner input gives.
pub open spec fn input_outcome<
    'a,
    T: Copy + Send + Sync,
    S: LocalSolver<T>,
    K: SolverKit<T, S>,
    D: IntoDesign<'a>,
>(
    kit: K,
    given: D,
    weights: Option<Seq<Binary64>>,
    input: PreconditionerInput<T, S>,
    result: Result<Solver<'a, T, S, K>, BuildError>,
) -> bool {
    exists|design: Result<Design<'a>, BuildError>|
        {
            &&& #[trigger] given.gives(design)
            &&& match design {
                Err(e) => result == Err::<Solver<'a, T, S, K>, BuildError>(e),
                Ok(design) => design_outcome(
                    kit,
                    design,
                    effective_weights(design, weights),
                    input,
                    result,
                ),
            }
        }
}

/// What constructing a solver gives.
pub open spec fn new_outcome<
    'a,
    T: Copy + Send + Sync,
    S: LocalSolver<T>,
    K: SolverKit<T, S>,
    D: IntoDesign<'a>,
    I: Into<PreconditionerInput<T, S>>,
>(
    kit: K,
    given: D,
    weights: Option<Seq<Binary64>>,
    preconditioner: I,
    result: Result<Solver<'a, T, S, K>, BuildError>,
) -> bool {
    exists|input: PreconditionerInput<T, S>| #[trigger]
        converts_to(preconditioner, input) && input_outcome(kit, given, weights, input, result)
}

impl<'a, T, S, K> Solver<'a, T, S, K> {
    /// The weights fit the design, and so does the preconditioner.
    #[verifier::type_invariant]
    pub open spec fn wf(self) -> bool {
        &&& self.spec_design().wf()
        &&& self.spec_design().is_plain()
        &&& self.spec_weights() matches Some(w) ==> w@.len() == self.spec_design().n_obs
        &&& self.spec_preconditioner() matches Some(p) ==> p.spec_n_dofs()
            == self.spec_design().n_dofs
    }

    /// The design.
    pub closed spec fn spec_design(self) -> Design<'a> {
        self.design
    }

    /// The weights in internal row order.
    pub closed spec fn spec_weights(self) -> Option<Vec<T>> {
        self.weights
    }

    /// The preconditioner.
    pub closed spec fn spec_preconditioner(self) -> Option<Preconditioner<T, S>> {
        self.preconditioner
    }

    /// The numerical means.
    pub closed spec fn spec_kit(self) -> K {
        self.kit
    }
}

impl<'a, T: Copy + Send + Sync, S: LocalSolver<T> + Send + Sync, K: SolverKit<T, S>> Solver<
    'a,
    T,
    S,
    K,
> {
    /// Construct a solver.
    ///
    /// `design` accepts a category array or a pre-built design. `weights` are in
    /// caller row order; without them the design's own weights apply.
    /// `preconditioner` accepts `None` (the library default), a configuration,
    /// or a previously built preconditioner, by value or by reference.
    pub fn new<D: IntoDesign<'a>, I: Into<PreconditionerInput<T, S>>>(
        design: D,
        weights: Option<Vec<Binary64>>,
        preconditioner: I,
        kit: K,
    ) -> (result: Result<Self, BuildError>)
        requires
            design.is_ready(),
        ensures
            new_outcome(
                kit,
                design,
                crate::operator::schwarz::optional_vec(weights),
                preconditioner,
                result,
            ),
    {
        let input: PreconditionerInput<T, S> = preconditioner.into();
        assert(converts_to(preconditioner, input));
        Self::from_input(design, weights, input, kit)
    }

    /// Construct a solver from an explicit preconditioner input.
    ///
    /// `design` and `weights` are as for [`Solver::new`].
    pub fn from_input<D: IntoDesign<'a>>(
        design: D,
        weights: Option<Vec<Binary64>>,
        input: PreconditionerInput<T, S>,
        kit: K,
    ) -> (result: Result<Self, BuildError>)
        requires
            design.is_ready(),
        ensures
            input_outcome(
                kit,
                design,
                crate::operator::schwarz::optional_vec(weights),
                input,
                result,
            ),
    {
        let built: Result<Design<'a>, BuildError> = design.into_design();
        assert(design.gives(built));
        match built {
            Err(e) => Err(e),
            Ok(design) => {
                let given: Option<&[Binary64]> = match &weights {
                    None => design.weights(),
                    Some(w) => Some(w.as_slice()),
                };
                let internal: Option<Vec<T>> = match design.validate_weights(given) {
                    Err(e) => {
                        return Err(e);
                    },
                    Ok(()) => internal_weights(&design, given, &kit),
                };
                let found: Result<Option<Preconditioner<T, S>>, BuildError> = match input {
                    PreconditionerInput::Default => build_preconditioner(
                        &design,
                        given,
                        None,
                        &kit,
                        &kit,
                    ),
                    PreconditionerInput::Config(config) => build_preconditioner(
                        &design,
                        given,
                        Some(&config),
                        &kit,
                        &kit,
                    ),
                    PreconditionerInput::Prebuilt(p) => {
                        if p.nrows() != design.n_dofs || p.ncols() != design.n_dofs {
                            Err(
                                BuildError::PreconditionerDimensionMismatch {
                                    expected: design.n_dofs,
                                    actual_rows: p.nrows(),
                                    actual_cols: p.ncols(),
                                },
                            )
                        } else {
                            Ok(Some(p))
                        }
                    },
                };
                proof {
                    assert(crate::domain::local_domains::optional_view(given)
                        == effective_weights(
                        design,
                        crate::operator::schwarz::optional_vec(weights),
                    ));
                    assert(crate::domain::design::weights_outcome(
                        crate::domain::design::optional_rows(design.rows),
                        design.n_obs_input as nat,
                        crate::domain::local_domains::optional_view(given),
                        Ok(()),
                    ));
                }
                match found {
                    Err(e) => Err(e),
                    Ok(preconditioner) => Ok(
                        Solver { design, weights: internal, preconditioner, kit },
                    ),
                }
            },
        }
    }
}

// ---------------------------------------------------------------------------
// One response
// ---------------------------------------------------------------------------

/// Bit pattern of the binary64 value nearest to ten to the power of -15.
pub const RESIDUAL_FLOOR_BITS: u64 = 0x3cd2_03af_9ee7_5616;

/// The response in internal row order.
pub open spec fn internal_response<T>(design: Design<'_>, y: Seq<T>) -> Seq<T> {
    match design.rows {
        None => y,
        Some(rows) => crate::observation::selected(y, rows@),
    }
}

/// `internal[i]` is a value of `y[i] - (D x)[i]`.
pub open spec fn is_demeaned<T, A: Arithmetic<T>>(
    ops: A,
    design: Design<'_>,
    y: Seq<T>,
    x: Seq<T>,
    internal: Seq<T>,
) -> bool {
    exists|fitted: Seq<T>| #[trigger]
        crate::operator::design_operator::is_product(ops, design, None, x, fitted)
            && is_difference(ops, y, fitted, internal)
}

/// `out[i]` is a value of `a[i] - b[i]`.
pub open spec fn is_difference<T, A: Arithmetic<T>>(
    ops: A,
    a: Seq<T>,
    b: Seq<T>,
    out: Seq<T>,
) -> bool {
    &&& out.len() == a.len()
    &&& forall|i: int|
        0 <= i < a.len() ==> crate::arithmetic::minus_gives(ops, a[i], b[i], #[trigger] out[i])
}

/// `out` is `internal` in caller order, with not-a-number at removed rows.
pub open spec fn is_returned<T, A: Arithmetic<T>>(
    ops: A,
    design: Design<'_>,
    internal: Seq<T>,
    out: Seq<T>,
) -> bool {
    match design.rows {
        None => out == internal,
        Some(rows) => exists|missing: T| #[trigger]
            crate::arithmetic::scalar_of(ops, Binary64 { bits: NAN_BITS }, missing)
                && crate::domain::ordering::is_restored(
                rows@,
                design.n_obs_input as nat,
                internal,
                missing,
                out,
            ),
    }
}

/// `out` is `a`, or the floor `1e-15` where `a` does not reach it.
pub open spec fn is_floored<T, A: Arithmetic<T>>(ops: A, a: T, out: T) -> bool {
    exists|floor: T| #[trigger]
        crate::arithmetic::scalar_of(ops, Binary64 { bits: RESIDUAL_FLOOR_BITS }, floor) && {
            ||| call_ensures(A::at_least, (&ops, a, floor), true) && out == a
            ||| call_ensures(A::at_least, (&ops, a, floor), false) && out == floor
        }
}

/// `norm` is a value of `|D^T W^{1/2} v|`.
pub open spec fn is_gradient_norm<T, A: Arithmetic<T>>(
    ops: A,
    design: Design<'_>,
    sqrt_weights: Option<Vec<T>>,
    v: Seq<T>,
    norm: T,
) -> bool {
    exists|gradient: Seq<T>| #[trigger]
        crate::operator::design_operator::is_adjoint_product(
            ops,
            design,
            sqrt_weights,
            v,
            gradient,
        ) && crate::schwarz_precond::solve::is_norm(ops, gradient, norm)
}

/// `residual` is a value of `|D^T W r| / max(|D^T W y|, 1e-15)`, where `b` is
/// `W^{1/2} y` and `r` the demeaned response.
pub open spec fn is_residual<T, A: Arithmetic<T>>(
    ops: A,
    design: Design<'_>,
    sqrt_weights: Option<Vec<T>>,
    b: Seq<T>,
    demeaned: Seq<T>,
    residual: T,
) -> bool {
    exists|rhs_norm: T, bottom: T, scaled: Seq<T>, top: T|
        {
            &&& #[trigger] is_gradient_norm(ops, design, sqrt_weights, b, rhs_norm)
            &&& #[trigger] is_floored(ops, rhs_norm, bottom)
            &&& crate::operator::design_operator::is_scaled(ops, sqrt_weights, demeaned, scaled)
            &&& #[trigger] is_gradient_norm(ops, design, sqrt_weights, scaled, top)
            &&& crate::arithmetic::divide_gives(ops, top, bottom, residual)
        }
}

/// The result that follows from the iterative method's answer.
///
/// An answer of the wrong length is refused.
pub open spec fn finish_outcome<T, A: Arithmetic<T>>(
    ops: A,
    design: Design<'_>,
    sqrt_weights: Option<Vec<T>>,
    y: Seq<T>,
    b: Seq<T>,
    answer: LsmrResult<T>,
    result: Result<SolveResult<T>, SolveError>,
) -> bool {
    if answer.x@.len() != design.n_dofs {
        result matches Err(e) && is_input_error(
            e,
            "coefficient vector length ("@ + crate::text::decimal_text(answer.x@.len())
                + ") does not match number of unknowns ("@ + crate::text::decimal_text(
                design.n_dofs as nat,
            ) + ")"@,
        )
    } else {
        result matches Ok(solved) && is_solution(
            ops,
            design,
            sqrt_weights,
            y,
            b,
            answer,
            solved,
        )
    }
}

/// `solved` reports the method's answer with the demeaned response and the residual.
pub open spec fn is_solution<T, A: Arithmetic<T>>(
    ops: A,
    design: Design<'_>,
    sqrt_weights: Option<Vec<T>>,
    y: Seq<T>,
    b: Seq<T>,
    answer: LsmrResult<T>,
    solved: SolveResult<T>,
) -> bool {
    &&& solved.x == answer.x
    &&& solved.converged == answer.converged
    &&& solved.iterations == answer.iterations
    &&& solved.time_solve == answer.time_solve
    &&& exists|internal: Seq<T>|
        #![trigger is_demeaned(ops, design, y, answer.x@, internal)]
        {
            &&& is_demeaned(ops, design, y, answer.x@, internal)
            &&& is_returned(ops, design, internal, solved.demeaned@)
            &&& is_residual(ops, design, sqrt_weights, b, internal, solved.residual)
        }
}

/// The error that refuses an input of [`Solver::solve`].
pub open spec fn is_input_error(error: SolveError, message: Seq<char>) -> bool {
    error matches SolveError::InvalidInput { context, message: text } && context == "Solver::solve"
        && text@ == message
}

/// Norm of `D^T W^{1/2} v`.
fn gradient_norm<T: Copy + Send + Sync, K: Arithmetic<T> + AtomicBins<T, K> + Sync>(
    operator: &DesignOperator<'_, '_, T, K, K>,
    v: &[T],
) -> (norm: T)
    requires
        operator.wf(),
        v@.len() == operator.design.n_obs,
    ensures
        is_gradient_norm(
            *operator.ops,
            *operator.design,
            operator.sqrt_weights,
            v@,
            norm,
        ),
{
    let mut gradient: Vec<T> = filled(operator.design.n_dofs, operator.ops.zero());
    operator.apply_adjoint(v, gradient.as_mut_slice());
    vec_norm(gradient.as_slice(), operator.ops)
}

/// The larger of `a` and the floor `1e-15`.
fn floored<T: Copy, A: Arithmetic<T>>(a: T, ops: &A) -> (out: T)
    ensures
        is_floored(*ops, a, out),
{
    let bits = Binary64 { bits: RESIDUAL_FLOOR_BITS };
    let floor: T = ops.from_binary64(bits);
    assert(crate::arithmetic::scalar_of(*ops, bits, floor));
    if ops.at_least(a, floor) {
        a
    } else {
        floor
    }
}

/// Turn the iterative method's answer into the result of a solve.
///
/// `y` is the response and `b` the weighted response, both in internal order.
pub fn finish_solve<T: Copy + Send + Sync, K: Arithmetic<T> + AtomicBins<T, K> + Sync>(
    operator: &DesignOperator<'_, '_, T, K, K>,
    y: &[T],
    b: &[T],
    answer: LsmrResult<T>,
) -> (result: Result<SolveResult<T>, SolveError>)
    requires
        operator.wf(),
        y@.len() == operator.design.n_obs,
        b@.len() == operator.design.n_obs,
    ensures
        finish_outcome(
            *operator.ops,
            *operator.design,
            operator.sqrt_weights,
            y@,
            b@,
            answer,
            result,
        ),
{
    let design: &Design<'_> = operator.design;
    let ops: &K = operator.ops;
    let n_obs: usize = design.n_obs;
    if answer.x.len() != design.n_dofs {
        let mut message: String = "coefficient vector length (".to_owned();
        message.append(decimal(answer.x.len() as u64).as_str());
        message.append(") does not match number of unknowns (");
        message.append(decimal(design.n_dofs as u64).as_str());
        message.append(")");
        return Err(SolveError::InvalidInput { context: "Solver::solve", message });
    }
    let bare: DesignOperator<'_, '_, T, K, K> = DesignOperator::new(
        design,
        None,
        ops,
        operator.atomic,
    );
    let mut internal: Vec<T> = filled(n_obs, ops.zero());
    bare.apply(answer.x.as_slice(), internal.as_mut_slice());
    let ghost fitted = internal@;
    let mut i: usize = 0;
    while i < n_obs
        invariant
            i <= n_obs == y@.len() == internal@.len() == fitted.len(),
            forall|j: int| i <= j < n_obs ==> #[trigger] internal@[j] == fitted[j],
            forall|j: int|
                0 <= j < i ==> crate::arithmetic::minus_gives(
                    *ops,
                    y@[j],
                    fitted[j],
                    #[trigger] internal@[j],
                ),
        decreases n_obs - i,
    {
        let d: T = ops.minus(y[i], internal[i]);
        internal.set(i, d);
        i = i + 1;
    }
    assert(is_demeaned(*ops, *design, y@, answer.x@, internal@));
    let rhs_norm: T = gradient_norm(operator, b);
    let bottom: T = floored(rhs_norm, ops);
    let scaled: Vec<T> = operator.weighted_rhs(internal.as_slice());
    let top: T = gradient_norm(operator, scaled.as_slice());
    let residual: T = ops.divide(top, bottom);
    let ghost inner = internal@;
    let demeaned: Vec<T> = match &design.rows {
        None => internal,
        Some(rows) => {
            let bits = Binary64 { bits: NAN_BITS };
            let missing: T = ops.from_binary64(bits);
            assert(crate::arithmetic::scalar_of(*ops, bits, missing));
            restore_caller_order(
                rows.as_slice(),
                design.n_obs_input,
                internal.as_slice(),
                missing,
            )
        },
    };
    assert(is_returned(*ops, *design, inner, demeaned@));
    assert(is_residual(
        *ops,
        *design,
        operator.sqrt_weights,
        b@,
        inner,
        residual,
    ));
    let ghost given = answer;
    let solved = SolveResult {
        x: answer.x,
        demeaned,
        converged: answer.converged,
        iterations: answer.iterations,
        residual,
        time_solve: answer.time_solve,
    };
    assert(is_solution(
        *ops,
        *design,
        operator.sqrt_weights,
        y@,
        b@,
        given,
        solved,
    ));
    Ok(solved)
}

/// `operator` is `W^{1/2} D` of the design and weights.
pub open spec fn is_operator_of<T: Copy + Send + Sync, K: Arithmetic<T> + AtomicBins<T, K> + Sync>(
    operator: DesignOperator<'_, '_, T, K, K>,
    kit: K,
    design: Design<'_>,
    weights: Option<Vec<T>>,
) -> bool {
    &&& operator.wf()
    &&& *operator.design == design
    &&& *operator.ops == kit
    &&& *operator.atomic == kit
    &&& match weights {
        None => operator.sqrt_weights is None,
        Some(w) => operator.sqrt_weights matches Some(roots)
            && crate::operator::design_operator::are_square_roots(kit, w@, roots@),
    }
}

/// `answer` is what the iterative method says, with the preconditioner if there is one.
pub open spec fn method_answers<
    T: Copy + Send + Sync,
    S: LocalSolver<T>,
    K: SolverKit<T, S>,
>(
    kit: K,
    operator: DesignOperator<'_, '_, T, K, K>,
    b: &[T],
    preconditioner: Option<Preconditioner<T, S>>,
    options: &LsmrOptions,
    answer: Result<LsmrResult<T>, SolveError>,
) -> bool {
    match preconditioner {
        None => call_ensures(
            <K as SolverKit<T, S>>::lsmr,
            (&kit, &operator, b, options),
            answer,
        ),
        Some(p) => call_ensures(
            <K as SolverKit<T, S>>::mlsmr,
            (&kit, &operator, b, &p, options),
            answer,
        ),
    }
}

/// Every entry is finite.
pub open spec fn all_finite<T, A: Arithmetic<T>>(ops: A, v: Seq<T>) -> bool {
    forall|k: int| 0 <= k < v.len() ==> call_ensures(A::is_finite, (&ops, #[trigger] v[k]), true)
}

/// `v[k]` is the first entry that is not finite.
pub open spec fn is_first_non_finite<T, A: Arithmetic<T>>(ops: A, v: Seq<T>, k: int) -> bool {
    &&& 0 <= k < v.len()
    &&& call_ensures(A::is_finite, (&ops, v[k]), false)
    &&& all_finite(ops, v.take(k))
}

/// What solving for a response gives.
///
/// A response of the wrong length is refused, and so is one that is not finite
/// at an observation that takes part in the fit. Otherwise the iterative method
/// is asked for the weighted response, and its failure, or what follows from
/// its answer, is the result.
pub open spec fn solve_outcome<
    'a,
    T: Copy + Send + Sync,
    S: LocalSolver<T>,
    K: SolverKit<T, S>,
>(
    solver: Solver<'a, T, S, K>,
    y: Seq<T>,
    options: &LsmrOptions,
    result: Result<SolveResult<T>, SolveError>,
) -> bool {
    let design = solver.spec_design();
    let internal = internal_response(design, y);
    if y.len() != design.n_obs_input {
        result matches Err(e) && is_input_error(
            e,
            "response vector length ("@ + crate::text::decimal_text(y.len())
                + ") does not match number of observations ("@ + crate::text::decimal_text(
                design.n_obs_input as nat,
            ) + ")"@,
        )
    } else {
        ||| refuses_response(solver, y, result)
        ||| all_finite(solver.spec_kit(), internal) && solves_response(solver, y, options, result)
    }
}

/// `result` names the first observation of the fit whose response is not finite.
pub open spec fn refuses_response<
    'a,
    T: Copy + Send + Sync,
    S: LocalSolver<T>,
    K: SolverKit<T, S>,
>(
    solver: Solver<'a, T, S, K>,
    y: Seq<T>,
    result: Result<SolveResult<T>, SolveError>,
) -> bool {
    let design = solver.spec_design();
    exists|k: int| #[trigger]
        is_first_non_finite(solver.spec_kit(), internal_response(design, y), k)
            && names_observation(design.spec_caller_row(k) as nat, result)
}

/// `result` refuses the response for its value at observation `row`.
pub open spec fn names_observation<T>(
    row: nat,
    result: Result<SolveResult<T>, SolveError>,
) -> bool {
    result matches Err(e) && is_input_error(
        e,
        "response vector is not finite at observation "@ + crate::text::decimal_text(row),
    )
}

/// `result` is that of a run of the iterative method.
pub open spec fn solves_response<
    'a,
    T: Copy + Send + Sync,
    S: LocalSolver<T>,
    K: SolverKit<T, S>,
>(
    solver: Solver<'a, T, S, K>,
    y: Seq<T>,
    options: &LsmrOptions,
    result: Result<SolveResult<T>, SolveError>,
) -> bool {
    exists|
        operator: DesignOperator<'_, '_, T, K, K>,
        b: &[T],
        answer: Result<LsmrResult<T>, SolveError>,
    |
        #[trigger]
        is_solve_run(solver, y, options, operator, b, answer, result)
}

/// `result` follows from the answer of the iterative method for `operator` and `b`.
pub open spec fn is_solve_run<
    'a,
    T: Copy + Send + Sync,
    S: LocalSolver<T>,
    K: SolverKit<T, S>,
>(
    solver: Solver<'a, T, S, K>,
    y: Seq<T>,
    options: &LsmrOptions,
    operator: DesignOperator<'_, '_, T, K, K>,
    b: &[T],
    answer: Result<LsmrResult<T>, SolveError>,
    result: Result<SolveResult<T>, SolveError>,
) -> bool {
    let kit = solver.spec_kit();
    let design = solver.spec_design();
    &&& is_operator_of(operator, kit, design, solver.spec_weights())
    &&& crate::operator::design_operator::is_scaled(
        kit,
        operator.sqrt_weights,
        internal_response(design, y),
        b@,
    )
    &&& method_answers(kit, operator, b, solver.spec_preconditioner(), options, answer)
    &&& match answer {
        Err(e) => result == Err::<SolveResult<T>, SolveError>(e),
        Ok(found) => finish_outcome(
            kit,
            design,
            operator.sqrt_weights,
            internal_response(design, y),
            b@,
            found,
            result,
        ),
    }
}

/// Refuse a response of the wrong length.
fn response_length_error(len: usize, n_obs: usize) -> (error: SolveError)
    ensures
        is_input_error(
            error,
            "response vector length ("@ + crate::text::decimal_text(len as nat)
                + ") does not match number of observations ("@ + crate::text::decimal_text(
                n_obs as nat,
            ) + ")"@,
        ),
{
    let mut message: String = "response vector length (".to_owned();
    message.append(decimal(len as u64).as_str());
    message.append(") does not match number of observations (");
    message.append(decimal(n_obs as u64).as_str());
    message.append(")");
    SolveError::InvalidInput { context: "Solver::solve", message }
}

/// Position of the first entry that is not finite.
fn find_non_finite<T: Copy, A: Arithmetic<T>>(v: &[T], ops: &A) -> (found: Option<usize>)
    ensures
        match found {
            None => all_finite(*ops, v@),
            Some(k) => is_first_non_finite(*ops, v@, k as int),
        },
{
    let n: usize = v.len();
    let mut k: usize = 0;
    while k < n
        invariant
            k <= n == v@.len(),
            forall|j: int|
                0 <= j < k ==> call_ensures(A::is_finite, (ops, #[trigger] v@[j]), true),
        decreases n - k,
    {
        if !ops.is_finite(v[k]) {
            return Some(k);
        }
        k = k + 1;
    }
    None
}

/// Refuse a response that is not finite at an observation.
fn non_finite_error(row: usize) -> (error: SolveError)
    ensures
        is_input_error(
            error,
            "response vector is not finite at observation "@ + crate::text::decimal_text(
                row as nat,
            ),
        ),
{
    let mut message: String = "response vector is not finite at observation ".to_owned();
    message.append(decimal(row as u64).as_str());
    SolveError::InvalidInput { context: "Solver::solve", message }
}

impl<'a, T: Copy + Send + Sync, S: LocalSolver<T> + Send + Sync, K: SolverKit<T, S>> Solver<
    'a,
    T,
    S,
    K,
> {
    /// Solve for a single response vector.
    pub fn solve(&self, y: &[T], lsmr: &LsmrOptions) -> (result: Result<SolveResult<T>, SolveError>)
        ensures
            solve_outcome(*self, y@, lsmr, result),
            result matches Ok(solved) ==> solved.x@.len() == self.spec_design().n_dofs
                && solved.demeaned@.len() == self.spec_design().n_obs_input,
    {
        proof {
            use_type_invariant(self);
        }
        if y.len() != self.design.n_obs_input {
            return Err(response_length_error(y.len(), self.design.n_obs_input));
        }
        let selected: Option<Vec<T>> = match &self.design.rows {
            None => None,
            Some(rows) => Some(select(y, rows.as_slice())),
        };
        let internal: &[T] = match &selected {
            None => y,
            Some(v) => v.as_slice(),
        };
        assert(internal@ == internal_response(self.design, y@));
        if let Some(k) = find_non_finite(internal, &self.kit) {
            let row: usize = self.design.caller_row(k);
            let result: Result<SolveResult<T>, SolveError> = Err(non_finite_error(row));
            assert(names_observation(row as nat, result));
            assert(is_first_non_finite(
                self.spec_kit(),
                internal_response(self.spec_design(), y@),
                k as int,
            ));
            assert(self.spec_design().spec_caller_row(k as int) == row);
            assert(refuses_response(*self, y@, result));
            return result;
        }
        let weights: Option<&[T]> = match &self.weights {
            None => None,
            Some(w) => Some(w.as_slice()),
        };
        let operator: DesignOperator<'_, '_, T, K, K> = DesignOperator::new(
            &self.design,
            weights,
            &self.kit,
            &self.kit,
        );
        let weighted: Vec<T> = operator.weighted_rhs(internal);
        let b: &[T] = weighted.as_slice();
        let answer: Result<LsmrResult<T>, SolveError> = match &self.preconditioner {
            None => self.kit.lsmr(&operator, b, lsmr),
            Some(p) => self.kit.mlsmr(&operator, b, p, lsmr),
        };
        assert(is_operator_of(operator, self.kit, self.design, self.weights));
        assert(method_answers(self.kit, operator, b, self.preconditioner, lsmr, answer));
        let ghost given = answer;
        let result: Result<SolveResult<T>, SolveError> = match answer {
            Err(e) => Err(e),
            Ok(found) => finish_solve(&operator, internal, b, found),
        };
        assert(is_solve_run(*self, y@, lsmr, operator, b, given, result));
        assert(solves_response(*self, y@, lsmr, result));
        result
    }

    /// Access the preconditioner (for serialization or reuse across solvers).
    pub fn preconditioner(&self) -> (p: Option<&Preconditioner<T, S>>)
        ensures
            match self.spec_preconditioner() {
                None => p is None,
                Some(held) => p matches Some(found) && *found == held,
            },
    {
        match &self.preconditioner {
            None => None,
            Some(p) => Some(p),
        }
    }

    /// Number of unknowns (coefficients).
    pub fn n_dofs(&self) -> (n: usize)
        ensures
            n == self.spec_design().n_dofs,
    {
        self.design.n_dofs
    }

    /// Number of observations that a response must have.
    pub fn n_obs(&self) -> (n: usize)
        ensures
            n == self.spec_design().n_obs_input,
    {
        self.design.n_obs_input
    }

    /// Number of observations that take part in the fit.
    pub fn n_retained_obs(&self) -> (n: usize)
        ensures
            n == self.spec_design().n_obs,
    {
        self.design.n_obs
    }
}

// ---------------------------------------------------------------------------
// Many responses
// ---------------------------------------------------------------------------

/// `results[i]` solves response `i`, as far as the results go.
pub open spec fn are_solves<
    'a,
    T: Copy + Send + Sync,
    S: LocalSolver<T>,
    K: SolverKit<T, S>,
>(
    solver: Solver<'a, T, S, K>,
    ys: Seq<&[T]>,
    options: &LsmrOptions,
    results: Seq<SolveResult<T>>,
) -> bool {
    let design = solver.spec_design();
    forall|i: int|
        0 <= i < results.len() ==> {
            &&& solve_outcome(solver, ys[i]@, options, Ok(#[trigger] results[i]))
            &&& results[i].x@.len() == design.n_dofs
            &&& results[i].demeaned@.len() == design.n_obs_input
        }
}

/// What solving for many responses gives: all results side by side, or the
/// failure of the first response that has one.
pub open spec fn batch_outcome<
    'a,
    T: Copy + Send + Sync,
    S: LocalSolver<T>,
    K: SolverKit<T, S>,
>(
    solver: Solver<'a, T, S, K>,
    ys: Seq<&[T]>,
    options: &LsmrOptions,
    result: Result<BatchSolveResult<T>, SolveError>,
) -> bool {
    exists|results: Seq<SolveResult<T>>|
        {
            &&& #[trigger] are_solves(solver, ys, options, results)
            &&& match result {
                Ok(batch) => {
                    &&& results.len() == ys.len()
                    &&& crate::orchestrate::is_batch_of(results, batch)
                    &&& batch.n_dofs == solver.spec_design().n_dofs
                    &&& batch.n_obs == solver.spec_design().n_obs_input
                },
                Err(e) => {
                    &&& results.len() < ys.len()
                    &&& solve_outcome(solver, ys[results.len() as int]@, options, Err(e))
                },
            }
        }
}

/// The result of response `i`, with its lengths.
spec fn is_solve_at<'a, T: Copy + Send + Sync, S: LocalSolver<T>, K: SolverKit<T, S>>(
    solver: &Solver<'a, T, S, K>,
    ys: &[&[T]],
    options: &LsmrOptions,
    i: usize,
    result: Result<SolveResult<T>, SolveError>,
) -> bool {
    &&& solve_outcome(*solver, ys@[i as int]@, options, result)
    &&& result matches Ok(solved) ==> solved.x@.len() == solver.spec_design().n_dofs
        && solved.demeaned@.len() == solver.spec_design().n_obs_input
}

impl<'a, T: Copy + Send + Sync, S: LocalSolver<T> + Send + Sync, K: SolverKit<T, S>> Solver<
    'a,
    T,
    S,
    K,
> {
    /// Solve for multiple response vectors in parallel.
    pub fn solve_batch(&self, ys: &[&[T]], lsmr: &LsmrOptions) -> (result: Result<
        BatchSolveResult<T>,
        SolveError,
    >)
        ensures
            batch_outcome(*self, ys@, lsmr, result),
            result matches Ok(batch) ==> batch.x@.len() == ys@.len() * batch.n_dofs
                && batch.demeaned@.len() == ys@.len() * batch.n_obs,
    {
        let n_rhs: usize = ys.len();
        let f = |i: usize| -> (result: Result<SolveResult<T>, SolveError>)
            requires
                i < n_rhs,
                n_rhs == ys@.len(),
            ensures
                is_solve_at(self, ys, lsmr, i, result),
            { self.solve(ys[i], lsmr) };
        let solved: Vec<Result<SolveResult<T>, SolveError>> = par_map(n_rhs, 1, f);
        proof {
            assert forall|i: int| 0 <= i < n_rhs implies is_solve_at(
                self,
                ys,
                lsmr,
                i as usize,
                #[trigger] solved@[i],
            ) by {
                let at = i as usize;
                assert(call_ensures(f, (at,), solved@[at as int]));
            }
        }
        let mut x: Vec<T> = Vec::new();
        let mut demeaned: Vec<T> = Vec::new();
        let mut converged: Vec<bool> = Vec::with_capacity(n_rhs);
        let mut iterations: Vec<usize> = Vec::with_capacity(n_rhs);
        let mut residual: Vec<T> = Vec::with_capacity(n_rhs);
        let mut time_solve: Vec<T> = Vec::with_capacity(n_rhs);
        let ghost mut results = Seq::<SolveResult<T>>::empty();
        proof {
            assert(crate::orchestrate::coefficient_lists(results) =~= Seq::empty());
            assert(crate::orchestrate::demeaned_lists(results) =~= Seq::empty());
            assert(converged@ =~= Seq::new(results.len(), |i: int| results[i].converged));
            assert(iterations@ =~= Seq::new(results.len(), |i: int| results[i].iterations));
            assert(residual@ =~= Seq::new(results.len(), |i: int| results[i].residual));
            assert(time_solve@ =~= Seq::new(results.len(), |i: int| results[i].time_solve));
        }
        for item in iter: solved
            invariant
                iter.seq() == solved@,
                solved@.len() == n_rhs == ys@.len(),
                forall|i: int|
                    0 <= i < n_rhs ==> is_solve_at(
                        self,
                        ys,
                        lsmr,
                        i as usize,
                        #[trigger] solved@[i],
                    ),
                results.len() == iter.index(),
                are_solves(*self, ys@, lsmr, results),
                x@ == crate::concat::concat_all(crate::orchestrate::coefficient_lists(results)),
                demeaned@ == crate::concat::concat_all(
                    crate::orchestrate::demeaned_lists(results),
                ),
                converged@ == Seq::new(results.len(), |i: int| results[i].converged),
                iterations@ == Seq::new(results.len(), |i: int| results[i].iterations),
                residual@ == Seq::new(results.len(), |i: int| results[i].residual),
                time_solve@ == Seq::new(results.len(), |i: int| results[i].time_solve),
        {
            let ghost at = results.len() as int;
            assert(is_solve_at(self, ys, lsmr, at as usize, solved@[at]));
            match item {
                Err(e) => {
                    assert(are_solves(*self, ys@, lsmr, results));
                    return Err(e);
                },
                Ok(found) => {
                    let ghost before = results;
                    proof {
                        results = results.push(found);
                        crate::orchestrate::lemma_lists_push(before, found);
                        assert forall|i: int| 0 <= i < results.len() implies {
                            &&& solve_outcome(*self, ys@[i]@, lsmr, Ok(#[trigger] results[i]))
                            &&& results[i].x@.len() == self.spec_design().n_dofs
                            &&& results[i].demeaned@.len() == self.spec_design().n_obs_input
                        } by {
                            if i < at {
                                assert(results[i] == before[i]);
                            }
                        }
                    }
                    let mut found = found;
                    x.append(&mut found.x);
                    demeaned.append(&mut found.demeaned);
                    converged.push(found.converged);
                    iterations.push(found.iterations);
                    residual.push(found.residual);
                    time_solve.push(found.time_solve);
                    proof {
                        assert(converged@ =~= Seq::new(
                            results.len(),
                            |i: int| results[i].converged,
                        ));
                        assert(iterations@ =~= Seq::new(
                            results.len(),
                            |i: int| results[i].iterations,
                        ));
                        assert(residual@ =~= Seq::new(results.len(), |i: int| results[i].residual));
                        assert(time_solve@ =~= Seq::new(
                            results.len(),
                            |i: int| results[i].time_solve,
                        ));
                    }
                },
            }
        }
        let batch = BatchSolveResult {
            x,
            demeaned,
            converged,
            iterations,
            residual,
            time_solve,
            n_dofs: self.design.n_dofs,
            n_obs: self.design.n_obs_input,
        };
        proof {
            assert(are_solves(*self, ys@, lsmr, results));
            crate::concat::lemma_concat_length(
                crate::orchestrate::coefficient_lists(results),
                batch.n_dofs as nat,
            );
            crate::concat::lemma_concat_length(
                crate::orchestrate::demeaned_lists(results),
                batch.n_obs as nat,
            );
        }
        Ok(batch)
    }
}

} // verus!
