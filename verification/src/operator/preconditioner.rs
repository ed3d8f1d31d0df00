//! Pre-built additive preconditioner, as the solver sees it.

use vstd::prelude::*;

use crate::arithmetic::Arithmetic;
use crate::binary64::Binary64;
use crate::config::Preconditioner;
use crate::domain::design::Design;
use crate::domain::factor_pairs::Subdomain;
use crate::domain::local_domains::build_local_domains;
use crate::elimination::CrossTab;
use crate::error::BuildError;
use crate::kernels::AtomicBins;
use crate::operator::schwarz::{
    build_additive_with_strategy, internal_weights, LocalSolverBuilder,
};
use crate::schwarz_precond::additive::SchwarzPreconditioner;
use crate::schwarz_precond::error::SolveError;
use crate::schwarz_precond::local_solve::LocalSolver;
use crate::schwarz_precond::planning::ReductionStrategy;

verus! {

/// A pre-built preconditioner ready for use in solves.
///
/// Marked `#[non_exhaustive]`: further variants may be added.
#[derive(Debug)]
#[non_exhaustive]
pub enum FePreconditioner<S> {
    /// One-level additive Schwarz over factor-pair subdomains.
    Additive(SchwarzPreconditioner<S>),
}

impl<S> FePreconditioner<S> {
    /// The additive preconditioner inside.
    pub open spec fn inner(self) -> SchwarzPreconditioner<S> {
        match self {
            FePreconditioner::Additive(p) => p,
        }
    }

    /// Number of Schwarz subdomains in the built preconditioner.
    pub fn n_subdomains(&self) -> (n: usize)
        ensures
            n == self.inner().spec_subdomains().len(),
    {
        match self {
            FePreconditioner::Additive(p) => p.subdomains().len(),
        }
    }

    /// Estimated nested-parallel work per subdomain.
    pub fn subdomain_inner_parallel_work<T>(&self) -> (work: Vec<usize>) where S: LocalSolver<T>
        ensures
            crate::schwarz_precond::planning::are_estimates::<T, S>(
                self.inner().spec_subdomains(),
                work@,
            ),
    {
        match self {
            FePreconditioner::Additive(p) => {
                let subdomains = p.subdomains();
                let mut work: Vec<usize> = Vec::with_capacity(subdomains.len());
                for i in 0..subdomains.len()
                    invariant
                        work@.len() == i,
                        forall|j: int|
                            0 <= j < i ==> call_ensures(
                                <S as LocalSolver<T>>::inner_parallelism_work_estimate,
                                (&subdomains@[j].spec_solver(),),
                                #[trigger] work@[j],
                            ),
                {
                    let estimate: usize = <S as LocalSolver<T>>::inner_parallelism_work_estimate(
                        subdomains[i].solver(),
                    );
                    work.push(estimate);
                }
                work
            },
        }
    }

    /// Configured additive reduction strategy, if this is an additive variant.
    pub fn additive_reduction_strategy(&self) -> (strategy: Option<ReductionStrategy>)
        ensures
            strategy == Some(self.inner().spec_strategy()),
    {
        match self {
            FePreconditioner::Additive(p) => Some(p.reduction_strategy()),
        }
    }

    /// Concrete additive backend resolved for the current thread-pool width.
    pub fn resolved_additive_reduction_strategy(&self) -> (strategy: Option<ReductionStrategy>)
        ensures
            strategy is Some,
            self.inner().spec_strategy() != ReductionStrategy::Auto ==> strategy == Some(
                self.inner().spec_strategy(),
            ),
            exists|threads: usize|
                strategy == Some(
                    match #[trigger] self.inner().resolved_on(threads as nat) {
                        crate::schwarz_precond::planning::ResolvedReductionStrategy::AtomicScatter =>
                            ReductionStrategy::AtomicScatter,
                        crate::schwarz_precond::planning::ResolvedReductionStrategy::ParallelReduction =>
                            ReductionStrategy::ParallelReduction,
                    },
                ),
    {
        match self {
            FePreconditioner::Additive(p) => Some(p.resolved_reduction_strategy()),
        }
    }

    /// Apply the preconditioner: writes `M^{-1} x` into `y`.
    pub fn apply<T: Copy + Send + Sync, A: Arithmetic<T> + Sync, B: AtomicBins<T, A>>(
        &self,
        x: &[T],
        y: &mut [T],
        ops: &A,
        atomic: &B,
    ) -> (result: Result<(), SolveError>) where S: LocalSolver<T> + Sync
        ensures
            crate::schwarz_precond::apply::apply_outcome(
                *ops,
                self.inner(),
                x@,
                old(y)@,
                final(y)@,
                result,
            ),
    {
        match self {
            FePreconditioner::Additive(p) => p.apply(x, y, ops, atomic),
        }
    }

    /// Apply the transpose, which is the preconditioner itself.
    pub fn apply_adjoint<T: Copy + Send + Sync, A: Arithmetic<T> + Sync, B: AtomicBins<T, A>>(
        &self,
        x: &[T],
        y: &mut [T],
        ops: &A,
        atomic: &B,
    ) -> (result: Result<(), SolveError>) where S: LocalSolver<T> + Sync
        ensures
            crate::schwarz_precond::apply::apply_outcome(
                *ops,
                self.inner(),
                x@,
                old(y)@,
                final(y)@,
                result,
            ),
    {
        match self {
            FePreconditioner::Additive(p) => p.apply_adjoint(x, y, ops, atomic),
        }
    }

    /// Number of rows.
    pub fn nrows(&self) -> (n: usize)
        ensures
            n == self.inner().spec_n_dofs(),
    {
        match self {
            FePreconditioner::Additive(p) => p.nrows(),
        }
    }

    /// Number of columns.
    pub fn ncols(&self) -> (n: usize)
        ensures
            n == self.inner().spec_n_dofs(),
    {
        match self {
            FePreconditioner::Additive(p) => p.ncols(),
        }
    }
}

/// What building from a configuration gives: the complaint about the weights,
/// if there is one, or additive Schwarz over the design's subdomains.
pub open spec fn fe_outcome<T, S: LocalSolver<T>, A: Arithmetic<T>, L: LocalSolverBuilder<T, S>>(
    ops: A,
    builder: L,
    design: Design<'_>,
    weights: Option<Seq<Binary64>>,
    config: Preconditioner,
    result: Result<FePreconditioner<S>, BuildError>,
) -> bool {
    exists|checked: Result<(), BuildError>|
        {
            &&& #[trigger] crate::domain::design::weights_outcome(
                crate::domain::design::optional_rows(design.rows),
                design.n_obs_input as nat,
                weights,
                checked,
            )
            &&& match checked {
                Err(e) => result == Err::<FePreconditioner<S>, BuildError>(e),
                Ok(()) => is_built(ops, builder, design, weights, config, result),
            }
        }
}

/// The result is additive Schwarz over the subdomains of the weighted design.
pub open spec fn is_built<T, S: LocalSolver<T>, A: Arithmetic<T>, L: LocalSolverBuilder<T, S>>(
    ops: A,
    builder: L,
    design: Design<'_>,
    weights: Option<Seq<Binary64>>,
    config: Preconditioner,
    result: Result<FePreconditioner<S>, BuildError>,
) -> bool {
    exists|internal: Option<Seq<T>>, domains: Seq<(Subdomain, CrossTab<T>)>|
        {
            &&& #[trigger] crate::operator::schwarz::are_internal_weights(
                ops,
                design,
                weights,
                internal,
            )
            &&& #[trigger] crate::domain::local_domains::are_local_domains(
                ops,
                design,
                internal,
                domains,
            )
            &&& match config {
                Preconditioner::Additive(local, reduction) => crate::operator::schwarz::additive_outcome(
                    builder,
                    domains,
                    design.n_dofs as nat,
                    &local,
                    reduction,
                    match result {
                        Ok(p) => Ok(p.inner()),
                        Err(e) => Err(e),
                    },
                ),
            }
        }
}

/// Build a [`FePreconditioner`] from a design, optional observation weights in
/// caller row order, and configuration.
pub fn build_preconditioner<
    T: Copy + Send + Sync,
    S: LocalSolver<T> + Send,
    A: Arithmetic<T> + Sync,
    L: LocalSolverBuilder<T, S> + Sync,
>(
    design: &Design<'_>,
    weights: Option<&[Binary64]>,
    config: &Preconditioner,
    ops: &A,
    builder: &L,
) -> (result: Result<FePreconditioner<S>, BuildError>)
    requires
        design.wf(),
        design.is_plain(),
    ensures
        fe_outcome(
            *ops,
            *builder,
            *design,
            crate::domain::local_domains::optional_view(weights),
            *config,
            result,
        ),
        result matches Ok(p) ==> p.inner().spec_n_dofs() == design.n_dofs,
{
    match design.validate_weights(weights) {
        Ok(()) => {},
        Err(e) => {
            return Err(e);
        },
    }
    let internal: Option<Vec<T>> = internal_weights(design, weights, ops);
    let w: Option<&[T]> = match &internal {
        None => None,
        Some(w) => Some(w.as_slice()),
    };
    let domains: Vec<(Subdomain, CrossTab<T>)> = build_local_domains(design, w, ops);
    let ghost listed = domains@;
    let result: Result<FePreconditioner<S>, BuildError> = match config {
        Preconditioner::Additive(local, reduction) => {
            match build_additive_with_strategy(
                domains,
                design.n_dofs,
                local,
                *reduction,
                builder,
            ) {
                Ok(p) => Ok(FePreconditioner::Additive(p)),
                Err(e) => Err(e),
            }
        },
    };
    proof {
        let given = crate::domain::local_domains::optional_view(weights);
        assert(crate::operator::schwarz::optional_vec(internal) == crate::domain::local_domains::optional_view(w));
        assert(crate::operator::schwarz::are_internal_weights(
            *ops,
            *design,
            given,
            crate::operator::schwarz::optional_vec(internal),
        ));
        assert(crate::domain::local_domains::are_local_domains(
            *ops,
            *design,
            crate::operator::schwarz::optional_vec(internal),
            listed,
        ));
        assert(is_built(*ops, *builder, *design, given, *config, result));
        assert(crate::domain::design::weights_outcome(
            crate::domain::design::optional_rows(design.rows),
            design.n_obs_input as nat,
            given,
            Ok(()),
        ));
    }
    result
}

} // verus!
