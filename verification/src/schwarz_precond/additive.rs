//! The additive Schwarz preconditioner: its subdomains, their common size and
//! the choice of backend.

use std::sync::Arc;

use vstd::prelude::*;

use crate::parallel::current_num_threads;
use crate::schwarz_precond::error::BuildError;
use crate::schwarz_precond::local_solve::{validate_entries, LocalSolver, SubdomainEntry};
use crate::schwarz_precond::planning::{
    AdditiveScheduler, ReductionPlan, ReductionStrategy, ResolvedReductionStrategy,
};

verus! {

/// Additive Schwarz preconditioner `M^-1 = sum R_i^T D_i A_i^-1 D_i R_i`.
#[derive(Debug)]
pub struct SchwarzPreconditioner<S> {
    subdomains: Arc<Vec<SubdomainEntry<S>>>,
    n_dofs: usize,
    max_scratch_size: usize,
    strategy: ReductionStrategy,
    scheduler: AdditiveScheduler,
}

/// `sizes[i]` is the scratch size that subdomain `i`'s solver reports.
pub open spec fn are_scratch_sizes<T, S: LocalSolver<T>>(
    entries: Seq<SubdomainEntry<S>>,
    sizes: Seq<usize>,
) -> bool {
    &&& sizes.len() == entries.len()
    &&& forall|i: int|
        0 <= i < entries.len() ==> call_ensures(
            <S as LocalSolver<T>>::scratch_size,
            (&entries[i].spec_solver(),),
            #[trigger] sizes[i],
        )
}

/// The metrics are those of the subdomains.
pub open spec fn is_scheduler_of<T, S: LocalSolver<T>>(
    entries: Seq<SubdomainEntry<S>>,
    n_dofs: nat,
    scheduler: AdditiveScheduler,
) -> bool {
    &&& scheduler.n_subdomains == entries.len()
    &&& scheduler.n_dofs == n_dofs
    &&& scheduler.total_scatter_dofs == crate::schwarz_precond::planning::saturated(
        crate::schwarz_precond::planning::sum_of(
            crate::schwarz_precond::planning::scatter_lengths(entries),
        ),
    )
    &&& exists|work: Seq<usize>| #[trigger]
        crate::schwarz_precond::planning::are_estimates::<T, S>(entries, work)
            && scheduler.total_inner_parallel_work == crate::schwarz_precond::planning::saturated(
            crate::schwarz_precond::planning::sum_of(work),
        ) && scheduler.max_inner_parallel_work == crate::schwarz_precond::planning::max_of(work)
}

/// What putting subdomains together gives.
pub open spec fn assembly_outcome<T, S: LocalSolver<T>>(
    subdomains: Seq<SubdomainEntry<S>>,
    n_dofs: nat,
    strategy: ReductionStrategy,
    result: Result<SchwarzPreconditioner<S>, BuildError>,
) -> bool {
    match result {
        Ok(p) => {
            &&& crate::schwarz_precond::local_solve::all_in_bounds(subdomains, n_dofs)
            &&& p.spec_subdomains() == subdomains
            &&& p.spec_n_dofs() == n_dofs
            &&& p.spec_strategy() == strategy
            &&& is_scheduler_of::<T, S>(subdomains, n_dofs, p.spec_scheduler())
            &&& exists|sizes: Seq<usize>| #[trigger]
                are_scratch_sizes::<T, S>(subdomains, sizes) && p.spec_max_scratch_size()
                    == crate::schwarz_precond::planning::max_of(sizes)
        },
        Err(e) => e matches BuildError::GlobalIndexOutOfBounds {
            subdomain,
            local_index,
            global_index,
            n_dofs: n,
        } && crate::schwarz_precond::local_solve::is_first_out_of_bounds(
            subdomains,
            n_dofs,
            subdomain as int,
            local_index as int,
        ) && global_index == subdomains[subdomain as int].spec_core().indices()[local_index as int]
            && n == n_dofs,
    }
}

impl<S> SchwarzPreconditioner<S> {
    /// The subdomains.
    pub closed spec fn spec_subdomains(self) -> Seq<SubdomainEntry<S>> {
        self.subdomains@
    }

    /// Number of unknowns.
    pub closed spec fn spec_n_dofs(self) -> nat {
        self.n_dofs as nat
    }

    /// Scratch length that suits every subdomain.
    pub closed spec fn spec_max_scratch_size(self) -> nat {
        self.max_scratch_size as nat
    }

    /// The configured strategy.
    pub closed spec fn spec_strategy(self) -> ReductionStrategy {
        self.strategy
    }

    /// The scheduling metrics.
    pub closed spec fn spec_scheduler(self) -> AdditiveScheduler {
        self.scheduler
    }

    /// Every subdomain's unknowns are below the number of unknowns.
    #[verifier::type_invariant]
    pub open spec fn wf(self) -> bool {
        forall|d: int|
            0 <= d < self.spec_subdomains().len() ==> (#[trigger] self.spec_subdomains()[d]).fits(
                self.spec_n_dofs(),
            )
    }

    /// Put subdomains together; each may refer to unknowns below `n_dofs` only.
    pub fn new<T>(
        subdomains: Vec<SubdomainEntry<S>>,
        n_dofs: usize,
        strategy: ReductionStrategy,
    ) -> (result: Result<Self, BuildError>) where S: LocalSolver<T>
        ensures
            assembly_outcome::<T, S>(subdomains@, n_dofs as nat, strategy, result),
    {
        match validate_entries(subdomains.as_slice(), n_dofs) {
            Ok(()) => {},
            Err(e) => {
                return Err(e);
            },
        }
        let scheduler = AdditiveScheduler::from_entries::<T, S>(subdomains.as_slice(), n_dofs);
        let mut max_scratch_size: usize = 0;
        let ghost mut sizes = Seq::<usize>::empty();
        let n: usize = subdomains.len();
        let mut i: usize = 0;
        while i < n
            invariant
                i <= n == subdomains@.len(),
                sizes.len() == i,
                forall|j: int|
                    0 <= j < i ==> call_ensures(
                        <S as LocalSolver<T>>::scratch_size,
                        (&subdomains@[j].spec_solver(),),
                        #[trigger] sizes[j],
                    ),
                max_scratch_size == crate::schwarz_precond::planning::max_of(sizes),
                crate::schwarz_precond::local_solve::all_in_bounds(subdomains@, n_dofs as nat),
                forall|d: int| 0 <= d < i ==> (#[trigger] subdomains@[d]).fits(n_dofs as nat),
            decreases n - i,
        {
            let _ = subdomains[i].global_indices();
            assert(subdomains@[i as int].fits(n_dofs as nat)) by {
                let indices = subdomains@[i as int].spec_core().indices();
                assert forall|k: int| 0 <= k < indices.len() implies #[trigger] indices[k]
                    < n_dofs by {
                    assert(subdomains@[i as int].spec_core().indices()[k] < n_dofs);
                }
            }
            let size: usize = <S as LocalSolver<T>>::scratch_size(subdomains[i].solver());
            proof {
                let before = sizes;
                sizes = sizes.push(size);
                assert(sizes.drop_last() =~= before);
            }
            if size > max_scratch_size {
                max_scratch_size = size;
            }
            i = i + 1;
        }
        assert(are_scratch_sizes::<T, S>(subdomains@, sizes));
        Ok(
            SchwarzPreconditioner {
                subdomains: Arc::new(subdomains),
                n_dofs,
                max_scratch_size,
                strategy,
                scheduler,
            },
        )
    }

    /// The subdomains.
    pub fn subdomains(&self) -> (subdomains: &[SubdomainEntry<S>])
        ensures
            subdomains@ == self.spec_subdomains(),
    {
        self.subdomains.as_slice()
    }

    /// Number of rows, which is the number of unknowns.
    pub fn nrows(&self) -> (n: usize)
        ensures
            n == self.spec_n_dofs(),
    {
        self.n_dofs
    }

    /// Number of columns, which is the number of unknowns.
    pub fn ncols(&self) -> (n: usize)
        ensures
            n == self.spec_n_dofs(),
    {
        self.n_dofs
    }

    /// Scratch length that suits every subdomain.
    pub fn max_scratch_size(&self) -> (n: usize)
        ensures
            n == self.spec_max_scratch_size(),
    {
        self.max_scratch_size
    }

    /// The configured strategy.
    pub fn reduction_strategy(&self) -> (strategy: ReductionStrategy)
        ensures
            strategy == self.spec_strategy(),
    {
        self.strategy
    }

    /// What an apply on `threads` threads does.
    pub fn plan(&self, threads: usize) -> (plan: ReductionPlan)
        ensures
            plan.allow_inner_parallelism == self.spec_scheduler().spec_allow_inner_parallelism(
                threads as nat,
            ),
            plan.strategy == self.spec_scheduler().spec_resolve_strategy(
                self.spec_strategy(),
                threads as nat,
                plan.allow_inner_parallelism,
            ),
    {
        self.scheduler.reduction_plan(self.strategy, threads)
    }

    /// The backend that the strategy stands for on `threads` threads.
    pub open spec fn resolved_on(self, threads: nat) -> ResolvedReductionStrategy {
        self.spec_scheduler().spec_resolve_strategy(
            self.spec_strategy(),
            threads,
            self.spec_scheduler().spec_allow_inner_parallelism(threads),
        )
    }

    /// The concrete backend for the current thread-pool width.
    pub fn resolved_reduction_strategy(&self) -> (strategy: ReductionStrategy)
        ensures
            exists|threads: usize|
                strategy == match #[trigger] self.resolved_on(threads as nat) {
                    ResolvedReductionStrategy::AtomicScatter => ReductionStrategy::AtomicScatter,
                    ResolvedReductionStrategy::ParallelReduction => ReductionStrategy::ParallelReduction,
                },
            self.spec_strategy() != ReductionStrategy::Auto ==> strategy == self.spec_strategy(),
    {
        let threads: usize = current_num_threads();
        let plan = self.plan(threads);
        assert(plan.strategy == self.resolved_on(threads as nat));
        plan.strategy.as_public()
    }
}

impl<S> Clone for SchwarzPreconditioner<S> {
    /// Another handle on the same subdomains: nothing else is copied.
    fn clone(&self) -> (handle: Self)
        ensures
            handle == *self,
    {
        proof {
            use_type_invariant(self);
        }
        SchwarzPreconditioner {
            subdomains: Arc::clone(&self.subdomains),
            n_dofs: self.n_dofs,
            max_scratch_size: self.max_scratch_size,
            strategy: self.strategy,
            scheduler: self.scheduler,
        }
    }
}

} // verus!
