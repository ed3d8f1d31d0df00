//! Additive preconditioner with pooled buffers.

use vstd::prelude::*;

use crate::arithmetic::Arithmetic;
use crate::kernels::AtomicBins;
use crate::parallel::current_num_threads;
use crate::schwarz_precond::additive::SchwarzPreconditioner;
use crate::schwarz_precond::apply::length_error;
use crate::schwarz_precond::error::SolveError;
use crate::schwarz_precond::executor::{BufferPool, SchwarzBuffers, MAX_POOL_SIZE};
use crate::schwarz_precond::local_solve::LocalSolver;
use crate::schwarz_precond::planning::ReductionPlan;

verus! {

/// Runs a preconditioner again and again, reusing its buffers.
pub struct AdditiveExecutor<'k, T, S, A> {
    preconditioner: SchwarzPreconditioner<S>,
    pool: BufferPool<T>,
    zero: T,
    ops: &'k A,
}

impl<'k, T, S, A: Arithmetic<T>> AdditiveExecutor<'k, T, S, A> {
    /// The preconditioner.
    pub closed spec fn spec_preconditioner(self) -> SchwarzPreconditioner<S> {
        self.preconditioner
    }

    /// The arithmetic.
    pub closed spec fn spec_ops(self) -> A {
        *self.ops
    }

    /// The pooled buffers.
    pub closed spec fn spec_pooled(self) -> Seq<SchwarzBuffers<T>> {
        self.pool.pooled()
    }

    /// Number of pooled buffers.
    pub open spec fn spec_n_pooled(self) -> nat {
        self.spec_pooled().len()
    }

    /// The pool is for the preconditioner's problem.
    pub closed spec fn wf(self) -> bool {
        &&& self.pool.wf()
        &&& self.pool.spec_n_dofs() == self.preconditioner.spec_n_dofs()
        &&& self.pool.spec_max_scratch_size() == self.preconditioner.spec_max_scratch_size()
        &&& self.pool.spec_zero() == self.zero
        &&& crate::arithmetic::zero_gives(*self.ops, self.zero)
    }
}

/// What an apply with pooled buffers does: vectors of the wrong length are
/// refused and the pool is left alone. Otherwise it follows the plan for some
/// thread-pool width, with buffers of that plan's strategy.
pub open spec fn pooled_outcome<T, A: Arithmetic<T>, S: LocalSolver<T>>(
    ops: A,
    p: SchwarzPreconditioner<S>,
    r: Seq<T>,
    before: Seq<T>,
    after: Seq<T>,
    pool_before: Seq<SchwarzBuffers<T>>,
    pool_after: Seq<SchwarzBuffers<T>>,
    result: Result<(), SolveError>,
) -> bool {
    if r.len() != p.spec_n_dofs() || before.len() != p.spec_n_dofs() {
        &&& crate::schwarz_precond::apply::apply_outcome(ops, p, r, before, after, result)
        &&& pool_after == pool_before
    } else {
        exists|threads: usize|
            {
                &&& crate::schwarz_precond::apply::planned_outcome(
                    ops,
                    p.spec_subdomains(),
                    p.spec_n_dofs(),
                    #[trigger] p.plan_on(threads as nat),
                    r,
                    before,
                    after,
                    result,
                )
                &&& crate::schwarz_precond::executor::is_pool_after(
                    pool_before,
                    p.plan_on(threads as nat).strategy,
                    result is Ok,
                    pool_after,
                )
            }
    }
}

impl<'k, T: Copy + Send + Sync, S: LocalSolver<T> + Sync, A: Arithmetic<T> + Sync> AdditiveExecutor<
    'k,
    T,
    S,
    A,
> {
    /// An executor with an empty pool.
    pub fn new(preconditioner: SchwarzPreconditioner<S>, ops: &'k A) -> (executor: Self)
        ensures
            executor.wf(),
            executor.spec_preconditioner() == preconditioner,
            executor.spec_ops() == *ops,
            executor.spec_n_pooled() == 0,
    {
        let zero: T = ops.zero();
        let pool: BufferPool<T> = BufferPool::new(
            preconditioner.nrows(),
            preconditioner.max_scratch_size(),
            zero,
        );
        AdditiveExecutor { preconditioner, pool, zero, ops }
    }

    /// Number of pooled buffers.
    pub fn n_pooled(&self) -> (n: usize)
        ensures
            n == self.spec_n_pooled(),
    {
        self.pool.n_pooled()
    }

    /// `z = M^-1 r`: take buffers from the pool, run the backend, return them.
    pub fn apply<B: AtomicBins<T, A>>(&mut self, r: &[T], z: &mut [T], atomic: &B) -> (result: Result<
        (),
        SolveError,
    >)
        requires
            old(self).wf(),
        ensures
            final(self).wf(),
            final(self).spec_preconditioner() == old(self).spec_preconditioner(),
            final(self).spec_ops() == old(self).spec_ops(),
            crate::schwarz_precond::apply::apply_outcome(
                old(self).spec_ops(),
                old(self).spec_preconditioner(),
                r@,
                old(z)@,
                final(z)@,
                result,
            ),
            pooled_outcome(
                old(self).spec_ops(),
                old(self).spec_preconditioner(),
                r@,
                old(z)@,
                final(z)@,
                old(self).spec_pooled(),
                final(self).spec_pooled(),
                result,
            ),
            final(self).spec_n_pooled() <= MAX_POOL_SIZE,
    {
        let n_dofs: usize = self.preconditioner.nrows();
        if r.len() != n_dofs {
            return Err(length_error("SchwarzPreconditioner::apply", "x", r.len(), n_dofs));
        }
        if z.len() != n_dofs {
            return Err(length_error("SchwarzPreconditioner::apply", "y", z.len(), n_dofs));
        }
        let threads: usize = current_num_threads();
        let plan: ReductionPlan = self.preconditioner.plan(threads);
        assert(plan == self.preconditioner.plan_on(threads as nat));
        let ghost before = self.pool.pooled();
        let buffers = self.pool.take(plan.strategy);
        let ghost rest = self.pool.pooled();
        assert(crate::schwarz_precond::executor::is_rest(before, plan.strategy, rest));
        let (used, result) = self.preconditioner.apply_with_buffers(
            plan,
            r,
            z,
            buffers,
            self.zero,
            self.ops,
            atomic,
        );
        self.pool.put(used, &result);
        proof {
            let after = self.pool.pooled();
            assert(rest.push(used).drop_last() =~= rest);
            assert(crate::schwarz_precond::executor::is_pool_after(
                before,
                plan.strategy,
                result is Ok,
                after,
            ));
        }
        result
    }
}

} // verus!
