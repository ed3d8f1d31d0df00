//! Applying the additive preconditioner.

use vstd::prelude::*;

use crate::arithmetic::Arithmetic;
use crate::kernels::AtomicBins;
use crate::parallel::{current_num_threads, par_map};
use crate::schwarz_precond::additive::SchwarzPreconditioner;
use crate::schwarz_precond::error::{LocalSolveError, SolveError};
use crate::schwarz_precond::executor::SchwarzBuffers;
use crate::schwarz_precond::local_solve::{LocalSolver, SubdomainEntry};
use crate::schwarz_precond::planning::{ReductionPlan, ResolvedReductionStrategy};
use crate::schwarz_precond::reduction::apply_parallel_reduction;
use crate::text::decimal;

verus! {

/// The message on a vector of `len` entries named `name` where `n_dofs` are due.
pub open spec fn length_message(name: Seq<char>, len: nat, n_dofs: nat) -> Seq<char> {
    name + ".len() ("@ + crate::text::decimal_text(len) + ") != n_dofs ("@
        + crate::text::decimal_text(n_dofs) + ")"@
}

/// Refuse a vector of the wrong length.
pub fn length_error(context: &'static str, name: &str, len: usize, n_dofs: usize) -> (error:
    SolveError)
    ensures
        error matches SolveError::InvalidInput { context: at, message } && at == context
            && message@ == length_message(name@, len as nat, n_dofs as nat),
{
    let mut message: String = String::new();
    message.append(name);
    message.append(".len() (");
    message.append(decimal(len as u64).as_str());
    message.append(") != n_dofs (");
    message.append(decimal(n_dofs as u64).as_str());
    message.append(")");
    proof {
        assert(message@ =~= length_message(name@, len as nat, n_dofs as nat));
    }
    SolveError::InvalidInput { context, message }
}

/// `parts[d]` is the weighted local solution of subdomain `d` for `r`.
pub open spec fn are_local_solutions<T, A: Arithmetic<T>, S: LocalSolver<T>>(
    ops: A,
    entries: Seq<SubdomainEntry<S>>,
    allow_inner_parallelism: bool,
    r: Seq<T>,
    parts: Seq<Seq<T>>,
) -> bool {
    &&& parts.len() == entries.len()
    &&& forall|d: int|
        0 <= d < entries.len()
            ==> crate::schwarz_precond::local_solve::is_weighted_local_solution(
            ops,
            entries[d],
            allow_inner_parallelism,
            r,
            #[trigger] parts[d],
        )
}

/// The unknowns that the entries of `parts[d]` belong to.
pub open spec fn part_indices<T, S>(
    entries: Seq<SubdomainEntry<S>>,
    parts: Seq<Seq<T>>,
) -> Seq<Seq<u32>> {
    Seq::new(
        parts.len(),
        |d: int| entries[d].spec_core().indices().take(parts[d].len() as int),
    )
}

/// `z` sums, in some order, the weighted local solutions of all subdomains:
/// `z = sum R_i^T D_i A_i^-1 D_i R_i r`, whichever backend adds them up.
pub open spec fn is_additive_apply<T, A: Arithmetic<T>, S: LocalSolver<T>>(
    ops: A,
    entries: Seq<SubdomainEntry<S>>,
    n_dofs: nat,
    plan: ReductionPlan,
    r: Seq<T>,
    z: Seq<T>,
) -> bool {
    &&& z.len() == n_dofs
    &&& crate::schwarz_precond::reduction::is_reduced_apply(
        ops,
        entries,
        plan.allow_inner_parallelism,
        r,
        z,
    )
}

/// What applying the preconditioner under a plan does.
///
/// A failed parallel reduction leaves zeros, a failed atomic scatter leaves `z`
/// as it was; neither exposes a partial accumulation.
pub open spec fn planned_outcome<T, A: Arithmetic<T>, S: LocalSolver<T>>(
    ops: A,
    entries: Seq<SubdomainEntry<S>>,
    n_dofs: nat,
    plan: ReductionPlan,
    r: Seq<T>,
    before: Seq<T>,
    after: Seq<T>,
    result: Result<(), SolveError>,
) -> bool {
    match result {
        Ok(()) => is_additive_apply(ops, entries, n_dofs, plan, r, after),
        Err(e) => {
            &&& crate::schwarz_precond::reduction::is_local_failure(
                ops,
                entries,
                plan.allow_inner_parallelism,
                r,
                e,
            )
            &&& match plan.strategy {
                ResolvedReductionStrategy::AtomicScatter => after == before,
                ResolvedReductionStrategy::ParallelReduction => crate::kernels::is_zeros(
                    ops,
                    before.len(),
                    after,
                ),
            }
        },
    }
}

/// The subdomain's answer, as `solve_outcome` has it.
spec fn is_answer_at<T, A: Arithmetic<T>, S: LocalSolver<T>>(
    ops: &A,
    entries: &[SubdomainEntry<S>],
    allow_inner_parallelism: bool,
    r: &[T],
    d: usize,
    answer: Result<Vec<T>, LocalSolveError>,
) -> bool {
    &&& crate::schwarz_precond::local_solve::solve_outcome(
        *ops,
        entries@[d as int],
        allow_inner_parallelism,
        r@,
        answer,
    )
    &&& answer matches Ok(weighted) ==> weighted@.len()
        <= entries@[d as int].spec_core().indices().len()
}

/// Every subdomain fits the vector.
spec fn all_fit<T, S>(entries: &[SubdomainEntry<S>], n_dofs: nat, n: usize) -> bool {
    &&& n == entries@.len()
    &&& forall|d: int| 0 <= d < entries@.len() ==> (#[trigger] entries@[d]).fits(n_dofs)
}

impl<S> SchwarzPreconditioner<S> {
    /// Solve all local systems in parallel, then add the weighted solutions to
    /// the shared accumulator and read it out.
    ///
    /// The accumulator comes back clean. A failing subdomain is named, the first
    /// one if there are several; `z` is left as it was.
    pub fn apply_atomic<T: Copy + Send + Sync, A: Arithmetic<T> + Sync, B: AtomicBins<T, A>>(
        &self,
        allow: bool,
        r: &[T],
        z: &mut [T],
        accum: Vec<T>,
        zero: T,
        ops: &A,
        atomic: &B,
    ) -> (done: (Vec<T>, Result<(), SolveError>)) where S: LocalSolver<T> + Sync
        requires
            r@.len() == self.spec_n_dofs(),
            old(z)@.len() == self.spec_n_dofs(),
            accum@.len() == self.spec_n_dofs(),
            crate::schwarz_precond::executor::all_equal(accum@, zero),
            crate::arithmetic::zero_gives(*ops, zero),
        ensures
            final(z)@.len() == old(z)@.len(),
            done.0@.len() == accum@.len(),
            crate::schwarz_precond::executor::all_equal(done.0@, zero),
            match done.1 {
                Ok(()) => crate::schwarz_precond::reduction::is_reduced_apply(
                    *ops,
                    self.spec_subdomains(),
                    allow,
                    r@,
                    final(z)@,
                ),
                Err(e) => final(z)@ == old(z)@
                    && crate::schwarz_precond::reduction::is_local_failure(
                    *ops,
                    self.spec_subdomains(),
                    allow,
                    r@,
                    e,
                ),
            },
    {
        proof {
            use_type_invariant(self);
        }
        let entries: &[SubdomainEntry<S>] = self.subdomains();
        let n: usize = entries.len();
        let f = |d: usize| -> (answer: Result<Vec<T>, LocalSolveError>)
            requires
                d < n,
                all_fit::<T, S>(entries, r@.len(), n),
            ensures
                is_answer_at(ops, entries, allow, r, d, answer),
            { entries[d].weighted_solution(r, allow, ops) };
        let answers: Vec<Result<Vec<T>, LocalSolveError>> = par_map(n, 1, f);
        proof {
            assert forall|d: int| 0 <= d < n implies is_answer_at(
                ops,
                entries,
                allow,
                r,
                d as usize,
                #[trigger] answers@[d],
            ) by {
                let at = d as usize;
                assert(call_ensures(f, (at,), answers@[at as int]));
            }
        }
        let mut codes: Vec<u32> = Vec::new();
        let mut values: Vec<T> = Vec::new();
        let ghost mut parts = Seq::<Seq<T>>::empty();
        let mut subdomain: usize = 0;
        for answer in iter: answers
            invariant
                iter.seq() == answers@,
                answers@.len() == n == entries@.len(),
                entries@ == self.spec_subdomains(),
                self.wf(),
                r@.len() == self.spec_n_dofs(),
                old(z)@.len() == self.spec_n_dofs(),
                crate::schwarz_precond::executor::all_equal(accum@, zero),
                z@ == old(z)@,
                forall|d: int|
                    0 <= d < n ==> is_answer_at(
                        ops,
                        entries,
                        allow,
                        r,
                        d as usize,
                        #[trigger] answers@[d],
                    ),
                parts.len() == iter.index() == subdomain,
                forall|d: int|
                    0 <= d < parts.len()
                        ==> crate::schwarz_precond::local_solve::is_weighted_local_solution(
                        *ops,
                        entries@[d],
                        allow,
                        r@,
                        #[trigger] parts[d],
                    ),
                values@ == crate::concat::concat_all(parts),
                codes@ == crate::concat::concat_all(part_indices(entries@, parts)),
                codes@.len() == values@.len(),
                forall|i: int| 0 <= i < codes@.len() ==> #[trigger] codes@[i] < r@.len(),
        {
            assert(is_answer_at(
                ops,
                entries,
                allow,
                r,
                subdomain,
                answers@[subdomain as int],
            ));
            match answer {
                Err(source) => {
                    return (accum, Err(SolveError::LocalSolveFailed { subdomain, source }));
                },
                Ok(weighted) => {
                    let mut weighted = weighted;
                    let ghost part = weighted@;
                    let indices: &[u32] = entries[subdomain].global_indices();
                    let n_part: usize = weighted.len();
                    let ghost before = codes@;
                    push_slice(&mut codes, &indices[0..n_part]);
                    proof {
                        let ghost_parts = parts;
                        parts = parts.push(part);
                        assert(parts.drop_last() =~= ghost_parts);
                        let lists = part_indices(entries@, parts);
                        assert(lists.drop_last() =~= part_indices(entries@, ghost_parts));
                        assert(lists.last() == indices@.take(n_part as int));
                        assert(indices@.subrange(0, n_part as int) =~= indices@.take(
                            n_part as int,
                        ));
                        assert(self.spec_subdomains()[subdomain as int].fits(self.spec_n_dofs()));
                        assert forall|i: int| 0 <= i < codes@.len() implies #[trigger] codes@[i]
                            < r@.len() by {
                            if i >= before.len() {
                                assert(codes@[i] == indices@[i - before.len()]);
                            }
                        }
                    }
                    values.append(&mut weighted);
                    subdomain = subdomain + 1;
                },
            }
        }
        let n_dofs: usize = r.len();
        let ghost zeros = accum@;
        let mut bins: Vec<T> = atomic.accumulate(
            accum,
            codes.as_slice(),
            values.as_slice(),
            ops,
        );
        let ghost sums = bins@;
        let mut i: usize = 0;
        while i < n_dofs
            invariant
                i <= n_dofs == bins@.len() == z@.len() == sums.len(),
                forall|j: int| 0 <= j < i ==> #[trigger] z@[j] == sums[j],
                forall|j: int| 0 <= j < i ==> #[trigger] bins@[j] == zero,
                forall|j: int| i <= j < n_dofs ==> #[trigger] bins@[j] == sums[j],
            decreases n_dofs - i,
        {
            z[i] = bins[i];
            bins.set(i, zero);
            i = i + 1;
        }
        proof {
            assert(z@ =~= sums);
            assert(are_local_solutions(*ops, entries@, allow, r@, parts));
            assert forall|dof: int| 0 <= dof < z@.len()
                implies crate::schwarz_precond::reduction::is_contribution_sum(
                *ops,
                entries@,
                parts,
                dof,
                #[trigger] z@[dof],
            ) by {
                let items = crate::schwarz_precond::reduction::contributions(entries@, parts, dof);
                assert(crate::kernels::is_accumulated(*ops, zeros[dof], items, sums[dof]));
                lemma_zero_start(*ops, zero, items, sums[dof]);
            }
        }
        (bins, Ok(()))
    }

    /// Apply under a given plan with buffers of its strategy, which come back clean.
    ///
    /// `zero` is the value that clean accumulators hold.
    pub fn apply_with_buffers<T: Copy + Send + Sync, A: Arithmetic<T> + Sync, B: AtomicBins<T, A>>(
        &self,
        plan: ReductionPlan,
        r: &[T],
        z: &mut [T],
        buffers: SchwarzBuffers<T>,
        zero: T,
        ops: &A,
        atomic: &B,
    ) -> (done: (SchwarzBuffers<T>, Result<(), SolveError>)) where S: LocalSolver<T> + Sync
        requires
            r@.len() == self.spec_n_dofs(),
            old(z)@.len() == self.spec_n_dofs(),
            buffers.spec_strategy() == plan.strategy,
            buffers.fits(self.spec_n_dofs(), self.spec_max_scratch_size()),
            buffers.is_clean(zero),
            crate::arithmetic::zero_gives(*ops, zero),
        ensures
            planned_outcome(
                *ops,
                self.spec_subdomains(),
                self.spec_n_dofs(),
                plan,
                r@,
                old(z)@,
                final(z)@,
                done.1,
            ),
            done.0.spec_strategy() == plan.strategy,
            done.0.fits(self.spec_n_dofs(), self.spec_max_scratch_size()),
            done.0.is_clean(zero),
    {
        proof {
            use_type_invariant(self);
        }
        let allow: bool = plan.allow_inner_parallelism;
        match buffers {
            SchwarzBuffers::Atomic { accum } => {
                let (accum, result) = self.apply_atomic(allow, r, z, accum, zero, ops, atomic);
                (SchwarzBuffers::Atomic { accum }, result)
            },
            SchwarzBuffers::Reduction { pool } => {
                let (pool, result) = apply_parallel_reduction(
                    self.subdomains(),
                    self.max_scratch_size(),
                    allow,
                    r,
                    z,
                    pool,
                    zero,
                    ops,
                );
                (SchwarzBuffers::Reduction { pool }, result)
            },
        }
    }

    /// Apply under a given plan with fresh buffers.
    pub fn apply_planned<T: Copy + Send + Sync, A: Arithmetic<T> + Sync, B: AtomicBins<T, A>>(
        &self,
        plan: ReductionPlan,
        r: &[T],
        z: &mut [T],
        ops: &A,
        atomic: &B,
    ) -> (result: Result<(), SolveError>) where S: LocalSolver<T> + Sync
        requires
            r@.len() == self.spec_n_dofs(),
            old(z)@.len() == self.spec_n_dofs(),
        ensures
            planned_outcome(
                *ops,
                self.spec_subdomains(),
                self.spec_n_dofs(),
                plan,
                r@,
                old(z)@,
                final(z)@,
                result,
            ),
    {
        let zero: T = ops.zero();
        let buffers: SchwarzBuffers<T> = SchwarzBuffers::new(
            plan.strategy,
            self.nrows(),
            self.max_scratch_size(),
            zero,
        );
        let (_, result) = self.apply_with_buffers(plan, r, z, buffers, zero, ops, atomic);
        result
    }
}

impl<S> SchwarzPreconditioner<S> {
    /// What an apply on `threads` threads does.
    pub open spec fn plan_on(self, threads: nat) -> ReductionPlan {
        ReductionPlan {
            strategy: self.resolved_on(threads),
            allow_inner_parallelism: self.spec_scheduler().spec_allow_inner_parallelism(threads),
        }
    }

    /// `z = M^-1 r`
    pub fn apply<T: Copy + Send + Sync, A: Arithmetic<T> + Sync, B: AtomicBins<T, A>>(
        &self,
        r: &[T],
        z: &mut [T],
        ops: &A,
        atomic: &B,
    ) -> (result: Result<(), SolveError>) where S: LocalSolver<T> + Sync
        ensures
            apply_outcome(*ops, *self, r@, old(z)@, final(z)@, result),
    {
        let n_dofs: usize = self.nrows();
        if r.len() != n_dofs {
            return Err(length_error("SchwarzPreconditioner::apply", "x", r.len(), n_dofs));
        }
        if z.len() != n_dofs {
            return Err(length_error("SchwarzPreconditioner::apply", "y", z.len(), n_dofs));
        }
        let threads: usize = current_num_threads();
        let plan: ReductionPlan = self.plan(threads);
        assert(plan == self.plan_on(threads as nat));
        self.apply_planned(plan, r, z, ops, atomic)
    }

    /// `z = M^-T r`, which is `M^-1 r`: every term of the sum is symmetric.
    pub fn apply_adjoint<T: Copy + Send + Sync, A: Arithmetic<T> + Sync, B: AtomicBins<T, A>>(
        &self,
        r: &[T],
        z: &mut [T],
        ops: &A,
        atomic: &B,
    ) -> (result: Result<(), SolveError>) where S: LocalSolver<T> + Sync
        ensures
            apply_outcome(*ops, *self, r@, old(z)@, final(z)@, result),
    {
        self.apply(r, z, ops, atomic)
    }
}

/// The error on a vector `name` of `len` entries where `n_dofs` are due.
pub open spec fn is_length_error(
    error: SolveError,
    context: &'static str,
    name: Seq<char>,
    len: nat,
    n_dofs: nat,
) -> bool {
    error matches SolveError::InvalidInput { context: at, message } && at == context && message@
        == length_message(name, len, n_dofs)
}

/// What an apply does: it refuses vectors of the wrong length, and otherwise
/// follows the plan for some thread-pool width.
pub open spec fn apply_outcome<T, A: Arithmetic<T>, S: LocalSolver<T>>(
    ops: A,
    p: SchwarzPreconditioner<S>,
    r: Seq<T>,
    before: Seq<T>,
    after: Seq<T>,
    result: Result<(), SolveError>,
) -> bool {
    let n_dofs = p.spec_n_dofs();
    let context = "SchwarzPreconditioner::apply";
    if r.len() != n_dofs {
        &&& after == before
        &&& result matches Err(e) && is_length_error(e, context, "x"@, r.len(), n_dofs)
    } else if before.len() != n_dofs {
        &&& after == before
        &&& result matches Err(e) && is_length_error(e, context, "y"@, before.len(), n_dofs)
    } else {
        exists|threads: usize|
            planned_outcome(
                ops,
                p.spec_subdomains(),
                n_dofs,
                #[trigger] p.plan_on(threads as nat),
                r,
                before,
                after,
                result,
            )
    }
}

/// With exact arithmetic, both backends give each unknown the sum of what the
/// subdomains contribute to it, however the work was cut up.
pub proof fn law_additive_apply_is_exact<T, A: Arithmetic<T>, S: LocalSolver<T>>(
    ops: A,
    value: spec_fn(T) -> real,
    entries: Seq<SubdomainEntry<S>>,
    n_dofs: nat,
    plan: ReductionPlan,
    r: Seq<T>,
    z: Seq<T>,
)
    requires
        crate::arithmetic::is_exact(ops, value),
        is_additive_apply(ops, entries, n_dofs, plan, r, z),
    ensures
        exists|parts: Seq<Seq<T>>| #[trigger]
            are_local_solutions(ops, entries, plan.allow_inner_parallelism, r, parts) && forall|
                dof: int,
            |
                0 <= dof < n_dofs ==> #[trigger] contributions_add_up(
                    value,
                    entries,
                    parts,
                    dof,
                    z[dof],
                ),
{
    let parts = choose|parts: Seq<Seq<T>>| #[trigger]
        are_local_solutions(ops, entries, plan.allow_inner_parallelism, r, parts)
            && crate::schwarz_precond::reduction::parts_fit(entries, parts)
            && crate::schwarz_precond::reduction::are_contribution_sums(ops, entries, parts, z);
    assert forall|dof: int| 0 <= dof < n_dofs implies #[trigger] contributions_add_up(
        value,
        entries,
        parts,
        dof,
        z[dof],
    ) by {
        let items = crate::schwarz_precond::reduction::contributions(entries, parts, dof);
        assert(crate::schwarz_precond::reduction::is_contribution_sum(
            ops,
            entries,
            parts,
            dof,
            z[dof],
        ));
        crate::arithmetic::law_sum_is_exact(ops, value, items.to_multiset(), z[dof]);
        crate::arithmetic::law_value_sum_ignores_order(value, items);
    }
}

/// The value of `z` is the sum of the values that `parts` have for `dof`.
pub open spec fn contributions_add_up<T, S>(
    value: spec_fn(T) -> real,
    entries: Seq<SubdomainEntry<S>>,
    parts: Seq<Seq<T>>,
    dof: int,
    z: T,
) -> bool {
    value(z) == crate::arithmetic::value_sum(
        value,
        crate::schwarz_precond::reduction::contributions(entries, parts, dof),
    )
}

/// Accumulating onto zero sums the items.
proof fn lemma_zero_start<T, A: Arithmetic<T>>(ops: A, zero: T, items: Seq<T>, sum: T)
    requires
        crate::arithmetic::zero_gives(ops, zero),
        crate::kernels::is_accumulated(ops, zero, items, sum),
    ensures
        crate::arithmetic::is_sum_of(ops, items.to_multiset(), sum),
{
    broadcast use vstd::seq_lib::group_to_multiset_ensures;

    let all = items.push(zero).to_multiset();
    assert(all =~= items.to_multiset().insert(zero));
    crate::arithmetic::lemma_sum_without_zero(ops, all, zero, sum);
    assert(all.remove(zero) =~= items.to_multiset());
}

fn push_slice(list: &mut Vec<u32>, more: &[u32])
    ensures
        final(list)@ == old(list)@ + more@,
{
    let n: usize = more.len();
    let mut i: usize = 0;
    while i < n
        invariant
            i <= n == more@.len(),
            list@ == old(list)@ + more@.take(i as int),
        decreases n - i,
    {
        list.push(more[i]);
        i = i + 1;
        assert(list@ =~= old(list)@ + more@.take(i as int));
    }
    assert(more@.take(n as int) =~= more@);
}

} // verus!
