//! Local solvers and the subdomain entries that carry them.

use vstd::prelude::*;

use crate::arithmetic::Arithmetic;
use crate::kernels::scatter_sequential;
use crate::schwarz_precond::domain::SubdomainCore;
use crate::schwarz_precond::error::{BuildError, LocalSolveError, SolveError};

verus! {

/// A solver of one subdomain's local system.
pub trait LocalSolver<T> {
    /// Number of local unknowns.
    fn n_local(&self) -> usize;

    /// Length of the scratch vectors the solver works in.
    fn scratch_size(&self) -> usize;

    /// Estimate of the work that a nested parallel region would share out; zero
    /// if there is none.
    fn inner_parallelism_work_estimate(&self) -> usize;

    /// Solve the local system for the right-hand side `rhs` of length `n_local`.
    ///
    /// `allow_inner_parallelism` is a hint; a solver without nested parallel
    /// regions may ignore it.
    fn solve_local(&self, rhs: Vec<T>, allow_inner_parallelism: bool) -> Result<
        Vec<T>,
        LocalSolveError,
    >;
}

/// A subdomain core together with the solver of its local system.
#[derive(Debug, Clone)]
pub struct SubdomainEntry<S> {
    core: SubdomainCore,
    solver: S,
}

/// What pairing a core with a solver gives.
pub open spec fn pairing_outcome<T, S: LocalSolver<T>>(
    core: SubdomainCore,
    solver: S,
    result: Result<SubdomainEntry<S>, BuildError>,
) -> bool {
    match result {
        Ok(entry) => {
            &&& entry.spec_core() == core
            &&& entry.spec_solver() == solver
            &&& call_ensures(
                <S as LocalSolver<T>>::n_local,
                (&solver,),
                core.indices().len() as usize,
            )
            &&& exists|size: usize| #[trigger]
                call_ensures(<S as LocalSolver<T>>::scratch_size, (&solver,), size) && size
                    >= core.indices().len()
        },
        Err(BuildError::LocalDofCountMismatch { index_count, solver_n_local }) => {
            &&& index_count == core.indices().len()
            &&& call_ensures(<S as LocalSolver<T>>::n_local, (&solver,), solver_n_local)
            &&& solver_n_local != index_count
        },
        Err(BuildError::ScratchSizeTooSmall { scratch_size, required_min }) => {
            &&& call_ensures(
                <S as LocalSolver<T>>::n_local,
                (&solver,),
                core.indices().len() as usize,
            )
            &&& call_ensures(<S as LocalSolver<T>>::scratch_size, (&solver,), scratch_size)
            &&& required_min == core.indices().len()
            &&& scratch_size < required_min
        },
        Err(_) => false,
    }
}

impl<S> SubdomainEntry<S> {
    /// The subdomain's unknowns and weights.
    pub closed spec fn spec_core(self) -> SubdomainCore {
        self.core
    }

    /// The subdomain's solver.
    pub closed spec fn spec_solver(self) -> S {
        self.solver
    }

    /// Pair a core with its solver.
    ///
    /// The solver must have as many unknowns as the core, and scratch vectors
    /// that can hold them.
    pub fn try_new<T>(core: SubdomainCore, solver: S) -> (result: Result<Self, BuildError>) where
        S: LocalSolver<T>,

        ensures
            pairing_outcome::<T, S>(core, solver, result),
    {
        let index_count: usize = core.n_local();
        let solver_n_local: usize = <S as LocalSolver<T>>::n_local(&solver);
        if solver_n_local != index_count {
            return Err(BuildError::LocalDofCountMismatch { index_count, solver_n_local });
        }
        let scratch_size: usize = <S as LocalSolver<T>>::scratch_size(&solver);
        if scratch_size < index_count {
            return Err(
                BuildError::ScratchSizeTooSmall { scratch_size, required_min: index_count },
            );
        }
        Ok(SubdomainEntry { core, solver })
    }

    /// The subdomain's unknowns and weights.
    pub fn subdomain_core(&self) -> (core: &SubdomainCore)
        ensures
            *core == self.spec_core(),
    {
        &self.core
    }

    /// The subdomain's solver.
    pub fn solver(&self) -> (solver: &S)
        ensures
            *solver == self.spec_solver(),
    {
        &self.solver
    }

    /// Global unknowns in local order.
    pub fn global_indices(&self) -> (indices: &[u32])
        ensures
            indices@ == self.spec_core().indices(),
            self.spec_core().wf(),
    {
        self.core.global_indices()
    }
}

/// Global unknown `local_index` of subdomain `subdomain` is out of bounds, and
/// none before it is.
pub open spec fn is_first_out_of_bounds<S>(
    entries: Seq<SubdomainEntry<S>>,
    n_dofs: nat,
    subdomain: int,
    local_index: int,
) -> bool {
    &&& 0 <= subdomain < entries.len()
    &&& 0 <= local_index < entries[subdomain].spec_core().indices().len()
    &&& entries[subdomain].spec_core().indices()[local_index] >= n_dofs
    &&& forall|s: int, i: int|
        #![trigger entries[s].spec_core().indices()[i]]
        0 <= s < entries.len() && 0 <= i < entries[s].spec_core().indices().len() && (s < subdomain
            || (s == subdomain && i < local_index)) ==> entries[s].spec_core().indices()[i] < n_dofs
}

/// Every subdomain refers to global unknowns below `n_dofs` only.
pub open spec fn all_in_bounds<S>(entries: Seq<SubdomainEntry<S>>, n_dofs: nat) -> bool {
    forall|s: int, i: int|
        #![trigger entries[s].spec_core().indices()[i]]
        0 <= s < entries.len() && 0 <= i < entries[s].spec_core().indices().len()
            ==> entries[s].spec_core().indices()[i] < n_dofs
}

/// Check that every subdomain refers to global unknowns below `n_dofs` only.
///
/// The first offender, by subdomain and then by position, is reported.
pub fn validate_entries<S>(entries: &[SubdomainEntry<S>], n_dofs: usize) -> (result: Result<
    (),
    BuildError,
>)
    ensures
        match result {
            Ok(()) => all_in_bounds(entries@, n_dofs as nat),
            Err(e) => {
                &&& e matches BuildError::GlobalIndexOutOfBounds {
                    subdomain,
                    local_index,
                    global_index,
                    n_dofs: n,
                }
                &&& is_first_out_of_bounds(
                    entries@,
                    n_dofs as nat,
                    subdomain as int,
                    local_index as int,
                )
                &&& global_index == entries@[subdomain as int].spec_core().indices()[local_index as int]
                &&& n == n_dofs
            },
        },
{
    for subdomain in 0..entries.len()
        invariant
            forall|s: int, i: int|
                #![trigger entries@[s].spec_core().indices()[i]]
                0 <= s < subdomain && 0 <= i < entries@[s].spec_core().indices().len()
                    ==> entries@[s].spec_core().indices()[i] < n_dofs,
    {
        let indices: &[u32] = entries[subdomain].global_indices();
        for local_index in 0..indices.len()
            invariant
                subdomain < entries@.len(),
                indices@ == entries@[subdomain as int].spec_core().indices(),
                forall|s: int, i: int|
                    #![trigger entries@[s].spec_core().indices()[i]]
                    0 <= s < subdomain && 0 <= i < entries@[s].spec_core().indices().len()
                        ==> entries@[s].spec_core().indices()[i] < n_dofs,
                forall|i: int| 0 <= i < local_index ==> #[trigger] indices@[i] < n_dofs,
        {
            let global_index: u32 = indices[local_index];
            if global_index as usize >= n_dofs {
                return Err(
                    BuildError::GlobalIndexOutOfBounds {
                        subdomain,
                        local_index,
                        global_index,
                        n_dofs,
                    },
                );
            }
        }
    }
    Ok(())
}

// ---------------------------------------------------------------------------
// Restriction and prolongation
// ---------------------------------------------------------------------------

/// `w` is a value of `1 / sqrt(c)`.
pub open spec fn weight_gives<T, A: Arithmetic<T>>(ops: A, c: u32, w: T) -> bool {
    exists|one: T, count: T, root: T|
        {
            &&& crate::arithmetic::one_gives(ops, one)
            &&& call_ensures(A::from_count, (&ops, c), count)
            &&& #[trigger] crate::arithmetic::root_gives(ops, count, root)
            &&& #[trigger] crate::arithmetic::divide_gives(ops, one, root, w)
        }
}

/// The partition-of-unity weight of an unknown that occurs `c` times.
pub fn partition_weight<T: Copy, A: Arithmetic<T>>(c: u32, ops: &A) -> (w: T)
    ensures
        weight_gives(*ops, c, w),
{
    let one: T = ops.one();
    let count: T = ops.from_count(c);
    let root: T = ops.square_root(count);
    let w: T = ops.divide(one, root);
    assert(crate::arithmetic::root_gives(*ops, count, root));
    assert(crate::arithmetic::divide_gives(*ops, one, root, w));
    w
}

/// `local[i]` is a value of `weight(c_i) * r[index_i]`.
pub open spec fn is_restriction<T, A: Arithmetic<T>>(
    ops: A,
    core: SubdomainCore,
    r: Seq<T>,
    local: Seq<T>,
) -> bool {
    &&& local.len() == core.indices().len()
    &&& forall|i: int|
        0 <= i < local.len() ==> is_weighted(
            ops,
            core.spec_weights().multiplicity(i) as u32,
            r[core.indices()[i] as int],
            #[trigger] local[i],
        )
}

/// `out` is a value of `weight(c) * x`.
pub open spec fn is_weighted<T, A: Arithmetic<T>>(
    ops: A,
    c: u32,
    x: T,
    out: T,
) -> bool {
    exists|w: T| #[trigger]
        weight_gives(ops, c, w) && crate::arithmetic::times_gives(ops, w, x, out)
}

impl<S> SubdomainEntry<S> {
    /// Gather the subdomain's unknowns from `r`, each times its weight.
    pub fn restrict<T: Copy, A: Arithmetic<T>>(
        &self,
        r: &[T],
        ops: &A,
    ) -> (local: Vec<T>)
        requires
            self.spec_core().wf(),
            forall|i: int|
                0 <= i < self.spec_core().indices().len() ==> #[trigger] self.spec_core().indices()[i]
                    < r@.len(),
        ensures
            is_restriction(*ops, self.spec_core(), r@, local@),
    {
        let indices: &[u32] = self.core.global_indices();
        let mut local: Vec<T> = Vec::with_capacity(indices.len());
        for i in 0..indices.len()
            invariant
                indices@ == self.spec_core().indices(),
                self.spec_core().wf(),
                self.spec_core() == self.core,
                forall|i: int|
                    0 <= i < indices@.len() ==> #[trigger] indices@[i] < r@.len(),
                local@.len() == i,
                forall|j: int|
                    0 <= j < i ==> is_weighted(
                        *ops,
                        self.spec_core().spec_weights().multiplicity(j) as u32,
                        r@[indices@[j] as int],
                        #[trigger] local@[j],
                    ),
        {
            let c: u32 = self.core.partition_weights().get(i);
            let w: T = partition_weight(c, ops);
            let x: T = r[indices[i] as usize];
            let out: T = ops.times(w, x);
            assert(is_weighted(*ops, c, x, out));
            local.push(out);
        }
        local
    }
}

/// `rhs` is a weighted restriction of `r`, and `answer` is the solver's answer to it.
pub open spec fn is_local_solve<T, A: Arithmetic<T>, S: LocalSolver<T>>(
    ops: A,
    entry: SubdomainEntry<S>,
    allow_inner_parallelism: bool,
    r: Seq<T>,
    rhs: Vec<T>,
    answer: Result<Vec<T>, LocalSolveError>,
) -> bool {
    &&& is_restriction(ops, entry.spec_core(), r, rhs@)
    &&& call_ensures(
        <S as LocalSolver<T>>::solve_local,
        (&entry.spec_solver(), rhs, allow_inner_parallelism),
        answer,
    )
}

/// `after` adds to `before` the weighted local solution, position by position.
///
/// Positions that the solution lacks contribute nothing.
pub open spec fn is_prolongation<T, A: Arithmetic<T>>(
    ops: A,
    core: SubdomainCore,
    solution: Seq<T>,
    before: Seq<T>,
    after: Seq<T>,
) -> bool {
    exists|weighted: Seq<T>|
        {
            &&& #[trigger] is_weighted_solution(ops, core, solution, weighted)
            &&& after.len() == before.len()
            &&& crate::kernels::is_sequential_scatter(
                ops,
                core.indices().take(weighted.len() as int),
                weighted,
                0,
                before.len() as int,
                before,
                after,
            )
        }
}

/// `weighted[i]` is a value of `weight(c_i) * solution[i]`.
pub open spec fn is_weighted_solution<T, A: Arithmetic<T>>(
    ops: A,
    core: SubdomainCore,
    solution: Seq<T>,
    weighted: Seq<T>,
) -> bool {
    &&& weighted.len() == if solution.len() < core.indices().len() {
        solution.len()
    } else {
        core.indices().len()
    }
    &&& forall|i: int|
        0 <= i < weighted.len() ==> is_weighted(
            ops,
            core.spec_weights().multiplicity(i) as u32,
            solution[i],
            #[trigger] weighted[i],
        )
}

/// What applying one subdomain does to an accumulator.
pub open spec fn apply_outcome<T, A: Arithmetic<T>, S: LocalSolver<T>>(
    ops: A,
    entry: SubdomainEntry<S>,
    allow_inner_parallelism: bool,
    r: Seq<T>,
    before: Seq<T>,
    after: Seq<T>,
    result: Result<(), LocalSolveError>,
) -> bool {
    match result {
        Ok(()) => exists|rhs: Vec<T>, solution: Vec<T>| #[trigger]
            is_local_solve(
                ops,
                entry,
                allow_inner_parallelism,
                r,
                rhs,
                Ok(solution),
            ) && is_prolongation(
                ops,
                entry.spec_core(),
                solution@,
                before,
                after,
            ),
        Err(e) => after == before && fails_locally(
            ops,
            entry,
            allow_inner_parallelism,
            r,
            e,
        ),
    }
}

/// The solver answers a weighted restriction of `r` with the failure `e`.
pub open spec fn fails_locally<T, A: Arithmetic<T>, S: LocalSolver<T>>(
    ops: A,
    entry: SubdomainEntry<S>,
    allow_inner_parallelism: bool,
    r: Seq<T>,
    e: LocalSolveError,
) -> bool {
    exists|rhs: Vec<T>, answer: Result<Vec<T>, LocalSolveError>| #[trigger]
        is_local_solve(ops, entry, allow_inner_parallelism, r, rhs, answer) && answer
            == Err::<Vec<T>, LocalSolveError>(e)
}

/// What one subdomain makes of `r`: its weighted local solution, or the failure
/// of its solver.
pub open spec fn solve_outcome<T, A: Arithmetic<T>, S: LocalSolver<T>>(
    ops: A,
    entry: SubdomainEntry<S>,
    allow_inner_parallelism: bool,
    r: Seq<T>,
    result: Result<Vec<T>, LocalSolveError>,
) -> bool {
    match result {
        Ok(weighted) => is_weighted_local_solution(
            ops,
            entry,
            allow_inner_parallelism,
            r,
            weighted@,
        ),
        Err(e) => fails_locally(ops, entry, allow_inner_parallelism, r, e),
    }
}

/// `weighted` is the weighted solution of the subdomain's local system for `r`.
pub open spec fn is_weighted_local_solution<T, A: Arithmetic<T>, S: LocalSolver<T>>(
    ops: A,
    entry: SubdomainEntry<S>,
    allow_inner_parallelism: bool,
    r: Seq<T>,
    weighted: Seq<T>,
) -> bool {
    exists|rhs: Vec<T>, solution: Vec<T>| #[trigger]
        is_local_solve(ops, entry, allow_inner_parallelism, r, rhs, Ok(solution))
            && is_weighted_solution(ops, entry.spec_core(), solution@, weighted)
}

impl<S> SubdomainEntry<S> {
    /// The subdomain's unknowns are below `n_dofs` and its weights fit them.
    pub open spec fn fits(self, n_dofs: nat) -> bool {
        &&& self.spec_core().wf()
        &&& forall|i: int|
            0 <= i < self.spec_core().indices().len() ==> #[trigger] self.spec_core().indices()[i]
                < n_dofs
    }

    /// Solve the local system for the weighted restriction of `r`, and weight
    /// the solution: `D A^-1 D R r`.
    pub fn weighted_solution<T: Copy, A: Arithmetic<T>>(
        &self,
        r: &[T],
        allow_inner_parallelism: bool,
        ops: &A,
    ) -> (result: Result<Vec<T>, LocalSolveError>) where S: LocalSolver<T>
        requires
            self.fits(r@.len()),
        ensures
            solve_outcome(*ops, *self, allow_inner_parallelism, r@, result),
            result matches Ok(weighted) ==> weighted@.len() <= self.spec_core().indices().len(),
    {
        let rhs: Vec<T> = self.restrict(r, ops);
        let ghost given = rhs;
        let answer: Result<Vec<T>, LocalSolveError> = <S as LocalSolver<T>>::solve_local(
            &self.solver,
            rhs,
            allow_inner_parallelism,
        );
        assert(is_local_solve(*ops, *self, allow_inner_parallelism, r@, given, answer));
        let solution: Vec<T> = match answer {
            Ok(solution) => solution,
            Err(e) => {
                assert(fails_locally(*ops, *self, allow_inner_parallelism, r@, e));
                return Err(e);
            },
        };
        let indices: &[u32] = self.core.global_indices();
        let n: usize = if solution.len() < indices.len() {
            solution.len()
        } else {
            indices.len()
        };
        let mut weighted: Vec<T> = Vec::with_capacity(n);
        let mut i: usize = 0;
        while i < n
            invariant
                i <= n <= indices@.len(),
                n <= solution@.len(),
                indices@ == self.spec_core().indices(),
                self.spec_core() == self.core,
                self.spec_core().wf(),
                weighted@.len() == i,
                forall|j: int|
                    0 <= j < i ==> is_weighted(
                        *ops,
                        self.spec_core().spec_weights().multiplicity(j) as u32,
                        solution@[j],
                        #[trigger] weighted@[j],
                    ),
            decreases n - i,
        {
            let c: u32 = self.core.partition_weights().get(i);
            let w: T = partition_weight(c, ops);
            let x: T = solution[i];
            let out: T = ops.times(w, x);
            assert(is_weighted(*ops, c, x, out));
            weighted.push(out);
            i = i + 1;
        }
        assert(is_weighted_solution(*ops, self.spec_core(), solution@, weighted@));
        Ok(weighted)
    }

    /// Add `R^T D A^-1 D R r` of this subdomain to `accum`.
    ///
    /// A failing local solve leaves `accum` as it was.
    pub fn apply_weighted_into<T: Copy, A: Arithmetic<T>>(
        &self,
        r: &[T],
        accum: &mut [T],
        allow_inner_parallelism: bool,
        ops: &A,
    ) -> (result: Result<(), LocalSolveError>) where S: LocalSolver<T>
        requires
            r@.len() == old(accum)@.len(),
            self.fits(r@.len()),
        ensures
            apply_outcome(
                *ops,
                *self,
                allow_inner_parallelism,
                r@,
                old(accum)@,
                final(accum)@,
                result,
            ),
    {
        let ghost before = accum@;
        let weighted: Vec<T> = match self.weighted_solution(r, allow_inner_parallelism, ops) {
            Ok(weighted) => weighted,
            Err(e) => {
                return Err(e);
            },
        };
        let indices: &[u32] = self.core.global_indices();
        let n: usize = weighted.len();
        let codes: &[u32] = &indices[0..n];
        let n_slots: usize = accum.len();
        proof {
            assert(codes@ =~= indices@.take(n as int));
            assert forall|i: int| 0 <= i < codes@.len() implies #[trigger] codes@[i] < n_slots by {
                assert(self.spec_core().indices()[i] < r@.len());
            }
        }
        scatter_sequential(accum, 0, n_slots, codes, weighted.as_slice(), ops);
        proof {
            let (rhs, solution) = choose|rhs: Vec<T>, solution: Vec<T>| #[trigger]
                is_local_solve(*ops, *self, allow_inner_parallelism, r@, rhs, Ok(solution))
                    && is_weighted_solution(*ops, self.spec_core(), solution@, weighted@);
            assert(is_prolongation(*ops, self.spec_core(), solution@, before, accum@));
        }
        Ok(())
    }
}

/// Attach the subdomain's index to a local failure.
pub fn lift_local_error(subdomain: usize, result: Result<(), LocalSolveError>) -> (lifted: Result<
    (),
    SolveError,
>)
    ensures
        match result {
            Ok(()) => lifted is Ok,
            Err(e) => lifted == Err::<(), SolveError>(
                SolveError::LocalSolveFailed { subdomain, source: e },
            ),
        },
{
    match result {
        Ok(()) => Ok(()),
        Err(source) => Err(SolveError::LocalSolveFailed { subdomain, source }),
    }
}

} // verus!
