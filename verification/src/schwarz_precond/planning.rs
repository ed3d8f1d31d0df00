//! Reduction strategy selection.
//!
//! [`ReductionStrategy`] is the user-facing choice. [`AdditiveScheduler`]
//! resolves `Auto` when a preconditioner is applied, from build-time metrics
//! and the current thread-pool width. The heuristic balances two costs:
//! - **Atomic scatter**: contention grows with overlap (unknowns shared across
//!   many subdomains)
//! - **Parallel reduction**: memory and final-reduction cost grow with the
//!   number of active workers times the number of unknowns
//!
//! The metrics are compared as quotients of binary64 values. A quotient rounds
//! to at most `c` exactly if it does not exceed the point halfway between `c`
//! and the next value, so each comparison is carried out on whole numbers.

use vstd::prelude::*;

use crate::binary64::round_to_binary64;
use crate::schwarz_precond::local_solve::{LocalSolver, SubdomainEntry};

verus! {

/// Strategy for combining per-subdomain results in additive Schwarz apply.
#[derive(Debug, Clone, Copy, PartialEq, Eq, Structural)]
pub enum ReductionStrategy {
    /// Choose a backend from build-time metrics and the current thread-pool width.
    Auto,
    /// Each subdomain atomically scatters into a shared accumulator.
    /// Memory: `O(n_dofs)` shared plus `O(P * max_scratch)` thread-local.
    AtomicScatter,
    /// Each task accumulates into a private buffer, then a parallel
    /// chunk-based reduction combines them.
    /// Memory: `O(P * n_dofs)` for task buffers.
    ParallelReduction,
}

impl Default for ReductionStrategy {
    fn default() -> (strategy: Self)
        ensures
            strategy == ReductionStrategy::Auto,
    {
        ReductionStrategy::Auto
    }
}

/// A backend, with `Auto` resolved.
#[derive(Debug, Clone, Copy, PartialEq, Eq, Structural)]
pub enum ResolvedReductionStrategy {
    /// See [`ReductionStrategy::AtomicScatter`].
    AtomicScatter,
    /// See [`ReductionStrategy::ParallelReduction`].
    ParallelReduction,
}

impl ResolvedReductionStrategy {
    /// The user-facing name of this backend.
    pub open spec fn spec_as_public(self) -> ReductionStrategy {
        match self {
            ResolvedReductionStrategy::AtomicScatter => ReductionStrategy::AtomicScatter,
            ResolvedReductionStrategy::ParallelReduction => ReductionStrategy::ParallelReduction,
        }
    }

    /// The user-facing name of this backend.
    pub fn as_public(self) -> (strategy: ReductionStrategy)
        ensures
            strategy == self.spec_as_public(),
    {
        match self {
            ResolvedReductionStrategy::AtomicScatter => ReductionStrategy::AtomicScatter,
            ResolvedReductionStrategy::ParallelReduction => ReductionStrategy::ParallelReduction,
        }
    }
}

/// What one apply does.
#[derive(Debug, Clone, Copy)]
pub struct ReductionPlan {
    /// The backend.
    pub strategy: ResolvedReductionStrategy,
    /// Whether local solvers may open nested parallel regions.
    pub allow_inner_parallelism: bool,
}

/// Build-time scheduling metrics and `Auto` resolution logic.
#[derive(Debug, Clone, Copy)]
pub struct AdditiveScheduler {
    /// Number of subdomains.
    pub n_subdomains: usize,
    /// Number of unknowns.
    pub n_dofs: usize,
    /// Nested-parallel work of all subdomains together.
    pub total_inner_parallel_work: usize,
    /// Nested-parallel work of the largest subdomain.
    pub max_inner_parallel_work: usize,
    /// Number of unknowns of all subdomains together.
    pub total_scatter_dofs: usize,
}

/// Below this much work in the largest subdomain, nested parallelism is not worth it.
pub const MIN_INNER_PARALLEL_WORK: usize = 200_000;

/// The sum of the numbers.
pub open spec fn sum_of(numbers: Seq<usize>) -> nat
    decreases numbers.len(),
{
    if numbers.len() == 0 {
        0
    } else {
        sum_of(numbers.drop_last()) + numbers.last() as nat
    }
}

/// The largest of the numbers, or zero.
pub open spec fn max_of(numbers: Seq<usize>) -> nat
    decreases numbers.len(),
{
    if numbers.len() == 0 {
        0
    } else {
        let front = max_of(numbers.drop_last());
        if numbers.last() > front {
            numbers.last() as nat
        } else {
            front
        }
    }
}

/// `n`, cut off at `usize::MAX`.
pub open spec fn saturated(n: nat) -> nat {
    if n > usize::MAX {
        usize::MAX as nat
    } else {
        n
    }
}

/// The number of unknowns of each subdomain.
pub open spec fn scatter_lengths<S>(entries: Seq<SubdomainEntry<S>>) -> Seq<usize> {
    Seq::new(entries.len(), |i: int| entries[i].spec_core().indices().len() as usize)
}

/// `work[i]` is what subdomain `i`'s solver estimates.
pub open spec fn are_estimates<T, S: LocalSolver<T>>(
    entries: Seq<SubdomainEntry<S>>,
    work: Seq<usize>,
) -> bool {
    &&& work.len() == entries.len()
    &&& forall|i: int|
        0 <= i < entries.len() ==> call_ensures(
            <S as LocalSolver<T>>::inner_parallelism_work_estimate,
            (&entries[i].spec_solver(),),
            #[trigger] work[i],
        )
}

// ---------------------------------------------------------------------------
// Comparisons of rounded quotients
// ---------------------------------------------------------------------------

/// Twice the significand of the binary64 value of 1.1, plus one.
///
/// In units of two to the power of -53 this is halfway between that value and
/// the next one.
pub const ABOVE_SWEEP_FACTOR: u128 = 9_907_919_180_215_093;

/// In units of two to the power of -51, halfway between 6 and the next binary64 value.
pub const ABOVE_SIX: u128 = 13_510_798_882_111_489;

/// In units of two to the power of -52, halfway between 4 and the binary64 value before it.
pub const BELOW_FOUR: u128 = 18_014_398_509_481_983;

/// `a / b`, both converted and the quotient rounded, is at most 1.1.
pub open spec fn quotient_at_most_sweep_factor(a: nat, b: nat) -> bool {
    crate::binary64::as_binary64(a) * 0x20_0000_0000_0000 <= crate::binary64::as_binary64(b)
        * ABOVE_SWEEP_FACTOR
}

/// `a / b`, both converted and the quotient rounded, is at most 6.
pub open spec fn quotient_at_most_six(a: nat, b: nat) -> bool {
    crate::binary64::as_binary64(a) * 0x8_0000_0000_0000 <= crate::binary64::as_binary64(b)
        * ABOVE_SIX
}

/// `a / b`, both converted and the quotient rounded, is at least 4.
pub open spec fn quotient_at_least_four(a: nat, b: nat) -> bool {
    crate::binary64::as_binary64(a) * 0x10_0000_0000_0000 >= crate::binary64::as_binary64(b)
        * BELOW_FOUR
}

/// The power of two that brings `m` to at least two to the power of 52.
pub open spec fn normalizing_scale(m: nat) -> nat
    decreases 0x20_0000_0000_0000 - m,
{
    if m == 0 || m >= 0x10_0000_0000_0000 {
        1
    } else {
        2 * normalizing_scale(2 * m)
    }
}

/// `total / max`, both converted and the quotient rounded, is below `0.75 * threads`.
///
/// `0.75 * threads` is a binary64 value with significand `3 * threads * scale`;
/// the quotient rounds below it exactly if it lies below the point halfway to
/// the next smaller value. With two to the power of 48 threads or more, no
/// quotient by at least [`MIN_INNER_PARALLEL_WORK`] comes near.
pub open spec fn capacity_below_target(total: nat, max: nat, threads: nat) -> bool {
    if threads == 0 {
        false
    } else if threads >= 0x1_0000_0000_0000 {
        true
    } else {
        let scale = normalizing_scale(3 * threads);
        crate::binary64::as_binary64(total) * (8 * scale) < crate::binary64::as_binary64(max) * (6
            * threads * scale - 1)
    }
}

fn at_most_sweep_factor(a: usize, b: usize) -> (holds: bool)
    ensures
        holds == quotient_at_most_sweep_factor(a as nat, b as nat),
{
    round_to_binary64(a as u64) * 0x20_0000_0000_0000 <= round_to_binary64(b as u64)
        * ABOVE_SWEEP_FACTOR
}

fn at_most_six(a: usize, b: usize) -> (holds: bool)
    ensures
        holds == quotient_at_most_six(a as nat, b as nat),
{
    round_to_binary64(a as u64) * 0x8_0000_0000_0000 <= round_to_binary64(b as u64) * ABOVE_SIX
}

fn at_least_four(a: usize, b: usize) -> (holds: bool)
    ensures
        holds == quotient_at_least_four(a as nat, b as nat),
{
    round_to_binary64(a as u64) * 0x10_0000_0000_0000 >= round_to_binary64(b as u64) * BELOW_FOUR
}

fn below_capacity_target(total: usize, max: usize, threads: usize) -> (holds: bool)
    ensures
        holds == capacity_below_target(total as nat, max as nat, threads as nat),
{
    if threads == 0 {
        return false;
    }
    let threads: u128 = threads as u128;
    if threads >= 0x1_0000_0000_0000 {
        return true;
    }
    let mut scale: u128 = 1;
    let mut m: u128 = 3 * threads;
    proof {
        assert(3 * threads * 1 == 3 * threads) by (nonlinear_arith);
    }
    while m < 0x10_0000_0000_0000
        invariant
            0 < threads < 0x1_0000_0000_0000,
            1 <= scale,
            0 < m < 0x20_0000_0000_0000,
            m == 3 * threads * scale,
            normalizing_scale((3 * threads) as nat) == scale * normalizing_scale(m as nat),
        decreases 0x20_0000_0000_0000 - m,
    {
        let ghost old_scale = scale;
        let ghost old_m = m;
        proof {
            assert(scale <= m) by (nonlinear_arith)
                requires
                    m == 3 * threads * scale,
                    threads >= 1,
                    scale >= 1,
            ;
        }
        scale = scale * 2;
        m = m * 2;
        proof {
            assert(m == 3 * threads * scale) by (nonlinear_arith)
                requires
                    old_m == 3 * threads * old_scale,
                    m == old_m * 2,
                    scale == old_scale * 2,
            ;
            assert(old_scale * (2 * normalizing_scale(m as nat)) == scale * normalizing_scale(
                m as nat,
            )) by (nonlinear_arith)
                requires
                    scale == old_scale * 2,
            ;
        }
    }
    proof {
        assert(scale * 1 == scale) by (nonlinear_arith);
        assert(scale <= m) by (nonlinear_arith)
            requires
                m == 3 * threads * scale,
                threads >= 1,
                scale >= 1,
        ;
        assert(6 * threads * scale == 2 * m) by (nonlinear_arith)
            requires
                m == 3 * threads * scale,
        ;
    }
    let left: u128 = round_to_binary64(total as u64);
    let right: u128 = round_to_binary64(max as u64);
    proof {
        assert(left * (8 * scale) <= 0x1_0000_0000_0000_0000 * (8 * 0x20_0000_0000_0000))
            by (nonlinear_arith)
            requires
                left <= 0x1_0000_0000_0000_0000,
                scale <= 0x20_0000_0000_0000,
        ;
        assert(right * (2 * m - 1) <= 0x1_0000_0000_0000_0000 * (2 * 0x20_0000_0000_0000))
            by (nonlinear_arith)
            requires
                right <= 0x1_0000_0000_0000_0000,
                0 < m <= 0x20_0000_0000_0000,
        ;
    }
    left * (8 * scale) < right * (2 * m - 1)
}

// ---------------------------------------------------------------------------
// The scheduler
// ---------------------------------------------------------------------------

impl AdditiveScheduler {
    /// Collect the metrics of a list of subdomains.
    pub fn from_entries<T, S: LocalSolver<T>>(
        entries: &[SubdomainEntry<S>],
        n_dofs: usize,
    ) -> (scheduler: Self)
        ensures
            scheduler.n_subdomains == entries@.len(),
            scheduler.n_dofs == n_dofs,
            scheduler.total_scatter_dofs == saturated(sum_of(scatter_lengths(entries@))),
            exists|work: Seq<usize>| #[trigger]
                are_estimates::<T, S>(entries@, work) && scheduler.total_inner_parallel_work
                    == saturated(sum_of(work)) && scheduler.max_inner_parallel_work == max_of(work),
            scheduler.max_inner_parallel_work <= scheduler.total_inner_parallel_work,
    {
        let mut total_work: usize = 0;
        let mut max_work: usize = 0;
        let mut total_scatter: usize = 0;
        let ghost mut work = Seq::<usize>::empty();
        for i in 0..entries.len()
            invariant
                work.len() == i,
                forall|j: int|
                    0 <= j < i ==> call_ensures(
                        <S as LocalSolver<T>>::inner_parallelism_work_estimate,
                        (&entries@[j].spec_solver(),),
                        #[trigger] work[j],
                    ),
                total_work == saturated(sum_of(work)),
                max_work == max_of(work),
                total_scatter == saturated(sum_of(scatter_lengths(entries@).take(i as int))),
        {
            let estimate: usize = <S as LocalSolver<T>>::inner_parallelism_work_estimate(
                entries[i].solver(),
            );
            let length: usize = entries[i].global_indices().len();
            proof {
                let before = work;
                work = work.push(estimate);
                assert(work.drop_last() =~= before);
                let lengths = scatter_lengths(entries@);
                assert(lengths.take(i + 1).drop_last() =~= lengths.take(i as int));
                assert(lengths.take(i + 1).last() == length);
            }
            total_work = total_work.saturating_add(estimate);
            if estimate > max_work {
                max_work = estimate;
            }
            total_scatter = total_scatter.saturating_add(length);
        }
        proof {
            let lengths = scatter_lengths(entries@);
            assert(lengths.take(entries@.len() as int) =~= lengths);
            assert(are_estimates::<T, S>(entries@, work));
            lemma_max_within_sum(work);
        }
        AdditiveScheduler {
            n_subdomains: entries.len(),
            n_dofs,
            total_inner_parallel_work: total_work,
            max_inner_parallel_work: max_work,
            total_scatter_dofs: total_scatter,
        }
    }

    /// Whether local solvers may open nested parallel regions: the largest
    /// subdomain is worth it, and the subdomains alone do not keep three
    /// quarters of the threads busy.
    pub open spec fn spec_allow_inner_parallelism(self, threads: nat) -> bool {
        &&& self.max_inner_parallel_work >= MIN_INNER_PARALLEL_WORK
        &&& capacity_below_target(
            self.total_inner_parallel_work as nat,
            self.max_inner_parallel_work as nat,
            threads,
        )
    }

    /// Entries that a parallel reduction sweeps: one buffer per active worker.
    pub open spec fn reduction_sweep(self, threads: nat) -> nat {
        let workers = if threads < self.n_subdomains {
            threads
        } else {
            self.n_subdomains as nat
        };
        let buffers = if workers < 1 {
            1
        } else {
            workers
        };
        saturated(buffers * self.n_dofs as nat)
    }

    /// Entries that an atomic scatter touches, at least one.
    pub open spec fn scatter_work(self) -> nat {
        if self.total_scatter_dofs < 1 {
            1
        } else {
            self.total_scatter_dofs as nat
        }
    }

    /// The backend that `Auto` stands for.
    pub open spec fn spec_auto_strategy(
        self,
        threads: nat,
        allow_inner_parallelism: bool,
    ) -> ResolvedReductionStrategy {
        let sweep = self.reduction_sweep(threads);
        let unknowns = if self.n_dofs < 1 {
            1
        } else {
            self.n_dofs as nat
        };
        if quotient_at_most_sweep_factor(sweep, self.scatter_work()) {
            ResolvedReductionStrategy::ParallelReduction
        } else if allow_inner_parallelism && quotient_at_most_six(sweep, self.scatter_work()) {
            ResolvedReductionStrategy::ParallelReduction
        } else if quotient_at_least_four(self.total_scatter_dofs as nat, unknowns) {
            ResolvedReductionStrategy::ParallelReduction
        } else {
            ResolvedReductionStrategy::AtomicScatter
        }
    }

    /// The backend that a configured strategy stands for.
    pub open spec fn spec_resolve_strategy(
        self,
        configured: ReductionStrategy,
        threads: nat,
        allow_inner_parallelism: bool,
    ) -> ResolvedReductionStrategy {
        match configured {
            ReductionStrategy::AtomicScatter => ResolvedReductionStrategy::AtomicScatter,
            ReductionStrategy::ParallelReduction => ResolvedReductionStrategy::ParallelReduction,
            ReductionStrategy::Auto => self.spec_auto_strategy(threads, allow_inner_parallelism),
        }
    }

    /// `plan` is what an apply on `threads` threads does.
    pub open spec fn is_plan(
        self,
        configured: ReductionStrategy,
        threads: nat,
        plan: ReductionPlan,
    ) -> bool {
        &&& plan.allow_inner_parallelism == self.spec_allow_inner_parallelism(threads)
        &&& plan.strategy == self.spec_resolve_strategy(
            configured,
            threads,
            plan.allow_inner_parallelism,
        )
    }

    /// Decide what an apply on `threads` threads does.
    pub fn reduction_plan(self, configured: ReductionStrategy, threads: usize) -> (plan:
        ReductionPlan)
        ensures
            self.is_plan(configured, threads as nat, plan),
    {
        let allow_inner_parallelism: bool = self.allow_inner_parallelism(threads);
        let strategy = self.resolve_strategy(configured, threads, allow_inner_parallelism);
        ReductionPlan { strategy, allow_inner_parallelism }
    }

    /// Whether local solvers may open nested parallel regions.
    pub fn allow_inner_parallelism(self, threads: usize) -> (allow: bool)
        ensures
            allow == self.spec_allow_inner_parallelism(threads as nat),
    {
        if self.max_inner_parallel_work < MIN_INNER_PARALLEL_WORK {
            return false;
        }
        below_capacity_target(
            self.total_inner_parallel_work,
            self.max_inner_parallel_work,
            threads,
        )
    }

    /// The backend that a configured strategy stands for.
    pub fn resolve_strategy(
        self,
        configured: ReductionStrategy,
        threads: usize,
        allow_inner_parallelism: bool,
    ) -> (strategy: ResolvedReductionStrategy)
        ensures
            strategy == self.spec_resolve_strategy(
                configured,
                threads as nat,
                allow_inner_parallelism,
            ),
    {
        match configured {
            ReductionStrategy::AtomicScatter => ResolvedReductionStrategy::AtomicScatter,
            ReductionStrategy::ParallelReduction => ResolvedReductionStrategy::ParallelReduction,
            ReductionStrategy::Auto => self.pick_auto_strategy(threads, allow_inner_parallelism),
        }
    }

    /// The backend that `Auto` stands for.
    pub fn pick_auto_strategy(self, threads: usize, allow_inner_parallelism: bool) -> (strategy:
        ResolvedReductionStrategy)
        ensures
            strategy == self.spec_auto_strategy(threads as nat, allow_inner_parallelism),
    {
        let sweep: usize = self.sweep_entries(threads);
        let scatter_work: usize = if self.total_scatter_dofs < 1 {
            1
        } else {
            self.total_scatter_dofs
        };
        if at_most_sweep_factor(sweep, scatter_work) {
            return ResolvedReductionStrategy::ParallelReduction;
        }
        if allow_inner_parallelism && at_most_six(sweep, scatter_work) {
            return ResolvedReductionStrategy::ParallelReduction;
        }
        let unknowns: usize = if self.n_dofs < 1 {
            1
        } else {
            self.n_dofs
        };
        if at_least_four(self.total_scatter_dofs, unknowns) {
            return ResolvedReductionStrategy::ParallelReduction;
        }
        ResolvedReductionStrategy::AtomicScatter
    }

    fn sweep_entries(self, threads: usize) -> (entries: usize)
        ensures
            entries == self.reduction_sweep(threads as nat),
    {
        let workers: usize = if threads < self.n_subdomains {
            threads
        } else {
            self.n_subdomains
        };
        let buffers: usize = if workers < 1 {
            1
        } else {
            workers
        };
        match buffers.checked_mul(self.n_dofs) {
            Some(entries) => entries,
            None => usize::MAX,
        }
    }
}

/// For counts that a machine can hold, the sweep factor compares as the exact fraction 11/10.
pub proof fn law_sweep_factor_is_eleven_tenths(a: nat, b: nat)
    requires
        a < 0x20_0000_0000_0000,
        b < 0x1_0000_0000_0000,
    ensures
        quotient_at_most_sweep_factor(a, b) <==> 10 * a <= 11 * b,
{
    crate::binary64::law_small_numbers_are_exact(a);
    crate::binary64::law_small_numbers_are_exact(b);
    let left = a * 0x20_0000_0000_0000;
    let right = b * 9_907_919_180_215_093;
    assert(10 * right == 11 * (b * 0x20_0000_0000_0000) + 18 * b);
    if 10 * a <= 11 * b {
        assert(10 * left <= 11 * (b * 0x20_0000_0000_0000));
    } else {
        assert(10 * a >= 11 * b + 1);
        assert(10 * left >= 11 * (b * 0x20_0000_0000_0000) + 0x20_0000_0000_0000);
    }
}

/// For counts that a machine can hold, the overlap threshold compares as the exact number 4.
pub proof fn law_overlap_threshold_is_four(a: nat, b: nat)
    requires
        a < 0x20_0000_0000_0000,
        b < 0x1_0000_0000_0000,
    ensures
        quotient_at_least_four(a, b) <==> a >= 4 * b,
{
    crate::binary64::law_small_numbers_are_exact(a);
    crate::binary64::law_small_numbers_are_exact(b);
    assert(b * 18_014_398_509_481_983 == 4 * (b * 0x10_0000_0000_0000) - b);
    if a < 4 * b {
        assert(a * 0x10_0000_0000_0000 <= 4 * (b * 0x10_0000_0000_0000) - 0x10_0000_0000_0000);
    }
}

/// For counts that a machine can hold, the wider sweep factor compares as the exact number 6.
pub proof fn law_inner_sweep_factor_is_six(a: nat, b: nat)
    requires
        a < 0x20_0000_0000_0000,
        b < 0x1_0000_0000_0000,
    ensures
        quotient_at_most_six(a, b) <==> a <= 6 * b,
{
    crate::binary64::law_small_numbers_are_exact(a);
    crate::binary64::law_small_numbers_are_exact(b);
    assert(b * 13_510_798_882_111_489 == 6 * (b * 0x8_0000_0000_0000) + b);
    if a > 6 * b {
        assert(a * 0x8_0000_0000_0000 >= 6 * (b * 0x8_0000_0000_0000) + 0x8_0000_0000_0000);
    }
}

proof fn lemma_normalizing_scale(m: nat)
    requires
        0 < m < 0x20_0000_0000_0000,
    ensures
        m * normalizing_scale(m) >= 0x10_0000_0000_0000,
        normalizing_scale(m) >= 1,
    decreases 0x20_0000_0000_0000 - m,
{
    if m < 0x10_0000_0000_0000 {
        lemma_normalizing_scale(2 * m);
        let s = normalizing_scale(2 * m);
        assert(m * (2 * s) == 2 * m * s) by (nonlinear_arith);
    } else {
        assert(m * 1 == m) by (nonlinear_arith);
    }
}

/// For counts that a machine can hold, the capacity target compares as exactly
/// three quarters of the threads.
pub proof fn law_capacity_target_is_three_quarters(total: nat, max: nat, threads: nat)
    requires
        total < 0x20_0000_0000_0000,
        0 < max,
        3 * threads * max < 0x20_0000_0000_0000,
        threads < 0x1_0000_0000_0000,
    ensures
        capacity_below_target(total, max, threads) <==> 4 * total < 3 * threads * max,
{
    if threads > 0 {
        let m = 3 * threads;
        let s = normalizing_scale(m);
        lemma_normalizing_scale(m);
        let product = m * max;
        assert(max <= product) by (nonlinear_arith)
            requires
                product == m * max,
                m >= 1,
        ;
        crate::binary64::law_small_numbers_are_exact(total);
        crate::binary64::law_small_numbers_are_exact(max);
        // max < 2 * s, since m * max < 2 * m * s
        assert(max < 2 * s) by (nonlinear_arith)
            requires
                m * max < 0x20_0000_0000_0000,
                m * s >= 0x10_0000_0000_0000,
                m > 0,
        ;
        assert(total * (8 * s) == 2 * s * (4 * total)) by (nonlinear_arith);
        assert(max * (6 * threads * s - 1) == 2 * s * product - max) by (nonlinear_arith)
            requires
                product == 3 * threads * max,
        ;
        let gap = product - 4 * total;
        assert(2 * s * (4 * total) < 2 * s * product - max <==> 2 * s * gap > max)
            by (nonlinear_arith)
            requires
                gap == product - 4 * total,
        ;
        if gap >= 1 {
            assert(2 * s * gap >= 2 * s) by (nonlinear_arith)
                requires
                    gap >= 1,
                    s >= 1,
            ;
        } else {
            assert(2 * s * gap <= 0) by (nonlinear_arith)
                requires
                    gap <= 0,
                    s >= 1,
            ;
        }
    } else {
        assert(3 * threads * max == 0) by (nonlinear_arith)
            requires
                threads == 0,
        ;
    }
}

proof fn lemma_max_within_sum(numbers: Seq<usize>)
    ensures
        max_of(numbers) <= sum_of(numbers),
    decreases numbers.len(),
{
    if numbers.len() > 0 {
        lemma_max_within_sum(numbers.drop_last());
    }
}

/// A configured backend is the one that runs, on any number of threads; the
/// user-facing name of a backend is never `Auto`. Whether local solvers may
/// open nested parallel regions does not depend on the configured strategy.
pub proof fn law_plan_follows_configuration(
    scheduler: AdditiveScheduler,
    configured: ReductionStrategy,
    other: ReductionStrategy,
    threads: nat,
    plan: ReductionPlan,
    other_plan: ReductionPlan,
)
    requires
        scheduler.is_plan(configured, threads, plan),
        scheduler.is_plan(other, threads, other_plan),
    ensures
        configured != ReductionStrategy::Auto ==> plan.strategy.spec_as_public() == configured,
        plan.strategy.spec_as_public() != ReductionStrategy::Auto,
        plan.allow_inner_parallelism == other_plan.allow_inner_parallelism,
{
}

/// Nested parallel regions are never allowed on a single thread.
pub proof fn law_one_thread_allows_no_inner_parallelism(
    scheduler: AdditiveScheduler,
    configured: ReductionStrategy,
    threads: nat,
    plan: ReductionPlan,
)
    requires
        scheduler.max_inner_parallel_work <= scheduler.total_inner_parallel_work,
        threads <= 1,
        scheduler.is_plan(configured, threads, plan),
    ensures
        !plan.allow_inner_parallelism,
{
    if threads == 1 {
        let scale = normalizing_scale(3);
        let total = crate::binary64::as_binary64(scheduler.total_inner_parallel_work as nat);
        let max = crate::binary64::as_binary64(scheduler.max_inner_parallel_work as nat);
        crate::binary64::law_conversion_is_monotone(
            scheduler.max_inner_parallel_work as nat,
            scheduler.total_inner_parallel_work as nat,
        );
        lemma_normalizing_scale(3);
        assert(total * (8 * scale) >= max * (6 * scale - 1)) by (nonlinear_arith)
            requires
                total >= max,
                scale >= 1,
        ;
        assert(3 * threads == 3);
        assert(6 * threads * scale == 6 * scale);
    }
}

/// Nested parallel regions that are allowed stay allowed on more threads.
pub proof fn law_inner_parallelism_grows_with_threads(
    scheduler: AdditiveScheduler,
    fewer: nat,
    more: nat,
)
    requires
        fewer <= more,
        scheduler.spec_allow_inner_parallelism(fewer),
    ensures
        scheduler.spec_allow_inner_parallelism(more),
{
    if fewer < more && more < 0x1_0000_0000_0000 {
        let total = crate::binary64::as_binary64(scheduler.total_inner_parallel_work as nat);
        let max = crate::binary64::as_binary64(scheduler.max_inner_parallel_work as nat);
        let s = normalizing_scale(3 * fewer);
        let t = normalizing_scale(3 * more);
        lemma_normalizing_scale(3 * fewer);
        lemma_normalizing_scale(3 * more);
        crate::binary64::law_small_numbers_are_exact(1);
        crate::binary64::law_conversion_is_monotone(1, scheduler.max_inner_parallel_work as nat);
        assert(8 * total < 6 * (max * fewer)) by (nonlinear_arith)
            requires
                total * (8 * s) < max * (6 * fewer * s - 1),
                s >= 1,
        ;
        assert(6 * (max * fewer) + 6 * max <= 6 * (max * more)) by (nonlinear_arith)
            requires
                fewer + 1 <= more,
        ;
        assert(total * (8 * t) < max * (6 * more * t - 1)) by (nonlinear_arith)
            requires
                8 * total + 6 * max < 6 * (max * more),
                t >= 1,
        ;
    }
}

proof fn lemma_sweep_grows_with_threads(scheduler: AdditiveScheduler, fewer: nat, more: nat)
    requires
        fewer <= more,
    ensures
        scheduler.reduction_sweep(fewer) <= scheduler.reduction_sweep(more),
{
    let n = scheduler.n_dofs as nat;
    assert forall|a: nat, b: nat| a <= b implies #[trigger] (a * n) <= #[trigger] (b * n) by {
        assert(a * n <= b * n) by (nonlinear_arith)
            requires
                a <= b,
        ;
    }
}

/// Where `Auto` stands for the atomic backend, it does so on more threads too.
pub proof fn law_atomic_choice_persists(
    scheduler: AdditiveScheduler,
    fewer: nat,
    more: nat,
    allow_inner_parallelism: bool,
)
    requires
        fewer <= more,
        scheduler.spec_auto_strategy(fewer, allow_inner_parallelism)
            == ResolvedReductionStrategy::AtomicScatter,
    ensures
        scheduler.spec_auto_strategy(more, allow_inner_parallelism)
            == ResolvedReductionStrategy::AtomicScatter,
{
    lemma_sweep_grows_with_threads(scheduler, fewer, more);
    crate::binary64::law_conversion_is_monotone(
        scheduler.reduction_sweep(fewer),
        scheduler.reduction_sweep(more),
    );
}

/// Where `Auto` stands for the parallel reduction without nested parallel
/// regions, it does so with them too.
pub proof fn law_inner_parallelism_favours_reduction(scheduler: AdditiveScheduler, threads: nat)
    requires
        scheduler.spec_auto_strategy(threads, false)
            == ResolvedReductionStrategy::ParallelReduction,
    ensures
        scheduler.spec_auto_strategy(threads, true) == ResolvedReductionStrategy::ParallelReduction,
{
}

/// Where subdomains overlap so much that they hold four times the unknowns or
/// more, `Auto` stands for the parallel reduction.
pub proof fn law_high_overlap_favours_reduction(
    scheduler: AdditiveScheduler,
    threads: nat,
    allow_inner_parallelism: bool,
)
    requires
        scheduler.total_scatter_dofs >= 4 * scheduler.n_dofs,
        scheduler.total_scatter_dofs >= 4,
    ensures
        scheduler.spec_auto_strategy(threads, allow_inner_parallelism)
            == ResolvedReductionStrategy::ParallelReduction,
{
    let unknowns: nat = if scheduler.n_dofs < 1 {
        1
    } else {
        scheduler.n_dofs as nat
    };
    crate::binary64::law_conversion_doubles(unknowns);
    crate::binary64::law_conversion_doubles(2 * unknowns);
    crate::binary64::law_conversion_is_monotone(
        2 * (2 * unknowns),
        scheduler.total_scatter_dofs as nat,
    );
}

/// What `Auto` stands for, in whole numbers. With `b` buffers, one per active worker
/// and at least one, it is the parallel reduction exactly if the buffers hold at
/// most 1.1 times the entries that are scattered, or with nested parallel regions
/// at most 6 times, or if at least four times the unknowns are scattered. This is
/// for counts that a machine can hold.
pub proof fn law_auto_choice_in_whole_numbers(
    scheduler: AdditiveScheduler,
    threads: nat,
    allow_inner_parallelism: bool,
    b: nat,
)
    requires
        scheduler.total_scatter_dofs < 0x1_0000_0000_0000,
        scheduler.n_dofs < 0x1_0000_0000_0000,
        b >= 1,
        b * scheduler.n_dofs < 0x20_0000_0000_0000,
        b * scheduler.n_dofs <= usize::MAX,
        b == 1 ==> threads <= 1 || scheduler.n_subdomains <= 1,
        b > 1 ==> b <= threads && b <= scheduler.n_subdomains && (b == threads || b
            == scheduler.n_subdomains),
    ensures
        ({
            let scattered = scheduler.total_scatter_dofs as int;
            let work = if scattered < 1 {
                1
            } else {
                scattered
            };
            let unknowns = if scheduler.n_dofs < 1 {
                1
            } else {
                scheduler.n_dofs as int
            };
            let swept = b * scheduler.n_dofs;
            scheduler.spec_auto_strategy(threads, allow_inner_parallelism)
                == ResolvedReductionStrategy::ParallelReduction <==> 10 * swept <= 11 * work || (
            allow_inner_parallelism && swept <= 6 * work) || scattered >= 4 * unknowns
        }),
{
    let sweep = scheduler.reduction_sweep(threads);
    assert(sweep == b * scheduler.n_dofs) by {
        assert(1 * scheduler.n_dofs == scheduler.n_dofs) by (nonlinear_arith);
    }
    let unknowns: nat = if scheduler.n_dofs < 1 {
        1
    } else {
        scheduler.n_dofs as nat
    };
    law_sweep_factor_is_eleven_tenths(sweep, scheduler.scatter_work());
    law_inner_sweep_factor_is_six(sweep, scheduler.scatter_work());
    law_overlap_threshold_is_four(scheduler.total_scatter_dofs as nat, unknowns);
}

/// When nested parallel regions are allowed, in whole numbers: exactly if the
/// largest subdomain is worth it and all the work together is below three quarters
/// of what the threads could do on subdomains of the largest size. This is for
/// counts that a machine can hold.
pub proof fn law_inner_parallelism_in_whole_numbers(scheduler: AdditiveScheduler, threads: nat)
    requires
        scheduler.total_inner_parallel_work < 0x20_0000_0000_0000,
        3 * threads * scheduler.max_inner_parallel_work < 0x20_0000_0000_0000,
        threads < 0x1_0000_0000_0000,
    ensures
        scheduler.spec_allow_inner_parallelism(threads) <==> scheduler.max_inner_parallel_work
            >= 200_000 && 4 * scheduler.total_inner_parallel_work < 3 * threads
            * scheduler.max_inner_parallel_work,
{
    if scheduler.max_inner_parallel_work >= 200_000 {
        law_capacity_target_is_three_quarters(
            scheduler.total_inner_parallel_work as nat,
            scheduler.max_inner_parallel_work as nat,
            threads,
        );
    }
}

/// The scheduling metrics add up: one more number adds to the sum and can only
/// raise the largest, which is one of the numbers.
pub proof fn law_metrics_add_up(numbers: Seq<usize>, more: usize)
    ensures
        sum_of(Seq::empty()) == 0,
        sum_of(numbers.push(more)) == sum_of(numbers) + more,
        max_of(numbers.push(more)) >= more,
        max_of(numbers.push(more)) >= max_of(numbers),
        max_of(numbers.push(more)) == more || max_of(numbers.push(more)) == max_of(numbers),
{
    assert(numbers.push(more).drop_last() =~= numbers);
}

/// The scheduling metrics are those of the subdomains: their number, the unknowns
/// that they list, and the work that their solvers estimate.
pub proof fn law_scheduler_knows_its_subdomains<T, S: LocalSolver<T>>(
    entries: Seq<SubdomainEntry<S>>,
    n_dofs: nat,
    scheduler: AdditiveScheduler,
    d: int,
)
    requires
        crate::schwarz_precond::additive::is_scheduler_of::<T, S>(entries, n_dofs, scheduler),
        0 <= d < entries.len(),
        entries[d].spec_core().indices().len() <= usize::MAX,
    ensures
        scheduler.n_subdomains == entries.len(),
        scheduler.n_dofs == n_dofs,
        scatter_lengths(entries)[d] == entries[d].spec_core().indices().len(),
        scheduler.total_scatter_dofs == if sum_of(scatter_lengths(entries)) > usize::MAX {
            usize::MAX as nat
        } else {
            sum_of(scatter_lengths(entries))
        },
        exists|work: Seq<usize>|
            #[trigger] sum_of(work) >= scheduler.total_inner_parallel_work && work.len()
                == entries.len() && call_ensures(
                <S as LocalSolver<T>>::inner_parallelism_work_estimate,
                (&entries[d].spec_solver(),),
                work[d],
            ) && scheduler.max_inner_parallel_work == max_of(work)
                && scheduler.total_inner_parallel_work == if sum_of(work) > usize::MAX {
                usize::MAX as nat
            } else {
                sum_of(work)
            },
{
    let work = choose|work: Seq<usize>| #[trigger]
        are_estimates::<T, S>(entries, work) && scheduler.total_inner_parallel_work == saturated(
            sum_of(work),
        ) && scheduler.max_inner_parallel_work == max_of(work);
    assert(sum_of(work) >= scheduler.total_inner_parallel_work);
}

} // verus!
