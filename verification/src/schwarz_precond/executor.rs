//! Scratch buffers of the additive Schwarz apply and the rules for reusing them.
//!
//! Two buffer layouts exist, matching the two reduction strategies:
//!
//! - [`SchwarzBuffers::Atomic`] - one shared accumulator
//! - [`SchwarzBuffers::Reduction`] - per-worker [`AdditiveSweepBuffers`], each
//!   with a private accumulator plus local-solve scratch
//!
//! Whoever runs the subdomains in parallel keeps a [`BufferPool`] behind a lock
//! and a stack of [`AdditiveSweepBuffers`] per worker.

use vstd::prelude::*;

use crate::arithmetic::Arithmetic;
use crate::kernels::filled;
use crate::operator::design_operator::fill_zero;
use crate::parallel::par_map;
use crate::schwarz_precond::error::SolveError;
use crate::schwarz_precond::planning::ResolvedReductionStrategy;

verus! {

/// Vectors that a local solve works in.
#[derive(Debug)]
pub struct LocalSolveScratch<T> {
    /// Right-hand side.
    pub r_scratch: Vec<T>,
    /// Solution.
    pub z_scratch: Vec<T>,
}

impl<T: Copy> LocalSolveScratch<T> {
    /// Vectors of `max_scratch_size` zeros.
    pub fn new(max_scratch_size: usize, zero: T) -> (scratch: Self)
        ensures
            scratch.fits(max_scratch_size as nat),
            forall|i: int| 0 <= i < max_scratch_size ==> #[trigger] scratch.r_scratch@[i] == zero,
            forall|i: int| 0 <= i < max_scratch_size ==> #[trigger] scratch.z_scratch@[i] == zero,
    {
        LocalSolveScratch {
            r_scratch: filled(max_scratch_size, zero),
            z_scratch: filled(max_scratch_size, zero),
        }
    }
}

impl<T> LocalSolveScratch<T> {
    /// Both vectors have this length.
    pub open spec fn fits(self, max_scratch_size: nat) -> bool {
        self.r_scratch@.len() == max_scratch_size && self.z_scratch@.len() == max_scratch_size
    }
}

/// Task-local scratch for the parallel-reduction path.
#[derive(Debug)]
pub struct AdditiveSweepBuffers<T> {
    /// Private accumulator over all unknowns.
    pub global_accum: Vec<T>,
    /// Local-solve scratch.
    pub scratch: LocalSolveScratch<T>,
}

/// Every entry is `zero`.
pub open spec fn all_equal<T>(v: Seq<T>, zero: T) -> bool {
    forall|i: int| 0 <= i < v.len() ==> #[trigger] v[i] == zero
}

impl<T> AdditiveSweepBuffers<T> {
    /// The vectors have the lengths that the problem needs.
    pub open spec fn fits(self, n_dofs: nat, max_scratch_size: nat) -> bool {
        self.global_accum@.len() == n_dofs && self.scratch.fits(max_scratch_size)
    }

    /// Nothing is accumulated.
    pub open spec fn is_clean(self, zero: T) -> bool {
        all_equal(self.global_accum@, zero)
    }
}

impl<T: Copy> AdditiveSweepBuffers<T> {
    /// A zeroed accumulator and scratch.
    pub fn new(n_dofs: usize, max_scratch_size: usize, zero: T) -> (buffers: Self)
        ensures
            buffers.fits(n_dofs as nat, max_scratch_size as nat),
            buffers.is_clean(zero),
    {
        AdditiveSweepBuffers {
            global_accum: filled(n_dofs, zero),
            scratch: LocalSolveScratch::new(max_scratch_size, zero),
        }
    }
}

/// Pooled buffers that vary by reduction strategy.
#[derive(Debug)]
pub enum SchwarzBuffers<T> {
    /// Shared accumulator.
    Atomic {
        /// One entry per unknown.
        accum: Vec<T>,
    },
    /// Reusable task-local buffers for parallel reduction.
    Reduction {
        /// Buffers not currently held by a worker.
        pool: Vec<AdditiveSweepBuffers<T>>,
    },
}

impl<T> SchwarzBuffers<T> {
    /// The strategy these buffers are for.
    pub open spec fn spec_strategy(self) -> ResolvedReductionStrategy {
        match self {
            SchwarzBuffers::Atomic { .. } => ResolvedReductionStrategy::AtomicScatter,
            SchwarzBuffers::Reduction { .. } => ResolvedReductionStrategy::ParallelReduction,
        }
    }

    /// The vectors have the lengths that the problem needs.
    pub open spec fn fits(self, n_dofs: nat, max_scratch_size: nat) -> bool {
        match self {
            SchwarzBuffers::Atomic { accum } => accum@.len() == n_dofs,
            SchwarzBuffers::Reduction { pool } => forall|b: int|
                0 <= b < pool@.len() ==> (#[trigger] pool@[b]).fits(n_dofs, max_scratch_size),
        }
    }

    /// Nothing is accumulated.
    pub open spec fn is_clean(self, zero: T) -> bool {
        match self {
            SchwarzBuffers::Atomic { accum } => all_equal(accum@, zero),
            SchwarzBuffers::Reduction { pool } => forall|b: int|
                0 <= b < pool@.len() ==> (#[trigger] pool@[b]).is_clean(zero),
        }
    }

    /// The strategy these buffers are for.
    pub fn strategy(&self) -> (strategy: ResolvedReductionStrategy)
        ensures
            strategy == self.spec_strategy(),
    {
        match self {
            SchwarzBuffers::Atomic { .. } => ResolvedReductionStrategy::AtomicScatter,
            SchwarzBuffers::Reduction { .. } => ResolvedReductionStrategy::ParallelReduction,
        }
    }
}

impl<T: Copy> SchwarzBuffers<T> {
    /// Fresh buffers for a strategy; parallel reduction starts with one.
    pub fn new(
        strategy: ResolvedReductionStrategy,
        n_dofs: usize,
        max_scratch_size: usize,
        zero: T,
    ) -> (buffers: Self)
        ensures
            buffers.spec_strategy() == strategy,
            buffers.fits(n_dofs as nat, max_scratch_size as nat),
            buffers.is_clean(zero),
            buffers matches SchwarzBuffers::Reduction { pool } ==> pool@.len() == 1,
    {
        match strategy {
            ResolvedReductionStrategy::AtomicScatter => SchwarzBuffers::Atomic {
                accum: filled(n_dofs, zero),
            },
            ResolvedReductionStrategy::ParallelReduction => {
                let mut pool: Vec<AdditiveSweepBuffers<T>> = Vec::new();
                pool.push(AdditiveSweepBuffers::new(n_dofs, max_scratch_size, zero));
                SchwarzBuffers::Reduction { pool }
            },
        }
    }
}

/// Most buffers that the pool keeps.
pub const MAX_POOL_SIZE: usize = 4;

/// Buffers kept between applies.
///
/// Everything in the pool is clean, so the next apply never inherits values
/// from an earlier one.
#[derive(Debug)]
pub struct BufferPool<T> {
    n_dofs: usize,
    max_scratch_size: usize,
    zero: T,
    inner: Vec<SchwarzBuffers<T>>,
}

impl<T> BufferPool<T> {
    /// Number of unknowns.
    pub closed spec fn spec_n_dofs(self) -> nat {
        self.n_dofs as nat
    }

    /// Length of the local-solve scratch vectors.
    pub closed spec fn spec_max_scratch_size(self) -> nat {
        self.max_scratch_size as nat
    }

    /// The value of an empty accumulator entry.
    pub closed spec fn spec_zero(self) -> T {
        self.zero
    }

    /// The pooled buffers.
    pub closed spec fn pooled(self) -> Seq<SchwarzBuffers<T>> {
        self.inner@
    }

    /// `buffers` may be pooled: right lengths, nothing accumulated.
    pub open spec fn accepts(self, buffers: SchwarzBuffers<T>) -> bool {
        buffers.fits(self.spec_n_dofs(), self.spec_max_scratch_size()) && buffers.is_clean(
            self.spec_zero(),
        )
    }

    /// The pool is not overfull, and all it holds is clean.
    pub open spec fn wf(self) -> bool {
        &&& self.pooled().len() <= MAX_POOL_SIZE
        &&& forall|i: int| 0 <= i < self.pooled().len() ==> self.accepts(#[trigger] self.pooled()[i])
    }

    /// Same sizes and zero.
    pub open spec fn same_problem(self, other: Self) -> bool {
        &&& self.spec_n_dofs() == other.spec_n_dofs()
        &&& self.spec_max_scratch_size() == other.spec_max_scratch_size()
        &&& self.spec_zero() == other.spec_zero()
    }
}

/// `i` is the first pooled buffer for `strategy`.
pub open spec fn is_first_for<T>(
    pooled: Seq<SchwarzBuffers<T>>,
    strategy: ResolvedReductionStrategy,
    i: int,
) -> bool {
    &&& 0 <= i < pooled.len()
    &&& pooled[i].spec_strategy() == strategy
    &&& forall|j: int| 0 <= j < i ==> (#[trigger] pooled[j]).spec_strategy() != strategy
}

/// Whether `pooled` holds buffers for `strategy`.
pub open spec fn holds_strategy<T>(
    pooled: Seq<SchwarzBuffers<T>>,
    strategy: ResolvedReductionStrategy,
) -> bool {
    exists|i: int| is_first_for(pooled, strategy, i)
}

/// `rest` is `pooled` without its first buffers for `strategy`, if it has any;
/// the last ones move into their place.
pub open spec fn is_rest<T>(
    pooled: Seq<SchwarzBuffers<T>>,
    strategy: ResolvedReductionStrategy,
    rest: Seq<SchwarzBuffers<T>>,
) -> bool {
    if holds_strategy(pooled, strategy) {
        exists|i: int| #[trigger]
            is_first_for(pooled, strategy, i) && rest == pooled.update(
                i,
                pooled.last(),
            ).drop_last()
    } else {
        rest == pooled
    }
}

/// What an apply under `strategy` makes of a pool: it takes buffers out, and
/// returns them last if it succeeded and the pool has room.
pub open spec fn is_pool_after<T>(
    before: Seq<SchwarzBuffers<T>>,
    strategy: ResolvedReductionStrategy,
    succeeded: bool,
    after: Seq<SchwarzBuffers<T>>,
) -> bool {
    exists|rest: Seq<SchwarzBuffers<T>>| #[trigger]
        is_rest(before, strategy, rest) && if succeeded && rest.len() < MAX_POOL_SIZE {
            &&& after.len() == rest.len() + 1
            &&& after.drop_last() == rest
            &&& after.last().spec_strategy() == strategy
        } else {
            after == rest
        }
}

/// A successful apply keeps the number of pooled buffers if it found some for
/// its strategy, and otherwise adds one up to the limit. A failed apply drops
/// the buffers that it took.
pub proof fn law_pool_count<T>(
    before: Seq<SchwarzBuffers<T>>,
    strategy: ResolvedReductionStrategy,
    succeeded: bool,
    after: Seq<SchwarzBuffers<T>>,
)
    requires
        before.len() <= MAX_POOL_SIZE,
        is_pool_after(before, strategy, succeeded, after),
    ensures
        after.len() == if holds_strategy(before, strategy) {
            if succeeded {
                before.len() as int
            } else {
                before.len() - 1
            }
        } else if succeeded && before.len() < MAX_POOL_SIZE {
            1 + before.len() as int
        } else {
            before.len() as int
        },
{
}

impl<T: Copy> BufferPool<T> {
    /// An empty pool.
    pub fn new(n_dofs: usize, max_scratch_size: usize, zero: T) -> (pool: Self)
        ensures
            pool.wf(),
            pool.pooled().len() == 0,
            pool.spec_n_dofs() == n_dofs,
            pool.spec_max_scratch_size() == max_scratch_size,
            pool.spec_zero() == zero,
    {
        BufferPool { n_dofs, max_scratch_size, zero, inner: Vec::new() }
    }

    /// Number of unknowns.
    pub fn n_dofs(&self) -> (n: usize)
        ensures
            n == self.spec_n_dofs(),
    {
        self.n_dofs
    }

    /// Length of the local-solve scratch vectors.
    pub fn max_scratch_size(&self) -> (n: usize)
        ensures
            n == self.spec_max_scratch_size(),
    {
        self.max_scratch_size
    }

    /// Number of pooled buffers.
    pub fn n_pooled(&self) -> (n: usize)
        ensures
            n == self.pooled().len(),
    {
        self.inner.len()
    }

    /// Take buffers for a strategy out of the pool, or make fresh ones.
    pub fn take(&mut self, strategy: ResolvedReductionStrategy) -> (buffers: SchwarzBuffers<T>)
        requires
            old(self).wf(),
        ensures
            final(self).wf(),
            final(self).same_problem(*old(self)),
            buffers.spec_strategy() == strategy,
            final(self).accepts(buffers),
            ({
                let pooled = old(self).pooled();
                if holds_strategy(pooled, strategy) {
                    exists|i: int| #[trigger]
                        is_first_for(pooled, strategy, i) && buffers == pooled[i]
                            && final(self).pooled() == pooled.update(i, pooled.last()).drop_last()
                } else {
                    final(self).pooled() == pooled
                }
            }),
    {
        let ghost pooled = self.pooled();
        let n: usize = self.inner.len();
        let mut i: usize = 0;
        while i < n
            invariant
                i <= n == pooled.len(),
                self.wf(),
                self.same_problem(*old(self)),
                self.pooled() == pooled,
                old(self).pooled() == pooled,
                self.inner@ == pooled,
                old(self).wf(),
                forall|j: int| 0 <= j < i ==> (#[trigger] pooled[j]).spec_strategy() != strategy,
            decreases n - i,
        {
            if self.inner[i].strategy() == strategy {
                assert(is_first_for(pooled, strategy, i as int));
                assert(self.accepts(self.pooled()[i as int]));
                let buffers = self.inner.swap_remove(i);
                proof {
                    assert forall|k: int| 0 <= k < self.pooled().len() implies self.accepts(
                        #[trigger] self.pooled()[k],
                    ) by {
                        assert(old(self).accepts(pooled[k]));
                        assert(old(self).accepts(pooled[pooled.len() - 1]));
                    }
                }
                return buffers;
            }
            i = i + 1;
        }
        SchwarzBuffers::new(strategy, self.n_dofs, self.max_scratch_size, self.zero)
    }

    /// Return buffers to the pool.
    ///
    /// After a failed apply the buffers may hold partial sums, so they are
    /// dropped; so are buffers that a full pool has no room for. Returning
    /// never fails, so it cannot mask the apply's own result.
    pub fn put(&mut self, buffers: SchwarzBuffers<T>, apply_result: &Result<(), SolveError>)
        requires
            old(self).wf(),
            apply_result is Ok ==> old(self).accepts(buffers),
        ensures
            final(self).wf(),
            final(self).same_problem(*old(self)),
            final(self).pooled() == if apply_result is Ok && old(self).pooled().len()
                < MAX_POOL_SIZE {
                old(self).pooled().push(buffers)
            } else {
                old(self).pooled()
            },
    {
        if apply_result.is_err() {
            return ;
        }
        if self.inner.len() < MAX_POOL_SIZE {
            self.inner.push(buffers);
            proof {
                assert forall|k: int| 0 <= k < self.pooled().len() implies self.accepts(
                    #[trigger] self.pooled()[k],
                ) by {
                    if k < old(self).pooled().len() {
                        assert(old(self).accepts(old(self).pooled()[k]));
                    }
                }
            }
        }
    }
}

// ---------------------------------------------------------------------------
// Worker buffers of the parallel reduction
// ---------------------------------------------------------------------------

/// Take one buffer from the shared pool, or make a fresh one.
pub fn take_or_alloc<T: Copy>(
    shared: &mut Vec<AdditiveSweepBuffers<T>>,
    n_dofs: usize,
    max_scratch_size: usize,
    zero: T,
) -> (buffers: AdditiveSweepBuffers<T>)
    ensures
        if old(shared)@.len() > 0 {
            buffers == old(shared)@.last() && final(shared)@ == old(shared)@.drop_last()
        } else {
            &&& final(shared)@ == old(shared)@
            &&& buffers.fits(n_dofs as nat, max_scratch_size as nat)
            &&& buffers.is_clean(zero)
        },
{
    match shared.pop() {
        Some(buffers) => buffers,
        None => AdditiveSweepBuffers::new(n_dofs, max_scratch_size, zero),
    }
}

/// Column `i` of the accumulators, in buffer order.
pub open spec fn column_of<T>(buffers: Seq<AdditiveSweepBuffers<T>>, i: int) -> Seq<T> {
    Seq::new(buffers.len(), |b: int| buffers[b].global_accum@[i])
}

/// `z[i]` is the sum of column `i` from zero, in buffer order.
pub open spec fn is_reduced<T, A: Arithmetic<T>>(
    ops: A,
    buffers: Seq<AdditiveSweepBuffers<T>>,
    z: Seq<T>,
) -> bool {
    forall|i: int| 0 <= i < z.len() ==> is_column_sum(ops, buffers, i, #[trigger] z[i])
}

/// `sum` is the sum of column `i` from zero, in buffer order.
pub open spec fn is_column_sum<T, A: Arithmetic<T>>(
    ops: A,
    buffers: Seq<AdditiveSweepBuffers<T>>,
    i: int,
    sum: T,
) -> bool {
    exists|zero: T| #[trigger]
        crate::arithmetic::zero_gives(ops, zero) && crate::arithmetic::sums_to(
            ops,
            zero,
            column_of(buffers, i),
            sum,
        )
}

fn column_sum<T: Copy, A: Arithmetic<T>>(
    buffers: &Vec<AdditiveSweepBuffers<T>>,
    i: usize,
    ops: &A,
) -> (sum: T)
    requires
        forall|b: int|
            0 <= b < buffers@.len() ==> i < (#[trigger] buffers@[b]).global_accum@.len(),
    ensures
        is_column_sum(*ops, buffers@, i as int, sum),
{
    let zero: T = ops.zero();
    let mut sum: T = zero;
    let n: usize = buffers.len();
    let ghost column = column_of(buffers@, i as int);
    let mut b: usize = 0;
    proof {
        assert(crate::arithmetic::zero_gives(*ops, zero));
        crate::arithmetic::lemma_sums_to_nothing(*ops, zero);
        assert(column.take(0) =~= Seq::empty());
    }
    while b < n
        invariant
            b <= n == buffers@.len(),
            column == column_of(buffers@, i as int),
            forall|b: int|
                0 <= b < buffers@.len() ==> i < (#[trigger] buffers@[b]).global_accum@.len(),
            crate::arithmetic::sums_to(*ops, zero, column.take(b as int), sum),
        decreases n - b,
    {
        let entry: T = buffers[b].global_accum[i];
        let next: T = ops.plus(sum, entry);
        proof {
            crate::arithmetic::lemma_sums_to_push(
                *ops,
                zero,
                column.take(b as int),
                sum,
                entry,
                next,
            );
            assert(column.take(b + 1) =~= column.take(b as int).push(entry));
        }
        sum = next;
        b = b + 1;
    }
    assert(column.take(n as int) =~= column);
    sum
}

/// Entries per task of the final reduction.
pub const REDUCE_CHUNK: usize = 4096;

/// Sum the workers' accumulators into `z`.
pub fn reduce_into<T: Copy + Send + Sync, A: Arithmetic<T> + Sync>(
    z: &mut [T],
    buffers: &Vec<AdditiveSweepBuffers<T>>,
    ops: &A,
)
    requires
        forall|b: int|
            0 <= b < buffers@.len() ==> (#[trigger] buffers@[b]).global_accum@.len()
                == old(z)@.len(),
    ensures
        final(z)@.len() == old(z)@.len(),
        is_reduced(*ops, buffers@, final(z)@),
{
    if buffers.len() == 0 {
        fill_zero(z, ops);
        proof {
            assert forall|i: int| 0 <= i < z@.len() implies is_column_sum(
                *ops,
                buffers@,
                i,
                #[trigger] z@[i],
            ) by {
                assert(crate::arithmetic::zero_gives(*ops, z@[i]));
                crate::arithmetic::lemma_sums_to_nothing(*ops, z@[i]);
                assert(column_of(buffers@, i) =~= Seq::empty());
            }
        }
        return ;
    }
    let n: usize = z.len();
    let f = |i: usize| -> (sum: T)
        requires
            forall|b: int|
                0 <= b < buffers@.len() ==> i < (#[trigger] buffers@[b]).global_accum@.len(),
        ensures
            is_column_sum(*ops, buffers@, i as int, sum),
        { column_sum(buffers, i, ops) };
    let sums: Vec<T> = par_map(n, REDUCE_CHUNK, f);
    let mut i: usize = 0;
    while i < n
        invariant
            i <= n == z@.len() == sums@.len() == old(z)@.len(),
            forall|j: int| 0 <= j < i ==> #[trigger] z@[j] == sums@[j],
        decreases n - i,
    {
        z[i] = sums[i];
        i = i + 1;
    }
    proof {
        assert forall|j: int| 0 <= j < z@.len() implies is_column_sum(
            *ops,
            buffers@,
            j,
            #[trigger] z@[j],
        ) by {
            assert(z@[j] == sums@[j as usize as int]);
        }
    }
}

/// Finish a round of the parallel reduction.
///
/// `z` is fully written either way: the sum of the accumulators after a
/// successful apply, zero after a failed one, so a failed apply never exposes a
/// partial accumulation. The buffers come back clean.
pub fn finish_round<T: Copy + Send + Sync, A: Arithmetic<T> + Sync>(
    buffers: Vec<AdditiveSweepBuffers<T>>,
    z: &mut [T],
    apply_result: &Result<(), SolveError>,
    zero: T,
    ops: &A,
) -> (recovered: Vec<AdditiveSweepBuffers<T>>)
    requires
        forall|b: int|
            0 <= b < buffers@.len() ==> (#[trigger] buffers@[b]).global_accum@.len()
                == old(z)@.len(),
    ensures
        final(z)@.len() == old(z)@.len(),
        if apply_result is Ok {
            is_reduced(*ops, buffers@, final(z)@)
        } else {
            crate::kernels::is_zeros(*ops, final(z)@.len(), final(z)@)
        },
        recovered@.len() == buffers@.len(),
        forall|b: int|
            0 <= b < buffers@.len() ==> {
                &&& (#[trigger] recovered@[b]).is_clean(zero)
                &&& recovered@[b].global_accum@.len() == buffers@[b].global_accum@.len()
                &&& recovered@[b].scratch == buffers@[b].scratch
            },
{
    if apply_result.is_err() {
        fill_zero(z, ops);
    } else {
        reduce_into(z, &buffers, ops);
    }
    let mut recovered: Vec<AdditiveSweepBuffers<T>> = Vec::with_capacity(buffers.len());
    for used in iter: buffers
        invariant
            iter.seq() == buffers@,
            recovered@.len() == iter.index(),
            forall|b: int|
                0 <= b < recovered@.len() ==> {
                    &&& (#[trigger] recovered@[b]).is_clean(zero)
                    &&& recovered@[b].global_accum@.len() == buffers@[b].global_accum@.len()
                    &&& recovered@[b].scratch == buffers@[b].scratch
                },
    {
        let global_accum: Vec<T> = filled(used.global_accum.len(), zero);
        recovered.push(AdditiveSweepBuffers { global_accum, scratch: used.scratch });
    }
    recovered
}

} // verus!
