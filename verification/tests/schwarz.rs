use within::arithmetic::Arithmetic;
use within::binary64::Binary64;
use within::kernels::AtomicBins;
use within::schwarz_precond::additive::SchwarzPreconditioner;
use within::schwarz_precond::domain::{PartitionWeights, SubdomainCore};
use within::schwarz_precond::error::{BuildError, LocalSolveError, SolveError};
use within::schwarz_precond::executor::{
    finish_round, take_or_alloc, AdditiveSweepBuffers, BufferPool, SchwarzBuffers,
};
use within::schwarz_precond::local_solve::{LocalSolver, SubdomainEntry};
use within::schwarz_precond::pooled::AdditiveExecutor;
use within::schwarz_precond::planning::{
    AdditiveScheduler, ReductionPlan, ReductionStrategy, ResolvedReductionStrategy,
};

struct F64;

impl Arithmetic<f64> for F64 {
    fn zero(&self) -> f64 {
        0.0
    }
    fn one(&self) -> f64 {
        1.0
    }
    fn plus(&self, a: f64, b: f64) -> f64 {
        a + b
    }
    fn minus(&self, a: f64, b: f64) -> f64 {
        a - b
    }
    fn times(&self, a: f64, b: f64) -> f64 {
        a * b
    }
    fn divide(&self, a: f64, b: f64) -> f64 {
        a / b
    }
    fn square_root(&self, a: f64) -> f64 {
        a.sqrt()
    }
    fn magnitude(&self, a: f64) -> f64 {
        a.abs()
    }
    fn at_least(&self, a: f64, b: f64) -> bool {
        a >= b
    }
    fn is_positive(&self, a: f64) -> bool {
        a > 0.0
    }
    fn is_finite(&self, a: f64) -> bool {
        a.is_finite()
    }
    fn from_count(&self, count: u32) -> f64 {
        count as f64
    }
    fn from_binary64(&self, value: Binary64) -> f64 {
        f64::from_bits(value.bits)
    }
}

impl AtomicBins<f64, F64> for F64 {
    fn accumulate(
        &self,
        initial: Vec<f64>,
        codes: &[u32],
        values: &[f64],
        _ops: &F64,
    ) -> Vec<f64> {
        let mut bins = initial;
        for (&code, &value) in codes.iter().zip(values) {
            bins[code as usize] += value;
        }
        bins
    }
}

/// Multiplies by a factor; fails if told to.
#[derive(Debug, Clone)]
struct Scale {
    n: usize,
    scratch: usize,
    work: usize,
    factor: f64,
    fails: bool,
}

impl LocalSolver<f64> for Scale {
    fn n_local(&self) -> usize {
        self.n
    }
    fn scratch_size(&self) -> usize {
        self.scratch
    }
    fn inner_parallelism_work_estimate(&self) -> usize {
        self.work
    }
    fn solve_local(&self, rhs: Vec<f64>, _allow: bool) -> Result<Vec<f64>, LocalSolveError> {
        if self.fails {
            return Err(LocalSolveError::BackendFailed {
                context: "scale",
                message: "told to".to_string(),
            });
        }
        Ok(rhs.iter().map(|v| v * self.factor).collect())
    }
}

fn scale(n: usize, factor: f64) -> Scale {
    Scale {
        n,
        scratch: n,
        work: 0,
        factor,
        fails: false,
    }
}

fn entry(indices: Vec<u32>, counts: Option<Vec<u32>>, factor: f64) -> SubdomainEntry<Scale> {
    let n = indices.len();
    let mut core = SubdomainCore::uniform(indices);
    if let Some(counts) = counts {
        core.set_partition_weights(PartitionWeights::NonUniform(counts))
            .expect("lengths match");
    }
    SubdomainEntry::try_new::<f64>(core, scale(n, factor)).expect("entry")
}

#[test]
fn buffer_pool_drops_dirty_buffer_on_error() {
    let mut pool = BufferPool::new(8, 4, 0u64);

    let mut bufs = pool.take(ResolvedReductionStrategy::AtomicScatter);
    match &mut bufs {
        SchwarzBuffers::Atomic { accum } => {
            for slot in accum {
                *slot = 0xdead_beef_dead_beef;
            }
        }
        _ => panic!("expected atomic buffer"),
    }

    pool.put(
        bufs,
        &Err(SolveError::Synchronization {
            context: "test.simulated_failure",
        }),
    );

    let fresh = pool.take(ResolvedReductionStrategy::AtomicScatter);
    match &fresh {
        SchwarzBuffers::Atomic { accum } => {
            for (i, slot) in accum.iter().enumerate() {
                assert_eq!(
                    *slot, 0,
                    "atomic accumulator slot {i} should be freshly zero, not stale dirty bits"
                );
            }
        }
        _ => panic!("expected atomic buffer"),
    }
}

#[test]
fn buffer_pool_retains_clean_buffer_on_success() {
    let mut pool = BufferPool::new(8, 4, 0.0f64);

    let bufs = pool.take(ResolvedReductionStrategy::AtomicScatter);
    pool.put(bufs, &Ok(()));
    assert_eq!(pool.n_pooled(), 1);

    let _ = pool.take(ResolvedReductionStrategy::AtomicScatter);
    assert!(
        pool.n_pooled() == 0,
        "second take should have drained the pooled buffer"
    );
}

#[test]
fn buffer_pool_is_bounded_and_keeps_strategies_apart() {
    let mut pool = BufferPool::new(2, 1, 0.0f64);
    let taken: Vec<_> = (0..6)
        .map(|_| pool.take(ResolvedReductionStrategy::ParallelReduction))
        .collect();
    for bufs in taken {
        pool.put(bufs, &Ok(()));
    }
    assert_eq!(pool.n_pooled(), 4);
    let atomic = pool.take(ResolvedReductionStrategy::AtomicScatter);
    assert_eq!(pool.n_pooled(), 4);
    assert_eq!(atomic.strategy(), ResolvedReductionStrategy::AtomicScatter);
}

#[test]
fn finished_rounds_sum_the_buffers_and_clean_them() {
    let mut shared = vec![];
    let mut a: AdditiveSweepBuffers<f64> = take_or_alloc(&mut shared, 3, 2, 0.0);
    let mut b = take_or_alloc(&mut shared, 3, 2, 0.0);
    a.global_accum.copy_from_slice(&[1.0, 2.0, 3.0]);
    b.global_accum.copy_from_slice(&[10.0, 20.0, 30.0]);
    let mut z = vec![9.0; 3];
    let recovered = finish_round(vec![a, b], &mut z, &Ok(()), 0.0, &F64);
    assert_eq!(z, [11.0, 22.0, 33.0]);
    assert!(recovered
        .iter()
        .all(|b| b.global_accum.iter().all(|&v| v == 0.0)));
    let failed = Err(SolveError::Synchronization { context: "x" });
    let mut z = vec![9.0; 3];
    let recovered = finish_round(recovered, &mut z, &failed, 0.0, &F64);
    assert_eq!(z, [0.0; 3]);
    assert_eq!(recovered.len(), 2);
    let mut z = vec![9.0; 3];
    finish_round(vec![], &mut z, &Ok(()), 0.0, &F64);
    assert_eq!(z, [0.0; 3]);
}

fn reference_plan(
    s: AdditiveScheduler,
    configured: ReductionStrategy,
    threads: usize,
) -> (ResolvedReductionStrategy, bool) {
    let capacity = if s.max_inner_parallel_work == 0 {
        0.0
    } else {
        s.total_inner_parallel_work as f64 / s.max_inner_parallel_work as f64
    };
    let allow = s.max_inner_parallel_work >= 200_000 && capacity < threads as f64 * 0.75;
    let overlap = s.total_scatter_dofs as f64 / s.n_dofs.max(1) as f64;
    let buffers = threads.min(s.n_subdomains).max(1);
    let sweep =
        buffers.saturating_mul(s.n_dofs) as f64 / s.total_scatter_dofs.max(1) as f64;
    let auto = if sweep <= 1.1 || (allow && sweep <= 6.0) || overlap >= 4.0 {
        ResolvedReductionStrategy::ParallelReduction
    } else {
        ResolvedReductionStrategy::AtomicScatter
    };
    let strategy = match configured {
        ReductionStrategy::AtomicScatter => ResolvedReductionStrategy::AtomicScatter,
        ReductionStrategy::ParallelReduction => ResolvedReductionStrategy::ParallelReduction,
        _ => auto,
    };
    (strategy, allow)
}

#[test]
fn plans_agree_with_floating_point_arithmetic() {
    let mut state = 0x9e37_79b9_7f4a_7c15u64;
    let mut next = move || {
        state ^= state << 13;
        state ^= state >> 7;
        state ^= state << 17;
        state
    };
    for round in 0..200_000u32 {
        let mut number = |span: u64| -> usize {
            let shift = next() % 64;
            ((next() >> shift) % span) as usize
        };
        let n_dofs = number(u64::MAX);
        let s = AdditiveScheduler {
            n_subdomains: number(5000),
            n_dofs,
            total_inner_parallel_work: number(u64::MAX),
            max_inner_parallel_work: number(u64::MAX),
            total_scatter_dofs: if round % 2 == 0 {
                number(u64::MAX)
            } else {
                n_dofs.saturating_mul(number(9)).saturating_add(number(3))
            },
        };
        let threads = number(300);
        for configured in [
            ReductionStrategy::Auto,
            ReductionStrategy::AtomicScatter,
            ReductionStrategy::ParallelReduction,
        ] {
            let plan = s.reduction_plan(configured, threads);
            assert_eq!(
                (plan.strategy, plan.allow_inner_parallelism),
                reference_plan(s, configured, threads),
                "{:?} {threads}",
                s
            );
        }
    }
}

#[test]
fn plan_thresholds_are_exact() {
    let base = AdditiveScheduler {
        n_subdomains: 8,
        n_dofs: 11,
        total_inner_parallel_work: 0,
        max_inner_parallel_work: 0,
        total_scatter_dofs: 10,
    };
    // one thread: sweep 11, scatter 10 is exactly the factor 1.1
    assert_eq!(
        base.pick_auto_strategy(1, false),
        ResolvedReductionStrategy::ParallelReduction
    );
    let wider = AdditiveScheduler { n_dofs: 12, ..base };
    assert_eq!(
        wider.pick_auto_strategy(1, false),
        ResolvedReductionStrategy::AtomicScatter
    );
    assert_eq!(
        wider.pick_auto_strategy(5, true),
        ResolvedReductionStrategy::ParallelReduction
    );
    let work = AdditiveScheduler {
        total_inner_parallel_work: 600_000,
        max_inner_parallel_work: 200_000,
        ..base
    };
    assert!(!work.allow_inner_parallelism(4));
    assert!(work.allow_inner_parallelism(5));
    assert_eq!(
        ResolvedReductionStrategy::AtomicScatter.as_public(),
        ReductionStrategy::AtomicScatter
    );
}

#[test]
fn configured_backends_are_the_ones_that_run() {
    let s = AdditiveScheduler {
        n_subdomains: 16,
        n_dofs: 1_000,
        total_inner_parallel_work: 900_000,
        max_inner_parallel_work: 300_000,
        total_scatter_dofs: 2_000,
    };
    for threads in [0, 1, 2, 4, 5, 16, 1_000] {
        let auto = s.reduction_plan(ReductionStrategy::Auto, threads);
        assert_ne!(auto.strategy.as_public(), ReductionStrategy::Auto);
        for configured in [
            ReductionStrategy::AtomicScatter,
            ReductionStrategy::ParallelReduction,
        ] {
            let plan = s.reduction_plan(configured, threads);
            assert_eq!(plan.strategy.as_public(), configured);
            assert_eq!(plan.allow_inner_parallelism, auto.allow_inner_parallelism);
        }
        // the subdomains keep three threads busy, which is 3/4 of four
        assert_eq!(auto.allow_inner_parallelism, threads > 4);
    }
}

#[test]
fn auto_leaves_the_reduction_as_threads_are_added() {
    let s = AdditiveScheduler {
        n_subdomains: 16,
        n_dofs: 1_000,
        total_inner_parallel_work: 0,
        max_inner_parallel_work: 0,
        total_scatter_dofs: 2_000,
    };
    for threads in [1, 2] {
        assert_eq!(
            s.pick_auto_strategy(threads, false),
            ResolvedReductionStrategy::ParallelReduction
        );
    }
    for threads in [3, 4, 16, 1_000] {
        assert_eq!(
            s.pick_auto_strategy(threads, false),
            ResolvedReductionStrategy::AtomicScatter
        );
    }
    // twelve buffers are six times the scatter, which nested regions make worth it
    assert_eq!(
        s.pick_auto_strategy(12, true),
        ResolvedReductionStrategy::ParallelReduction
    );
    assert_eq!(
        s.pick_auto_strategy(13, true),
        ResolvedReductionStrategy::AtomicScatter
    );
    let crowded = AdditiveScheduler {
        total_scatter_dofs: 4_000,
        ..s
    };
    assert_eq!(
        crowded.pick_auto_strategy(1_000, false),
        ResolvedReductionStrategy::ParallelReduction
    );
    let empty = AdditiveScheduler {
        n_dofs: 0,
        total_scatter_dofs: 4,
        ..s
    };
    assert_eq!(
        empty.pick_auto_strategy(1_000, false),
        ResolvedReductionStrategy::ParallelReduction
    );
}

#[test]
fn scheduling_metrics_come_from_the_subdomains() {
    let first = SubdomainEntry::try_new::<f64>(
        SubdomainCore::uniform(vec![0, 1]),
        Scale {
            work: 70,
            ..scale(2, 1.0)
        },
    )
    .expect("entry");
    let second = SubdomainEntry::try_new::<f64>(
        SubdomainCore::uniform(vec![1, 2, 3]),
        Scale {
            work: 30,
            ..scale(3, 1.0)
        },
    )
    .expect("entry");
    let s = AdditiveScheduler::from_entries::<f64, Scale>(&[first, second], 4);
    assert_eq!((s.n_subdomains, s.n_dofs), (2, 4));
    assert_eq!(s.total_inner_parallel_work, 100);
    assert_eq!(s.max_inner_parallel_work, 70);
    assert_eq!(s.total_scatter_dofs, 5);
}

#[test]
fn partition_weights_must_match_the_unknowns() {
    let mut core = SubdomainCore::uniform(vec![3, 5]);
    assert_eq!(core.partition_weights().get(1), 1);
    match core.set_partition_weights(PartitionWeights::NonUniform(vec![2])) {
        Err(BuildError::PartitionWeightLengthMismatch {
            index_count,
            weight_count,
        }) => assert_eq!((index_count, weight_count), (2, 1)),
        other => panic!("unexpected {:?}", other),
    }
    core.set_partition_weights(PartitionWeights::NonUniform(vec![2, 3]))
        .unwrap();
    assert_eq!(core.partition_weights().get(1), 3);
    assert_eq!(core.clone(), core);
    core.set_uniform_partition_weights();
    assert_eq!(core.partition_weights(), &PartitionWeights::Uniform);
}

#[test]
fn entries_need_solvers_of_their_size() {
    let core = SubdomainCore::uniform(vec![0, 1]);
    match SubdomainEntry::try_new::<f64>(core.clone(), scale(3, 1.0)) {
        Err(BuildError::LocalDofCountMismatch {
            index_count,
            solver_n_local,
        }) => assert_eq!((index_count, solver_n_local), (2, 3)),
        other => panic!("unexpected {:?}", other),
    }
    let mut small = scale(2, 1.0);
    small.scratch = 1;
    match SubdomainEntry::try_new::<f64>(core, small) {
        Err(BuildError::ScratchSizeTooSmall {
            scratch_size,
            required_min,
        }) => assert_eq!((scratch_size, required_min), (1, 2)),
        other => panic!("unexpected {:?}", other),
    }
}

#[test]
fn one_subdomain_restricts_solves_and_prolongs() {
    let e = entry(vec![2, 0], Some(vec![4, 1]), 3.0);
    let mut accum = vec![100.0; 3];
    e.apply_weighted_into(&[5.0, 6.0, 8.0], &mut accum, false, &F64)
        .expect("solve");
    // weight 1/2 at unknown 2: 8/2 * 3 / 2; weight 1 at unknown 0
    assert_eq!(accum, [115.0, 100.0, 106.0]);
}

#[test]
fn unknowns_out_of_bounds_are_refused() {
    let entries = vec![entry(vec![0, 1], None, 1.0), entry(vec![1, 4], None, 1.0)];
    match SchwarzPreconditioner::new::<f64>(entries, 4, ReductionStrategy::Auto) {
        Err(BuildError::GlobalIndexOutOfBounds {
            subdomain,
            local_index,
            global_index,
            n_dofs,
        }) => assert_eq!((subdomain, local_index, global_index, n_dofs), (1, 1, 4, 4)),
        other => panic!("unexpected {:?}", other.is_ok()),
    }
}

fn preconditioner(strategy: ReductionStrategy, fails: bool) -> SchwarzPreconditioner<Scale> {
    let mut second = SubdomainCore::uniform(vec![1, 2]);
    second
        .set_partition_weights(PartitionWeights::NonUniform(vec![4, 1]))
        .unwrap();
    let solver = Scale {
        fails,
        scratch: 7,
        work: 11,
        ..scale(2, 10.0)
    };
    let entries = vec![
        entry(vec![0, 1], Some(vec![1, 4]), 2.0),
        SubdomainEntry::try_new::<f64>(second, solver).unwrap(),
    ];
    SchwarzPreconditioner::new::<f64>(entries, 3, strategy).expect("preconditioner")
}

#[test]
fn both_backends_sum_the_subdomains() {
    for strategy in [
        ReductionStrategy::Auto,
        ReductionStrategy::AtomicScatter,
        ReductionStrategy::ParallelReduction,
    ] {
        let p = preconditioner(strategy, false);
        assert_eq!((p.nrows(), p.ncols()), (3, 3));
        assert_eq!(p.max_scratch_size(), 7);
        assert_eq!(p.reduction_strategy(), strategy);
        let mut z = vec![55.0; 3];
        p.apply(&[1.0, 2.0, 3.0], &mut z, &F64, &F64).expect("apply");
        // unknown 1 has weight 1/2 on both sides of each of its subdomains
        assert_eq!(z, [2.0, 6.0, 30.0]);
        let mut again = vec![0.0; 3];
        p.clone()
            .apply_adjoint(&[1.0, 2.0, 3.0], &mut again, &F64, &F64)
            .expect("apply");
        assert_eq!(again, z);
    }
    let p = preconditioner(ReductionStrategy::AtomicScatter, false);
    assert_eq!(
        p.resolved_reduction_strategy(),
        ReductionStrategy::AtomicScatter
    );
}

#[test]
fn a_failing_subdomain_is_named_and_exposes_no_partial_sum() {
    for (strategy, left) in [
        (ResolvedReductionStrategy::AtomicScatter, 55.0),
        (ResolvedReductionStrategy::ParallelReduction, 0.0),
    ] {
        let p = preconditioner(ReductionStrategy::Auto, true);
        let mut z = vec![55.0; 3];
        let plan = ReductionPlan {
            strategy,
            allow_inner_parallelism: false,
        };
        match p.apply_planned(plan, &[1.0, 2.0, 3.0], &mut z, &F64, &F64) {
            Err(SolveError::LocalSolveFailed { subdomain, source }) => {
                assert_eq!(subdomain, 1);
                assert_eq!(source.to_string(), "scale: told to");
            }
            other => panic!("unexpected {:?}", other),
        }
        assert_eq!(z, [left; 3]);
    }
}

#[test]
fn vectors_of_the_wrong_length_are_refused() {
    let p = preconditioner(ReductionStrategy::Auto, false);
    let mut z = vec![55.0; 3];
    match p.apply(&[1.0], &mut z, &F64, &F64) {
        Err(SolveError::InvalidInput { message, .. }) => {
            assert_eq!(message, "x.len() (1) != n_dofs (3)");
        }
        other => panic!("unexpected {:?}", other),
    }
    let mut short = vec![55.0; 2];
    match p.apply(&[1.0, 2.0, 3.0], &mut short, &F64, &F64) {
        Err(SolveError::InvalidInput { message, .. }) => {
            assert_eq!(message, "y.len() (2) != n_dofs (3)");
        }
        other => panic!("unexpected {:?}", other),
    }
    assert_eq!(short, [55.0; 2]);
}

#[test]
fn symmetric_local_solvers_make_a_symmetric_preconditioner() {
    for strategy in [
        ReductionStrategy::AtomicScatter,
        ReductionStrategy::ParallelReduction,
    ] {
        let p = preconditioner(strategy, false);
        let r = [1.0, 2.0, 4.0];
        let s = [8.0, -2.0, 3.0];
        let mut mr = vec![0.0; 3];
        let mut ms = vec![0.0; 3];
        p.apply(&r, &mut mr, &F64, &F64).expect("apply");
        p.apply(&s, &mut ms, &F64, &F64).expect("apply");
        let pair = |a: &[f64], b: &[f64]| -> f64 { a.iter().zip(b).map(|(x, y)| x * y).sum() };
        assert_eq!(pair(&s, &mr), pair(&r, &ms));
    }
}

#[test]
fn executors_reuse_their_buffers_and_drop_them_on_failure() {
    for strategy in [
        ReductionStrategy::AtomicScatter,
        ReductionStrategy::ParallelReduction,
    ] {
        let mut executor = AdditiveExecutor::new(preconditioner(strategy, false), &F64);
        for _ in 0..3 {
            let mut z = vec![55.0; 3];
            executor.apply(&[1.0, 2.0, 3.0], &mut z, &F64).expect("apply");
            assert_eq!(z, [2.0, 6.0, 30.0]);
            assert_eq!(executor.n_pooled(), 1);
        }
        assert!(executor.apply(&[1.0], &mut [0.0; 3], &F64).is_err());
        let mut failing = AdditiveExecutor::new(preconditioner(strategy, true), &F64);
        assert!(failing.apply(&[1.0; 3], &mut [0.0; 3], &F64).is_err());
        assert_eq!(failing.n_pooled(), 0);
        // a refused call leaves the pool alone
        assert!(executor.apply(&[1.0; 3], &mut [0.0; 2], &F64).is_err());
        assert_eq!(executor.n_pooled(), 1);
    }
}

#[test]
fn pools_keep_buffers_after_success_only() {
    let mut pool = BufferPool::new(3, 2, 0.0f64);
    let failed = Err(SolveError::Synchronization { context: "x" });
    let strategies = [
        ResolvedReductionStrategy::AtomicScatter,
        ResolvedReductionStrategy::ParallelReduction,
    ];
    for (k, &strategy) in strategies.iter().enumerate() {
        for _ in 0..3 {
            let bufs = pool.take(strategy);
            pool.put(bufs, &Ok(()));
            assert_eq!(pool.n_pooled(), k + 1);
        }
    }
    let bufs = pool.take(strategies[0]);
    pool.put(bufs, &failed);
    assert_eq!(pool.n_pooled(), 1);
    let bufs = pool.take(strategies[0]);
    pool.put(bufs, &failed);
    assert_eq!(pool.n_pooled(), 1);
}

#[test]
fn many_subdomains_are_shared_out_and_summed() {
    let n = 100u32;
    let entries: Vec<SubdomainEntry<Scale>> = (0..n)
        .map(|d| entry(vec![d, (d + 1) % n], None, (d + 1) as f64))
        .collect();
    let p = SchwarzPreconditioner::new::<f64>(entries, n as usize, ReductionStrategy::Auto)
        .expect("preconditioner");
    let r: Vec<f64> = (0..n).map(|i| (i % 7) as f64).collect();
    let plan = ReductionPlan {
        strategy: ResolvedReductionStrategy::ParallelReduction,
        allow_inner_parallelism: false,
    };
    let mut z = vec![0.0; n as usize];
    p.apply_planned(plan, &r, &mut z, &F64, &F64).expect("apply");
    for i in 0..n {
        let before = if i == 0 { n } else { i };
        assert_eq!(z[i as usize], r[i as usize] * ((i + 1) + before) as f64);
    }
}
