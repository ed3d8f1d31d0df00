use std::borrow::Cow;

use within::arithmetic::Arithmetic;
use within::binary64::{round_to_binary64, Binary64};
use within::block_elim::compensated_sum;
use within::config::ApproxSchurConfig;
use within::domain::Design;
use within::elimination::{
    merge_dedup, sort_and_dedup, CliqueSampler, CrossTab, CsrBlock, Elimination,
    SampledCliqueEmitter,
};
use within::error::BuildError;
use within::kernels::{scatter_add_single_factor, AtomicBins, OrderedBins, ScatterStrategy};
use within::observation::ObservationFrame;
use within::operator::design_operator::DesignOperator;
use within::operator::{gather_add, scatter_add, scatter_strategy};
use within::schwarz_precond::solve::{dot, vec_norm};

struct F64;

impl Arithmetic<f64> for F64 {
    fn zero(&self) -> f64 {
        0.0
    }
    fn one(&self) -> f64 {
        1.0
    }
    fn plus(&self, a: f64, b: f64) -> f64 {
        a + b
    }
    fn minus(&self, a: f64, b: f64) -> f64 {
        a - b
    }
    fn times(&self, a: f64, b: f64) -> f64 {
        a * b
    }
    fn divide(&self, a: f64, b: f64) -> f64 {
        a / b
    }
    fn square_root(&self, a: f64) -> f64 {
        a.sqrt()
    }
    fn magnitude(&self, a: f64) -> f64 {
        a.abs()
    }
    fn at_least(&self, a: f64, b: f64) -> bool {
        a >= b
    }
    fn is_positive(&self, a: f64) -> bool {
        a > 0.0
    }
    fn is_finite(&self, a: f64) -> bool {
        a.is_finite()
    }
    fn from_count(&self, count: u32) -> f64 {
        count as f64
    }
    fn from_binary64(&self, value: Binary64) -> f64 {
        f64::from_bits(value.bits)
    }
}

impl AtomicBins<f64, F64> for F64 {
    fn accumulate(
        &self,
        initial: Vec<f64>,
        codes: &[u32],
        values: &[f64],
        _ops: &F64,
    ) -> Vec<f64> {
        let mut bins = initial;
        for (&code, &value) in codes.iter().zip(values) {
            bins[code as usize] += value;
        }
        bins
    }
}

#[test]
fn recovers_catastrophic_cancellation_in_both_branches() {
    // Large value first: the `sum.abs() >= value.abs()` branch carries the 1.0.
    let big_first = [1e16, 1.0, -1e16];
    assert_eq!(
        big_first.iter().sum::<f64>(),
        0.0,
        "naive fold loses the term"
    );
    assert_eq!(compensated_sum(&big_first, &F64), 1.0);

    // Small value first: the `else` branch carries the 1.0.
    let small_first = [1.0, 1e16, -1e16];
    assert_eq!(
        small_first.iter().sum::<f64>(),
        0.0,
        "naive fold loses the term"
    );
    assert_eq!(compensated_sum(&small_first, &F64), 1.0);
}

#[test]
fn handles_empty_and_singleton() {
    assert_eq!(compensated_sum(&[], &F64), 0.0);
    assert_eq!(compensated_sum(&[42.0], &F64), 42.0);
}

#[test]
fn inner_products_and_norms_have_exact_values() {
    assert_eq!(dot(&[1.0, 2.0, 3.0], &[4.0, 5.0, 6.0], &F64), 32.0);
    assert_eq!(dot(&[1.0, 2.0], &[4.0, 5.0, 6.0], &F64), 14.0);
    assert_eq!(vec_norm(&[3.0, 4.0], &F64), 5.0);
    assert_eq!(vec_norm(&[], &F64), 0.0);
}

#[test]
fn whole_numbers_round_to_the_nearest_double() {
    for x in [
        0u64,
        1,
        (1 << 53) - 1,
        1 << 53,
        (1 << 53) + 1,
        (1 << 53) + 3,
        (1 << 60) + 12345,
        u64::MAX - 1024,
        u64::MAX,
    ] {
        assert_eq!(round_to_binary64(x), (x as f64) as u128, "{x}");
    }
}

#[test]
fn scatter_strategies_agree_on_whole_numbers() {
    let codes: Vec<u32> = (0..20_000u32).map(|i| (i * 7) % 13).collect();
    let values: Vec<f64> = (0..20_000u32).map(|i| (i % 5) as f64).collect();
    let mut expected = vec![1.0; 15];
    for (&c, &v) in codes.iter().zip(&values) {
        expected[1 + c as usize] += v;
    }
    for strategy in [
        ScatterStrategy::Sequential,
        ScatterStrategy::Fold,
        ScatterStrategy::Atomic,
    ] {
        let mut dst = vec![1.0; 15];
        scatter_add_single_factor(&mut dst, 1, 13, &codes, &values, strategy, &F64, &F64);
        assert_eq!(dst, expected, "{:?}", strategy);
        let mut dst = vec![1.0; 15];
        scatter_add_single_factor(&mut dst, 1, 13, &codes, &values, strategy, &F64, &OrderedBins);
        assert_eq!(dst, expected, "{:?}", strategy);
    }
}

#[test]
fn scattering_adds_the_rows_of_a_level_to_its_bin() {
    let codes = [2u32, 0, 2, 3];
    let values = [10.0, 20.0, 30.0, 40.0];
    for strategy in [
        ScatterStrategy::Sequential,
        ScatterStrategy::Fold,
        ScatterStrategy::Atomic,
    ] {
        let mut dst = vec![-1.0, 1.0, 2.0, 3.0, 4.0, -2.0];
        scatter_add_single_factor(&mut dst, 1, 4, &codes, &values, strategy, &F64, &OrderedBins);
        assert_eq!(dst, [-1.0, 21.0, 2.0, 43.0, 44.0, -2.0]);
    }
}

#[test]
fn bins_collect_their_values_on_top_of_what_they_hold() {
    let initial = vec![1.0, 2.0, 3.0];
    let codes = [2u32, 0, 2];
    let values = [10.0, 20.0, 30.0];
    assert_eq!(
        OrderedBins.accumulate(initial.clone(), &codes, &values, &F64),
        [21.0, 2.0, 43.0]
    );
    assert_eq!(
        OrderedBins.accumulate(initial.clone(), &[], &[], &F64),
        initial
    );
}

#[test]
fn the_adjoint_sums_the_rows_of_a_large_factor() {
    // as many levels as ask for shared accumulation
    let n = 100_000u32;
    let d = design(vec![
        (0..2 * n).map(|i| i % n).collect(),
        (0..2 * n).map(|i| i % 3).collect(),
    ]);
    assert_eq!(
        scatter_strategy(2 * n as usize, n as usize),
        ScatterStrategy::Atomic
    );
    let w: Vec<f64> = (0..2 * n).map(|i| if i < n { 4.0 } else { 9.0 }).collect();
    let op = DesignOperator::new(&d, Some(&w), &F64, &OrderedBins);
    let u: Vec<f64> = (0..2 * n).map(|i| (i % 10) as f64).collect();
    let mut atu = vec![7.0; d.n_dofs];
    op.apply_adjoint(&u, &mut atu);
    for level in [0usize, 1, 12_345, 99_999] {
        let expected = 2.0 * u[level] + 3.0 * u[level + n as usize];
        assert_eq!(atu[level], expected);
    }
    let x: Vec<f64> = (0..d.n_dofs).map(|i| (i % 4) as f64).collect();
    let mut ax = vec![0.0; 2 * n as usize];
    op.apply(&x, &mut ax);
    assert_eq!(dot(&u, &ax, &F64), dot(&atu, &x, &F64));
}

#[test]
fn scatter_strategy_follows_rows_and_levels() {
    assert_eq!(scatter_strategy(10_000, 5), ScatterStrategy::Sequential);
    assert_eq!(scatter_strategy(10_001, 99_999), ScatterStrategy::Fold);
    assert_eq!(scatter_strategy(10_001, 100_000), ScatterStrategy::Atomic);
}

fn design(columns: Vec<Vec<u32>>) -> Design<'static> {
    let frame = ObservationFrame::new(columns.into_iter().map(Cow::Owned).collect(), vec![])
        .expect("frame");
    Design::from_frame_unsorted(frame).expect("design")
}

#[test]
fn gather_sums_the_coefficients_of_a_row() {
    let d = design(vec![vec![0, 1, 2, 0], vec![1, 0, 1, 1]]);
    let x = [1.0, 2.0, 3.0, 10.0, 20.0];
    let mut y = vec![100.0; 4];
    gather_add(&d, &x, &mut y, &F64);
    assert_eq!(y, [121.0, 112.0, 123.0, 121.0]);
}

#[test]
fn long_gather_runs_in_parallel_and_agrees() {
    let n = 12_345u32;
    let d = design(vec![
        (0..n).map(|i| i % 17).collect(),
        (0..n).map(|i| (i / 3) % 5).collect(),
    ]);
    let x: Vec<f64> = (0..22).map(|i| i as f64).collect();
    let mut y = vec![0.5; n as usize];
    gather_add(&d, &x, &mut y, &F64);
    for i in 0..n {
        let expected = 0.5 + x[(i % 17) as usize] + x[17 + ((i / 3) % 5) as usize];
        assert_eq!(y[i as usize], expected);
    }
}

#[test]
fn gather_and_scatter_are_transposes() {
    for n in [50u32, 15_000] {
        let d = design(vec![
            (0..n).map(|i| (i * i) % 11).collect(),
            (0..n).map(|i| (i * 3) % 7).collect(),
        ]);
        let x: Vec<f64> = (0..d.n_dofs).map(|i| (i as f64) - 4.0).collect();
        let y: Vec<f64> = (0..n).map(|i| ((i % 9) as f64) - 3.0).collect();
        let mut dx = vec![0.0; n as usize];
        gather_add(&d, &x, &mut dx, &F64);
        let mut dty = vec![0.0; d.n_dofs];
        scatter_add(&d, &mut dty, &y, &F64, &F64);
        assert_eq!(dot(&y, &dx, &F64), dot(&dty, &x, &F64));
    }
}

#[test]
fn weighted_operator_scales_both_sides() {
    let d = design(vec![vec![0, 1, 0], vec![0, 0, 1]]);
    let w = [4.0, 9.0, 16.0];
    let op = DesignOperator::new(&d, Some(&w), &F64, &F64);
    assert_eq!((op.nrows(), op.ncols()), (3, 4));
    assert_eq!(op.weighted_rhs(&[1.0, 1.0, 2.0]), [2.0, 3.0, 8.0]);
    let mut y = vec![7.0; 3];
    op.apply(&[1.0, 2.0, 10.0, 20.0], &mut y);
    assert_eq!(y, [22.0, 36.0, 84.0]);
    let mut x = vec![7.0; 4];
    op.apply_adjoint(&[1.0, 1.0, 1.0], &mut x);
    assert_eq!(x, [6.0, 3.0, 5.0, 4.0]);
    let bare = DesignOperator::new(&d, None, &F64, &F64);
    assert_eq!(bare.weighted_rhs(&[1.0, 1.0, 2.0]), [1.0, 1.0, 2.0]);
}

#[test]
fn weighted_operator_and_its_adjoint_are_transposes() {
    let d = design(vec![vec![0, 1, 0, 2], vec![0, 0, 1, 1]]);
    let w = [4.0, 9.0, 16.0, 25.0];
    for weights in [None, Some(&w[..])] {
        let op = DesignOperator::new(&d, weights, &F64, &F64);
        let x = [1.0, -2.0, 3.0, 5.0, 7.0];
        let u = [2.0, 1.0, -1.0, 4.0];
        let mut ax = vec![0.0; 4];
        op.apply(&x, &mut ax);
        let mut atu = vec![0.0; 5];
        op.apply_adjoint(&u, &mut atu);
        assert_eq!(dot(&u, &ax, &F64), dot(&atu, &x, &F64));
    }
}

#[test]
fn sorting_and_merging_add_up_equal_edges() {
    let mut edges = vec![
        (2u32, 1u32, 1.0),
        (0, 5, 2.0),
        (2, 1, 4.0),
        (0, 1, 8.0),
        (0, 5, 16.0),
    ];
    sort_and_dedup(&mut edges, &F64);
    assert_eq!(edges, [(0, 1, 8.0), (0, 5, 18.0), (2, 1, 5.0)]);
    let other = vec![(0u32, 0u32, 1.0), (0, 5, 2.0), (3, 0, 3.0)];
    assert_eq!(
        merge_dedup(edges.clone(), other.clone(), &F64),
        [
            (0, 0, 1.0),
            (0, 1, 8.0),
            (0, 5, 20.0),
            (2, 1, 5.0),
            (3, 0, 3.0)
        ]
    );
    assert_eq!(merge_dedup(vec![], other.clone(), &F64), other);
    assert_eq!(merge_dedup(other.clone(), vec![], &F64), other);
    let mut none: Vec<(u32, u32, f64)> = vec![];
    sort_and_dedup(&mut none, &F64);
    assert!(none.is_empty());
}

fn cross_tab() -> CrossTab<f64> {
    // two levels by three levels, entries (0,0)=1 (0,2)=2 (1,1)=3 (1,2)=4
    CrossTab {
        c: CsrBlock {
            indptr: vec![0, 2, 4],
            indices: vec![0, 2, 1, 2],
            data: vec![1.0, 2.0, 3.0, 4.0],
        },
        ct: CsrBlock {
            indptr: vec![0, 1, 2, 4],
            indices: vec![0, 1, 0, 1],
            data: vec![1.0, 3.0, 2.0, 4.0],
        },
        diag_q: vec![3.0, 7.0],
        diag_r: vec![1.0, 3.0, 6.0],
    }
}

#[test]
fn the_larger_block_is_eliminated() {
    let table = cross_tab();
    let elimination = Elimination::new(&table, &F64).expect("elimination");
    assert_eq!((elimination.n_elim, elimination.n_keep), (3, 2));
    assert!(!elimination.eliminate_q);
    assert_eq!(
        elimination.inv_diag_elim,
        [1.0, 1.0 / 3.0, 1.0 / 6.0]
    );
    assert_eq!(elimination.star(2).degree(), 2);
    assert_eq!(elimination.star(2).col_indices, [0, 1]);
    assert_eq!(elimination.star(2).weights, [2.0, 4.0]);
    assert_eq!(
        elimination.into_info().inv_diag_elim,
        [1.0, 1.0 / 3.0, 1.0 / 6.0]
    );
}

#[test]
fn a_zero_diagonal_is_refused_with_its_place() {
    let mut table = cross_tab();
    table.diag_r[1] = 0.0;
    match Elimination::new(&table, &F64) {
        Err(BuildError::SingularDiagonal { index, .. }) => assert_eq!(index, 1),
        other => panic!("unexpected {:?}", other.is_ok()),
    }
}

/// Joins consecutive neighbours, marking the seed in the weight.
struct Chain;

impl CliqueSampler<f64> for Chain {
    fn sample(&self, entries: Vec<(u32, f64)>, seed: u64) -> Vec<(u32, u32, f64)> {
        entries
            .windows(2)
            .map(|pair| (pair[0].0, pair[1].0, seed as f64))
            .collect()
    }
    fn sample_multi(&self, entries: Vec<(u32, f64)>, split: u32, seed: u64) -> Vec<(u32, u32, f64)> {
        entries
            .windows(2)
            .map(|pair| (pair[0].0, pair[1].0, seed as f64 * split as f64))
            .collect()
    }
}

#[test]
fn every_star_with_two_neighbours_is_sampled_with_its_own_seed() {
    let table = cross_tab();
    let elimination = Elimination::new(&table, &F64).expect("elimination");
    let single = SampledCliqueEmitter::new(&ApproxSchurConfig { seed: 40, split: 1 });
    assert_eq!(
        elimination.par_emit(&single, &Chain, &F64),
        [(0, 1, 42.0)]
    );
    let multi = SampledCliqueEmitter::new(&ApproxSchurConfig { seed: 40, split: 3 });
    assert_eq!(
        elimination.par_emit(&multi, &Chain, &F64),
        [(0, 1, 126.0)]
    );
}

#[test]
fn sorting_twice_changes_nothing_and_merging_commutes() {
    let mut a = vec![(4u32, 1u32, 1.5), (0, 2, 2.0), (4, 1, 0.5), (1, 1, 3.0)];
    let mut b = vec![(1u32, 1u32, 10.0), (9, 0, 20.0), (0, 0, 30.0)];
    sort_and_dedup(&mut a, &F64);
    sort_and_dedup(&mut b, &F64);
    let once = a.clone();
    sort_and_dedup(&mut a, &F64);
    assert_eq!(a, once);
    let merged = merge_dedup(a.clone(), b.clone(), &F64);
    assert_eq!(
        merged,
        [
            (0, 0, 30.0),
            (0, 2, 2.0),
            (1, 1, 13.0),
            (4, 1, 2.0),
            (9, 0, 20.0)
        ]
    );
    assert_eq!(merge_dedup(b, a.clone(), &F64), merged);
    assert_eq!(merge_dedup(a.clone(), vec![], &F64), a);
    assert_eq!(merge_dedup(vec![], a.clone(), &F64), a);
}

#[test]
fn merging_sorted_parts_is_sorting_the_whole() {
    let a = vec![(3u32, 1u32, 1.0), (0, 0, 2.0), (3, 1, 4.0), (1, 9, 8.0)];
    let b = vec![(1u32, 9u32, 16.0), (3, 1, 32.0), (0, 4, 64.0)];
    let mut whole: Vec<(u32, u32, f64)> = a.iter().chain(&b).copied().collect();
    sort_and_dedup(&mut whole, &F64);
    let (mut left, mut right) = (a, b);
    let weight: f64 = left.iter().chain(&right).map(|e| e.2).sum();
    sort_and_dedup(&mut left, &F64);
    sort_and_dedup(&mut right, &F64);
    let merged = merge_dedup(left, right, &F64);
    assert_eq!(merged, whole);
    assert_eq!(merged.iter().map(|e| e.2).sum::<f64>(), weight);
}
