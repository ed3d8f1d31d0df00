use std::borrow::Cow;

use within::arithmetic::Arithmetic;
use within::binary64::Binary64;
use within::domain::components::{bipartite_connected_components, extract_component};
use within::domain::cross_tab::{build_for_pair_with_active, find_all_active_levels};
use within::domain::factor_pairs::{
    build_pairs, component_global_indices, BipartiteComponent, Subdomain,
};
use within::domain::local_domains::{build_local_domains, split_into_subdomains};
use within::domain::Design;
use within::elimination::CrossTab;
use within::observation::{FactorMajorStore, ObservationFrame};

#[derive(Debug, Clone, Copy)]
struct Kit;

impl Arithmetic<f64> for Kit {
    fn zero(&self) -> f64 {
        0.0
    }
    fn one(&self) -> f64 {
        1.0
    }
    fn plus(&self, a: f64, b: f64) -> f64 {
        a + b
    }
    fn minus(&self, a: f64, b: f64) -> f64 {
        a - b
    }
    fn times(&self, a: f64, b: f64) -> f64 {
        a * b
    }
    fn divide(&self, a: f64, b: f64) -> f64 {
        a / b
    }
    fn square_root(&self, a: f64) -> f64 {
        a.sqrt()
    }
    fn magnitude(&self, a: f64) -> f64 {
        a.abs()
    }
    fn at_least(&self, a: f64, b: f64) -> bool {
        a >= b
    }
    fn is_positive(&self, a: f64) -> bool {
        a > 0.0
    }
    fn is_finite(&self, a: f64) -> bool {
        a.is_finite()
    }
    fn from_count(&self, count: u32) -> f64 {
        count as f64
    }
    fn from_binary64(&self, value: Binary64) -> f64 {
        f64::from_bits(value.bits)
    }
}


fn make_test_design() -> Design<'static> {
    let store = FactorMajorStore::new(
        vec![
            vec![0, 1, 2, 0, 1, 2],
            vec![0, 1, 0, 1, 0, 1],
            vec![0, 0, 1, 1, 0, 1],
        ],
        6,
    )
    .expect("valid factor-major store");
    Design::from_store(store).expect("valid test design")
}

fn domains(design: &Design<'_>) -> Vec<(Subdomain, CrossTab<f64>)> {
    build_local_domains::<f64, Kit>(design, None, &Kit)
}

#[test]
fn test_full_cover_domain_count() {
    let dm = make_test_design();
    let domain_pairs = domains(&dm);
    // 3 factor pairs; each pair may produce multiple components
    assert!(domain_pairs.len() >= 3);
}

#[test]
fn test_partition_of_unity() {
    let dm = make_test_design();
    let domain_pairs = domains(&dm);
    let n_dofs = dm.n_dofs;
    // Two-sided PoU: squared weights must sum to 1 at every DOF.
    let mut weight_sq_sum = vec![0.0; n_dofs];
    for (d, _) in &domain_pairs {
        for (i, &idx) in d.core.global_indices().iter().enumerate() {
            let w = 1.0 / (d.core.partition_weights().get(i) as f64).sqrt();
            weight_sq_sum[idx as usize] += w * w;
        }
    }
    for &ws in &weight_sq_sum {
        if ws > 0.0 {
            assert!((ws - 1.0f64).abs() < 1e-12, "Weight\u{b2} sum {ws} != 1.0");
        }
    }
}

#[test]
fn test_domains_cover_all_dofs() {
    let dm = make_test_design();
    let domain_pairs = domains(&dm);
    let mut covered = vec![false; dm.n_dofs];
    for (d, _) in &domain_pairs {
        for &idx in d.core.global_indices() {
            covered[idx as usize] = true;
        }
    }
    assert!(covered.iter().all(|&c| c), "Not all DOFs covered");
}

#[test]
fn every_unknown_is_covered_once_per_other_factor() {
    let dm = make_test_design();
    let mut covered = vec![0u32; dm.n_dofs];
    for (d, _) in &domains(&dm) {
        for (i, &idx) in d.core.global_indices().iter().enumerate() {
            covered[idx as usize] += 1;
            assert_eq!(d.core.partition_weights().get(i), 2);
        }
    }
    assert_eq!(covered, vec![2; dm.n_dofs]);
}

#[test]
fn pairs_come_in_lexicographic_order() {
    assert_eq!(build_pairs(0), []);
    assert_eq!(build_pairs(1), []);
    assert_eq!(
        build_pairs(4),
        [(0, 1), (0, 2), (0, 3), (1, 2), (1, 3), (2, 3)]
    );
}

#[test]
fn component_indices_follow_both_factors() {
    let component = BipartiteComponent {
        q_indices: vec![0, 2],
        r_indices: vec![1],
    };
    assert_eq!(
        component_global_indices(&component, &[10, 11, 12, 20, 21], 3),
        [10, 12, 21]
    );
}

fn unsorted(columns: Vec<Vec<u32>>) -> Design<'static> {
    let frame = ObservationFrame::new(columns.into_iter().map(Cow::Owned).collect(), vec![])
        .expect("frame");
    Design::from_frame_unsorted(frame).expect("design")
}

#[test]
fn cross_tabs_sum_weights_and_skip_unused_levels() {
    // level 1 of the first factor and level 0 of the second do not occur
    let d = unsorted(vec![vec![0, 2, 0, 2, 0], vec![1, 2, 1, 1, 2]]);
    let active = find_all_active_levels(&d);
    assert_eq!(active[0], [true, false, true]);
    assert_eq!(active[1], [false, true, true]);
    let w = [1.0, 2.0, 4.0, 8.0, 16.0];
    let (table, l2g) =
        build_for_pair_with_active(&d, Some(&w), 0, 1, &active, &Kit).expect("table");
    assert_eq!(l2g, [0, 2, 4, 5]);
    assert_eq!(table.diag_q, [21.0, 10.0]);
    assert_eq!(table.diag_r, [13.0, 18.0]);
    assert_eq!(table.c.indptr, [0, 2, 4]);
    assert_eq!(table.c.indices, [0, 1, 0, 1]);
    assert_eq!(table.c.data, [5.0, 16.0, 8.0, 2.0]);
    assert_eq!(table.ct.indptr, [0, 2, 4]);
    assert_eq!(table.ct.indices, [0, 1, 0, 1]);
    assert_eq!(table.ct.data, [5.0, 8.0, 16.0, 2.0]);
}

#[test]
fn components_are_cut_out_with_their_own_numbering() {
    // {q0, q2 | r0, r1} and {q1 | r2}
    let d = unsorted(vec![vec![0, 1, 2, 2], vec![0, 2, 0, 1]]);
    let active = find_all_active_levels(&d);
    let (table, l2g) =
        build_for_pair_with_active::<f64, Kit>(&d, None, 0, 1, &active, &Kit).expect("table");
    let components = bipartite_connected_components(&table);
    assert_eq!(components.list.len(), 2);
    assert_eq!(components.list[0].q_indices, [0, 2]);
    assert_eq!(components.list[0].r_indices, [0, 1]);
    assert_eq!(components.list[1].q_indices, [1]);
    assert_eq!(components.list[1].r_indices, [2]);
    let first = extract_component(&table, &components, 0);
    assert_eq!(first.diag_q, [1.0, 2.0]);
    assert_eq!(first.diag_r, [2.0, 1.0]);
    assert_eq!(first.c.indptr, [0, 1, 3]);
    assert_eq!(first.c.indices, [0, 0, 1]);
    assert_eq!(first.ct.indptr, [0, 2, 3]);
    assert_eq!(first.ct.indices, [0, 1, 1]);
    let parts = split_into_subdomains(table, &l2g, 3, (0, 1));
    assert_eq!(parts.len(), 2);
    assert_eq!(parts[0].0.core.global_indices(), [0, 2, 3, 4]);
    assert_eq!(parts[1].0.core.global_indices(), [1, 5]);
    assert_eq!(parts[1].0.factor_pair, (0, 1));
    assert_eq!(parts[1].1.c.indices, [0]);
}

#[test]
fn a_connected_table_stays_whole() {
    let d = unsorted(vec![vec![0, 0, 1], vec![0, 1, 1]]);
    let parts = domains(&d);
    assert_eq!(parts.len(), 1);
    assert_eq!(parts[0].0.core.global_indices(), [0, 1, 2, 3]);
    assert_eq!(parts[0].1.diag_q, [2.0, 1.0]);
    assert_eq!(parts[0].0.core.partition_weights().get(0), 1);
}

#[test]
fn one_factor_has_no_subdomains() {
    assert!(domains(&unsorted(vec![vec![0, 1, 0]])).is_empty());
}
