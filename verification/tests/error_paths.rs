use within::domain::{Design, DesignOptions};
use within::error::{BuildError, WithinError};
use within::observation::FactorMajorStore;
use within::schwarz_precond::error as schwarz_error;
use within::schwarz_precond::error::SolveError;

#[test]
fn test_empty_observations_error() {
    let store = FactorMajorStore::new(vec![vec![], vec![]], 0).expect("store ok");
    let result = Design::from_store(store);
    assert!(result.is_err());
    match result.unwrap_err() {
        BuildError::EmptyObservations => {}
        other => panic!("Expected EmptyObservations, got: {:?}", other),
    }
}

#[test]
fn test_observation_count_mismatch_error() {
    let result = FactorMajorStore::new(vec![vec![0, 1, 2], vec![0, 1]], 3);
    assert!(result.is_err());
    match result.unwrap_err() {
        BuildError::ObservationCountMismatch { .. } => {}
        other => panic!("Expected ObservationCountMismatch, got: {:?}", other),
    }
}

#[test]
fn test_build_error_display_empty_observations() {
    let e = BuildError::EmptyObservations;
    assert_eq!(e.to_string(), "no observations provided");
}

#[test]
fn test_build_error_display_observation_count_mismatch() {
    let e = BuildError::ObservationCountMismatch {
        factor: 1,
        expected: 10,
        got: 5,
    };
    let s = e.to_string();
    assert!(s.contains("factor 1"));
    assert!(s.contains("5"));
    assert!(s.contains("10"));
}

#[test]
fn test_build_error_display_weight_count_mismatch() {
    let e = BuildError::WeightCountMismatch {
        expected: 10,
        got: 5,
    };
    let s = e.to_string();
    assert!(s.contains("5"));
    assert!(s.contains("10"));
}

#[test]
fn test_build_error_display_singular_diagonal() {
    let e = BuildError::SingularDiagonal {
        block: "test_block",
        index: 42,
    };
    let s = e.to_string();
    assert!(s.contains("test_block"));
    assert!(s.contains("42"));
}

#[test]
fn test_build_error_display_local_solver_build() {
    let e = BuildError::LocalSolverBuild("factorization failed".to_string());
    assert!(e.to_string().contains("factorization failed"));
}

fn out_of_bounds() -> schwarz_error::BuildError {
    schwarz_error::BuildError::GlobalIndexOutOfBounds {
        subdomain: 0,
        local_index: 1,
        global_index: 5,
        n_dofs: 3,
    }
}

#[test]
fn test_build_error_display_preconditioner() {
    let e = BuildError::Preconditioner(out_of_bounds());
    let s = e.to_string();
    assert!(s.contains("5"));
    assert!(s.contains("3"));
}

#[test]
fn test_within_error_display_build() {
    let e = WithinError::Build(BuildError::EmptyObservations);
    assert_eq!(e.to_string(), "no observations provided");
}

#[test]
fn test_within_error_display_solve() {
    let inner = SolveError::Synchronization { context: "test" };
    let e = WithinError::Solve(inner);
    assert!(e.to_string().contains("test"));
}

#[test]
fn test_build_error_source_leaf_variants_have_no_source() {
    let variants: Vec<BuildError> = vec![
        BuildError::EmptyObservations,
        BuildError::ObservationCountMismatch {
            factor: 0,
            expected: 1,
            got: 2,
        },
        BuildError::WeightCountMismatch {
            expected: 1,
            got: 2,
        },
        BuildError::SingularDiagonal {
            block: "b",
            index: 0,
        },
        BuildError::LocalSolverBuild("x".to_string()),
    ];
    for e in &variants {
        assert!(e.source().is_none(), "expected None source for {:?}", e);
    }
}

#[test]
fn test_build_error_source_preconditioner_chains() {
    let e = BuildError::Preconditioner(out_of_bounds());
    assert!(e.source().is_some());
}

#[test]
fn test_within_error_build_leaf_variant_has_no_source() {
    let e = WithinError::Build(BuildError::EmptyObservations);
    assert!(e.source().is_none());
}

#[test]
fn test_within_error_build_preconditioner_chains_through_transparent_wrapper() {
    let e = WithinError::Build(BuildError::Preconditioner(out_of_bounds()));
    assert!(e.source().is_some());
}

#[test]
fn test_within_error_solve_leaf_variant_has_no_source() {
    let inner = SolveError::Synchronization { context: "test" };
    let e = WithinError::Solve(inner);
    assert!(e.source().is_none());
}

#[test]
fn test_within_error_from_build_error() {
    let inner = BuildError::EmptyObservations;
    let e: WithinError = inner.into();
    match e {
        WithinError::Build(BuildError::EmptyObservations) => {}
        other => panic!("expected Build(EmptyObservations), got: {:?}", other),
    }
}

#[test]
fn test_within_error_from_solve_error() {
    let inner = SolveError::Synchronization { context: "test" };
    let e: WithinError = inner.into();
    match e {
        WithinError::Solve(_) => {}
        other => panic!("expected Solve, got: {:?}", other),
    }
}

#[test]
fn schwarz_messages_name_every_number() {
    assert_eq!(
        out_of_bounds().to_string(),
        "subdomain 0: global index at local position 1 is out of bounds (5 >= 3)"
    );
    let failed = SolveError::LocalSolveFailed {
        subdomain: 7,
        source: schwarz_error::LocalSolveError::BackendFailed {
            context: "ctx",
            message: "boom".to_string(),
        },
    };
    assert!(failed.to_string().contains("7"));
    assert!(failed.source().is_some());
    assert!(WithinError::Solve(failed).source().is_some());
}

#[test]
fn mismatching_factor_is_the_first_one() {
    let result = FactorMajorStore::new(vec![vec![0, 1], vec![0], vec![]], 2);
    match result {
        Err(BuildError::ObservationCountMismatch {
            factor,
            expected,
            got,
        }) => {
            assert_eq!((factor, expected, got), (1, 2, 1));
        }
        other => panic!("unexpected {:?}", other),
    }
}

#[test]
fn options_keep_their_defaults() {
    let options = DesignOptions::default();
    assert!(!options.drop_singletons);
    assert!(options.locality_sort);
    assert!(options.weights.is_none());
}
