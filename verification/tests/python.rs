use within::config::{
    ApproxCholConfig, ApproxSchurConfig, LocalSolverConfig, LsmrOptions, PreconditionerConfig,
    ReductionStrategy, DEFAULT_DENSE_SCHUR_THRESHOLD, DEFAULT_TOL_BITS,
};
use within::python::{
    approx_schur_config, check_apply_length, check_batch_rows, columns_are_strided,
    extract_preconditioner_config, preconditioner_repr, reduction_from_int, reduction_to_int,
    resolve_dense_threshold, resolve_lsmr_config, resolve_preconditioner, ArgumentError,
    LocalSolverArgument, OptionsArgument, PreconditionerArgument, PreconditionerShortcut,
};
use within::solver::{PreconditionerInput, RESIDUAL_FLOOR_BITS};

type Argument = PreconditionerArgument<f64, ()>;

#[test]
fn constants_are_the_decimal_numbers() {
    assert_eq!(DEFAULT_TOL_BITS, 1e-8f64.to_bits());
    assert_eq!(RESIDUAL_FLOOR_BITS, 1e-15f64.to_bits());
    assert_eq!(within::config::DEFAULT_MAXITER, 1000);
}

#[test]
fn numbers_give_their_variants_back() {
    for shortcut in [
        PreconditionerShortcut::Additive,
        PreconditionerShortcut::Off,
    ] {
        assert_eq!(
            PreconditionerShortcut::from_int(shortcut.to_int()),
            Ok(shortcut)
        );
    }
    for strategy in [
        ReductionStrategy::Auto,
        ReductionStrategy::AtomicScatter,
        ReductionStrategy::ParallelReduction,
    ] {
        assert_eq!(reduction_from_int(reduction_to_int(strategy)), Ok(strategy));
    }
    assert_eq!(PreconditionerShortcut::Off.to_int(), 1);
    assert_eq!(reduction_to_int(ReductionStrategy::ParallelReduction), 2);
}

#[test]
fn other_numbers_are_refused() {
    assert_eq!(
        PreconditionerShortcut::from_int(-12),
        Err(ArgumentError::Value(
            "invalid PreconditionerConfig discriminant: -12".to_string()
        ))
    );
    assert_eq!(
        reduction_from_int(3),
        Err(ArgumentError::Value(
            "invalid ReductionStrategy discriminant: 3".to_string()
        ))
    );
    assert_eq!(
        reduction_from_int(i32::MIN),
        Err(ArgumentError::Value(
            "invalid ReductionStrategy discriminant: -2147483648".to_string()
        ))
    );
}

#[test]
fn sampling_needs_a_split() {
    match approx_schur_config(5, 2) {
        Ok(config) => assert_eq!((config.seed, config.split), (5, 2)),
        Err(e) => panic!("unexpected {:?}", e),
    }
    match approx_schur_config(5, 0) {
        Err(e) => assert_eq!(e, ArgumentError::Value("split must be >= 1".to_string())),
        Ok(_) => panic!("a split of zero was accepted"),
    }
}

#[test]
fn preconditioner_arguments_become_configurations() {
    assert!(matches!(
        extract_preconditioner_config(&Argument::Missing),
        Ok(None)
    ));
    assert!(matches!(
        extract_preconditioner_config(&Argument::Shortcut(PreconditionerShortcut::Off)),
        Ok(Some(PreconditionerConfig::Off))
    ));
    match extract_preconditioner_config(&Argument::Shortcut(PreconditionerShortcut::Additive)) {
        Ok(Some(PreconditionerConfig::Additive {
            local_solver,
            reduction,
        })) => {
            assert_eq!(local_solver.approx_chol.split_merge, Some(2));
            assert_eq!(reduction, ReductionStrategy::Auto);
        }
        _ => panic!("expected additive Schwarz"),
    }
    match extract_preconditioner_config(&Argument::AdditiveSchwarz {
        local_solver: LocalSolverArgument::Missing,
        reduction: ReductionStrategy::AtomicScatter,
    }) {
        Ok(Some(PreconditionerConfig::Additive {
            local_solver,
            reduction,
        })) => {
            let default = LocalSolverConfig::default();
            assert_eq!(local_solver.approx_chol, default.approx_chol);
            assert!(local_solver.approx_schur.is_none());
            assert_eq!(local_solver.dense_threshold, default.dense_threshold);
            assert_eq!(reduction, ReductionStrategy::AtomicScatter);
        }
        _ => panic!("expected additive Schwarz"),
    }
    match extract_preconditioner_config(&Argument::AdditiveSchwarz {
        local_solver: LocalSolverArgument::Config {
            approx_chol: Some(ApproxCholConfig {
                seed: 9,
                split_merge: None,
            }),
            approx_schur: None,
            dense_threshold: 3,
        },
        reduction: ReductionStrategy::Auto,
    }) {
        Ok(Some(PreconditionerConfig::Additive { local_solver, .. })) => {
            assert_eq!(local_solver.approx_chol.seed, 9);
            assert!(local_solver.approx_schur.is_none());
            assert_eq!(local_solver.dense_threshold, 3);
        }
        _ => panic!("expected additive Schwarz"),
    }
}

#[test]
fn arguments_of_other_types_are_refused() {
    assert_eq!(
        extract_preconditioner_config(&Argument::Other).err(),
        Some(ArgumentError::Type(
            "preconditioner must be PreconditionerConfig.Additive, PreconditionerConfig.Off, \
             AdditiveSchwarz(...), Preconditioner(...), or None"
                .to_string()
        ))
    );
    assert_eq!(
        extract_preconditioner_config(&Argument::AdditiveSchwarz {
            local_solver: LocalSolverArgument::Other,
            reduction: ReductionStrategy::Auto,
        })
        .err(),
        Some(ArgumentError::Type(
            "local_solver must be LocalSolverConfig or None".to_string()
        ))
    );
    assert_eq!(
        resolve_lsmr_config(OptionsArgument::Other).err(),
        Some(ArgumentError::Type("options must be LsmrOptions".to_string()))
    );
}

#[test]
fn solver_inputs_follow_from_arguments() {
    assert!(matches!(
        resolve_preconditioner(Argument::Missing),
        Ok(PreconditionerInput::Default)
    ));
    assert!(matches!(
        resolve_preconditioner(Argument::Shortcut(PreconditionerShortcut::Off)),
        Ok(PreconditionerInput::Config(PreconditionerConfig::Off))
    ));
    assert!(resolve_preconditioner(Argument::Other).is_err());
}

#[test]
fn options_are_passed_through_or_default() {
    let default = resolve_lsmr_config(OptionsArgument::Missing).expect("default");
    assert_eq!(f64::from_bits(default.tol.bits), 1e-8);
    assert_eq!((default.maxiter, default.local_size), (1000, None));
    let given = LsmrOptions {
        maxiter: 7,
        local_size: Some(3),
        ..LsmrOptions::default()
    };
    let options = resolve_lsmr_config(OptionsArgument::Lsmr(given)).expect("given");
    assert_eq!((options.maxiter, options.local_size), (7, Some(3)));
}

#[test]
fn defaults_of_the_local_solver() {
    assert_eq!(resolve_dense_threshold(None), DEFAULT_DENSE_SCHUR_THRESHOLD);
    assert_eq!(resolve_dense_threshold(Some(5)), 5);
    let schur = ApproxSchurConfig::default();
    assert_eq!((schur.seed, schur.split), (0, 1));
    assert_eq!(
        LocalSolverConfig::solver_default().approx_chol.split_merge,
        Some(2)
    );
    assert_eq!(
        LocalSolverConfig::default().approx_chol,
        ApproxCholConfig::default()
    );
    for config in [
        LocalSolverConfig::default(),
        LocalSolverConfig::solver_default(),
    ] {
        assert_eq!(config.approx_chol.seed, 0);
        assert_eq!(config.dense_threshold, 24);
    }
    assert!(LocalSolverConfig::default().approx_schur.is_none());
    match LocalSolverConfig::solver_default().approx_schur {
        Some(sampled) => assert_eq!((sampled.seed, sampled.split), (0, 1)),
        None => panic!("expected a sampled Schur complement"),
    }
    assert!(LocalSolverConfig::default().approx_chol.split_merge.is_none());
}

#[test]
fn strided_columns_are_noticed() {
    assert!(!columns_are_strided(5, 1, 5));
    assert!(columns_are_strided(5, 2, 1));
    assert!(columns_are_strided(5, 1, -5));
    assert!(columns_are_strided(5, 1, 0));
    assert!(!columns_are_strided(1, 7, -1));
    assert!(!columns_are_strided(0, 7, -1));
}

#[test]
fn shapes_are_checked_with_their_numbers() {
    assert_eq!(check_batch_rows(4, "categories", 4), Ok(()));
    assert_eq!(
        check_batch_rows(3, "categories", 14),
        Err(ArgumentError::Value(
            "Y has 3 rows but categories has 14 observations".to_string()
        ))
    );
    assert_eq!(
        check_batch_rows(0, "solver", 1),
        Err(ArgumentError::Value(
            "Y has 0 rows but solver has 1 observations".to_string()
        ))
    );
    assert_eq!(check_apply_length(2, 2), Ok(()));
    assert_eq!(
        check_apply_length(2, 30),
        Err(ArgumentError::Value(
            "x has length 2 but preconditioner expects 30".to_string()
        ))
    );
    assert_eq!(
        preconditioner_repr("Additive", 12),
        "Preconditioner(Additive, n=12)"
    );
}
