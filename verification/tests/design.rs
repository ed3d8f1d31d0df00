use std::borrow::Cow;

use within::binary64::Binary64;
use within::domain::{
    map_to_internal_order, retained_non_singletons, stable_argsort, Design, DesignOptions, Effect,
    Loading, NonEmpty,
};
use within::error::BuildError;
use within::layout::{CoefficientAddress, CoefficientLayout};
use within::observation::ObservationFrame;
use within::domain::Channel;

fn bits(values: &[f64]) -> Vec<Binary64> {
    values
        .iter()
        .map(|v| Binary64 { bits: v.to_bits() })
        .collect()
}

fn floats(values: &[Binary64]) -> Vec<f64> {
    values.iter().map(|v| f64::from_bits(v.bits)).collect()
}

fn frame(categorical: Vec<Vec<u32>>, continuous: Vec<Vec<f64>>) -> ObservationFrame<'static> {
    ObservationFrame::new(
        categorical.into_iter().map(Cow::Owned).collect(),
        continuous.iter().map(|c| Cow::Owned(bits(c))).collect(),
    )
    .unwrap()
}

#[test]
fn stable_argsort_branches_agree_with_a_stable_reference() {
    let mut state = 0x2545_f491_4f6c_dd1du64;
    let mut next = move || {
        state ^= state << 13;
        state ^= state >> 7;
        state ^= state << 17;
        state
    };
    for (n_obs, n_levels, key_span) in [
        (0usize, 0usize, 1usize),
        (0, 4, 4),
        (1, 1, 1),
        (997, 1, 1),
        (997, 16, 16),
        (997, 996, 996),
        (997, 997, 997),
        (997, 998, 998),
        (997, 50_000, 50_000),
        (4096, 4096, 8),
        (4096, 4096, 4096),
    ] {
        assert!(key_span <= n_levels.max(1), "keys must stay below n_levels");
        let key: Vec<u32> = (0..n_obs)
            .map(|_| (next() % key_span as u64) as u32)
            .collect();
        let mut expected: Vec<u32> = (0..n_obs as u32).collect();
        expected.sort_by_key(|&i| key[i as usize]);
        assert_eq!(
            stable_argsort(&key, n_levels),
            expected,
            "n_obs={n_obs} n_levels={n_levels}"
        );
    }
}

#[test]
fn build_rejects_dof_space_exceeding_u32() {
    let err = Design::from_frame(frame(vec![vec![u32::MAX]], vec![])).unwrap_err();
    assert!(matches!(
        err,
        BuildError::DofSpaceExceedsU32 { n_dofs } if n_dofs == u32::MAX as usize + 1
    ));
}

#[test]
fn validate_weights_checks_count_and_finiteness() {
    let design = Design::from_frame(frame(vec![vec![0, 0, 0, 0, 0]], vec![])).unwrap();
    assert!(design.validate_weights(None).is_ok());
    assert!(design
        .validate_weights(Some(&bits(&[1.0, 2.0, 3.0, 4.0, 5.0])))
        .is_ok());
    // Zero weights are valid (an excluded observation).
    assert!(design
        .validate_weights(Some(&bits(&[0.0, 1.0, 2.0, 3.0, 4.0])))
        .is_ok());
    // Length mismatch.
    assert!(design.validate_weights(Some(&bits(&[1.0, 2.0]))).is_err());
    // Negative / non-finite weights are rejected with the offending index.
    assert!(matches!(
        design.validate_weights(Some(&bits(&[1.0, -2.0, 3.0, 4.0, 5.0]))),
        Err(BuildError::InvalidWeight { index: 1, .. })
    ));
    assert!(matches!(
        design.validate_weights(Some(&bits(&[1.0, 2.0, f64::NAN, 4.0, 5.0]))),
        Err(BuildError::InvalidWeight { index: 2, .. })
    ));
    assert!(matches!(
        design.validate_weights(Some(&bits(&[1.0, 2.0, 3.0, f64::INFINITY, 5.0]))),
        Err(BuildError::InvalidWeight { index: 3, .. })
    ));
}

#[test]
fn weight_count_is_reported_with_both_numbers() {
    let design = Design::from_frame(frame(vec![vec![0, 0, 0]], vec![])).unwrap();
    match design.validate_weights(Some(&bits(&[f64::NAN]))) {
        Err(BuildError::WeightCountMismatch { expected, got }) => {
            assert_eq!((expected, got), (3, 1));
        }
        other => panic!("unexpected {:?}", other),
    }
    // Negative zero counts as zero.
    assert!(design
        .validate_weights(Some(&bits(&[-0.0, 1.0, f64::MAX])))
        .is_ok());
}

#[test]
fn from_frame_sorts_owned_unsorted_dominant() {
    let design =
        Design::from_frame(frame(vec![vec![2, 0, 1, 0], vec![0, 0, 1, 1]], vec![])).unwrap();

    assert_eq!(design.rows.as_deref(), Some(&[1u32, 3, 2, 0][..]));
    assert!(design.terms[0].sorted);
    assert!(!design.terms[1].sorted);

    assert_eq!(design.frame.level_column(0), [0, 0, 1, 2]);
    assert_eq!(design.frame.level_column(1), [0, 1, 1, 0]);
}

#[test]
fn rescan_marks_nested_factor_sorted_after_permutation() {
    let col0 = vec![3u32, 0, 2, 1];
    let col1: Vec<u32> = col0.iter().map(|&v| v / 2).collect();
    let design = Design::from_frame(frame(vec![col0, col1], vec![])).unwrap();
    assert!(design.rows.is_some());
    assert!(design.terms[0].sorted);
    assert!(design.terms[1].sorted);
}

#[test]
fn from_frame_keeps_sorted_input() {
    let design =
        Design::from_frame(frame(vec![vec![0, 0, 1, 2], vec![1, 0, 1, 0]], vec![])).unwrap();
    assert!(design.rows.is_none());
    assert!(design.terms[0].sorted);
    assert!(!design.terms[1].sorted);
}

#[test]
fn unsorted_construction_keeps_caller_order() {
    let design = Design::from_frame_unsorted(frame(vec![vec![2, 0, 1, 0]], vec![])).unwrap();
    assert!(design.rows.is_none());
    assert_eq!(design.frame.level_column(0), [2, 0, 1, 0]);
    assert!(!design.terms[0].sorted);
}

#[test]
fn design_options_default_preserves_singletons() {
    let design = DesignOptions::default()
        .from_frame(frame(vec![vec![0, 0, 1], vec![0, 1, 1]], vec![]))
        .unwrap();

    assert_eq!(design.input_n_obs(), 3);
    assert_eq!(design.n_obs(), 3);
}

#[test]
fn singleton_detection_matches_pyfixest_fixtures() {
    let cases = [
        (
            vec![
                vec![0, 0, 0, 0, 0],
                vec![2, 2, 1, 1, 1],
                vec![1, 1, 3, 2, 2],
            ],
            Some(vec![0, 1, 3, 4]),
        ),
        (
            vec![
                vec![0, 0, 3, 0, 0],
                vec![2, 2, 1, 1, 1],
                vec![1, 1, 2, 1, 2],
            ],
            Some(vec![0, 1]),
        ),
        (
            vec![
                vec![0, 0, 0, 0, 0],
                vec![2, 2, 1, 1, 1],
                vec![1, 1, 1, 2, 2],
            ],
            None,
        ),
    ];

    for (categorical, expected) in cases {
        let input = frame(categorical, vec![]);
        assert_eq!(retained_non_singletons(&input).unwrap(), expected);
    }
}

#[test]
fn design_options_iteratively_drop_singletons_before_one_final_gather() {
    let design = DesignOptions::default()
        .drop_singletons(true)
        .from_frame(frame(
            vec![vec![1, 0, 1, 0, 2, 2, 3], vec![1, 0, 0, 1, 2, 3, 3]],
            vec![vec![10.0, 11.0, 12.0, 13.0, 14.0, 15.0, 16.0]],
        ))
        .unwrap();

    assert_eq!(design.rows.as_deref(), Some(&[1, 2, 0, 3][..]));
    assert_eq!(design.input_n_obs(), 7);
    assert_eq!(design.n_obs(), 4);
    assert_eq!(design.frame.level_column(0), &[0, 1, 1, 0]);
    assert_eq!(design.frame.level_column(1), &[0, 0, 1, 1]);
    assert_eq!(
        floats(design.frame.loading_column(0)),
        &[11.0, 12.0, 10.0, 13.0]
    );

    let restored = floats(&design.from_internal_order(bits(&[1.0, 2.0, 3.0, 4.0])));
    assert_eq!(&restored[..4], &[3.0, 1.0, 2.0, 4.0]);
    assert!(restored[4..].iter().all(|value| value.is_nan()));
}

#[test]
fn design_options_reject_when_singletons_remove_every_observation() {
    let result = DesignOptions::default()
        .drop_singletons(true)
        .from_frame(frame(vec![vec![0, 1], vec![0, 1]], vec![]));

    assert!(matches!(result, Err(BuildError::EmptyObservations)));
}

#[test]
fn continuous_column_stays_row_aligned_after_locality_sort() {
    let design = Design::from_frame(frame(
        vec![vec![2, 0, 1, 0]],
        vec![vec![10.0, 20.0, 30.0, 40.0]],
    ))
    .unwrap();

    let perm = design.rows.as_ref().expect("permutation applied");
    assert_eq!(perm, &[1, 3, 2, 0]);
    assert_eq!(design.frame.level_column(0), [0, 0, 1, 2]);
    assert_eq!(
        floats(design.frame.loading_column(0)),
        [20.0, 40.0, 30.0, 10.0]
    );
}

#[test]
fn validation_ignores_weights_on_removed_rows() {
    let weights = bits(&[1.0, f64::NAN, 1.0, 1.0, f64::NAN]);
    let design = DesignOptions::default()
        .drop_singletons(true)
        .weights(Cow::Borrowed(&weights[..]))
        .from_frame(frame(vec![vec![0, 1, 0, 0, 2]], vec![]))
        .unwrap();

    let stored = floats(design.weights().expect("weights retained"));
    assert_eq!(stored.len(), weights.len());
    assert_eq!(stored[0], 1.0);
    assert!(stored[1].is_nan());
    assert_eq!(&stored[2..4], &[1.0, 1.0]);
    assert!(stored[4].is_nan());
    let bad = bits(&[1.0, f64::NAN, -1.0, 1.0, f64::NAN]);
    assert!(matches!(
        DesignOptions::default()
            .drop_singletons(true)
            .weights(Cow::Borrowed(&bad[..]))
            .from_frame(frame(vec![vec![0, 1, 0, 0, 2]], vec![])),
        Err(BuildError::InvalidWeight {
            index: 2,
            value
        }) if f64::from_bits(value.bits) == -1.0
    ));
}

#[test]
fn ordering_is_generic_and_borrows_only_for_identity() {
    let identity = Design::from_frame(frame(vec![vec![0, 0, 1]], vec![])).unwrap();
    let values = ["a", "b", "c"];
    assert!(matches!(
        identity.to_internal_order(&values),
        Cow::Borrowed(_)
    ));

    let sorted = Design::from_frame(frame(vec![vec![2, 0, 1, 0]], vec![])).unwrap();
    let values = ["a", "b", "c", "d"];
    assert_eq!(
        sorted.to_internal_order(&values).as_ref(),
        &["b", "d", "c", "a"]
    );
}

#[test]
fn into_owned_detaches_option_weights() {
    let weights = bits(&[1.0, 2.0, 3.0]);
    let design = DesignOptions::default()
        .weights(Cow::Borrowed(weights.as_slice()))
        .from_frame(frame(vec![vec![0, 0, 1]], vec![]))
        .unwrap()
        .into_owned();
    drop(weights);

    assert_eq!(design.weights(), Some(&bits(&[1.0, 2.0, 3.0])[..]));
    assert!(matches!(
        design.options().weights.as_ref(),
        Some(Cow::Owned(_))
    ));
}

#[test]
fn new_lays_out_slope_terms_term_major() {
    let f0 = [0u32, 0, 1, 1];
    let f1 = [0u32, 2, 1, 0];
    let z0 = bits(&[1.0, 2.0, 3.0, 4.0]);
    let z1 = bits(&[5.0, 6.0, 7.0, 8.0]);
    let effects = vec![
        Effect::new(&f0, true, vec![&z0[..], &z1[..]]).unwrap(),
        Effect::new(&f1, true, vec![]).unwrap(),
        Effect::new(&f0, false, vec![&z1[..]]).unwrap(),
    ];
    let design = Design::new(effects).unwrap();

    assert_eq!(design.terms[0].offset, 0);
    assert_eq!(design.terms[0].n_dofs(), 6);
    assert_eq!(design.terms[1].offset, 6);
    assert_eq!(design.terms[1].n_dofs(), 3);
    assert_eq!(design.terms[2].offset, 9);
    assert!(!matches!(
        design.terms[2].columns.as_slice()[0],
        Loading::Constant
    ));
    assert_eq!(design.terms[2].n_dofs(), 2);
    assert_eq!(design.n_dofs, 11);

    assert_eq!(
        design.terms[0].columns.as_slice(),
        &[
            Loading::Constant,
            Loading::Covariate(0),
            Loading::Covariate(1)
        ]
    );
    assert_eq!(design.terms[2].columns.as_slice(), &[Loading::Covariate(2)]);
    assert_eq!(design.frame.loading_column(0), &z0[..]);
    assert_eq!(design.frame.loading_column(2), &z1[..]);
    assert_eq!(design.terms[0].column_base(2), 4);
    assert_eq!(design.channels(0).len(), 3);
    assert_eq!(
        design.loading(Channel { term: 0, column: 2 }),
        Loading::Covariate(1)
    );
}

#[test]
fn effect_needs_a_column() {
    let f = [0u32, 1];
    assert!(matches!(
        Effect::new(&f, false, vec![]),
        Err(BuildError::EmptyEffect)
    ));
}

#[test]
fn non_empty_runs_keep_their_items() {
    assert!(NonEmpty::<u32>::new(vec![]).is_none());
    let run = NonEmpty::new(vec![1u32, 2]).unwrap();
    assert_eq!(run.len(), 2);
    assert_eq!(run.map(|v| v + 1).as_slice(), &[2, 3]);
    assert_eq!(NonEmpty::of(7u32).as_slice(), &[7]);
    assert_eq!(Loading::Covariate(3u32).covariate(), Some(&3));
    assert_eq!(Loading::<u32>::Constant.covariate(), None);
    assert_eq!(Loading::Covariate(3u32).map(|v| v * 2), Loading::Covariate(6));
}

#[test]
fn selecting_then_restoring_gives_rows_back() {
    let design = DesignOptions::default()
        .drop_singletons(true)
        .from_frame(frame(vec![vec![1, 0, 1, 2]], vec![]))
        .unwrap();
    let y = bits(&[10.0, 20.0, 30.0, 40.0]);
    let internal = design.to_internal_order(&y).into_owned();
    assert_eq!(internal.len(), 2);
    let back = floats(&design.from_internal_order(internal));
    assert_eq!(back[0], 10.0);
    assert_eq!(back[2], 30.0);
    assert!(back[1].is_nan() && back[3].is_nan());
    assert_eq!(design.caller_row(0), 0);
    assert_eq!(design.caller_row(1), 2);
}

#[test]
fn restoring_then_selecting_changes_nothing() {
    for sort in [false, true] {
        for drop in [false, true] {
            let design = DesignOptions::default()
                .drop_singletons(drop)
                .with_locality_sort(sort)
                .from_frame(frame(vec![vec![1, 0, 1, 2, 0]], vec![]))
                .unwrap();
            let internal = bits(&(0..design.n_obs).map(|k| k as f64 + 1.0).collect::<Vec<_>>());
            let caller = design.from_internal_order(internal.clone());
            assert_eq!(caller.len(), 5);
            assert_eq!(design.to_internal_order(&caller).into_owned(), internal);
            let back = floats(&design.from_internal_order(
                design
                    .to_internal_order(&bits(&[10.0, 20.0, 30.0, 40.0, 50.0]))
                    .into_owned(),
            ));
            assert_eq!((back[0], back[1], back[2], back[4]), (10.0, 20.0, 30.0, 50.0));
            if drop {
                assert!(back[3].is_nan());
            } else {
                assert_eq!(back[3], 40.0);
            }
        }
    }
}

#[test]
fn row_maps_select_by_position() {
    let values = [5u32, 6, 7];
    let rows = [2u32, 0];
    assert_eq!(
        map_to_internal_order(Some(&rows), 3, &values).as_ref(),
        &[7, 5]
    );
}

fn at(term: usize, level: usize, column: usize) -> CoefficientAddress {
    CoefficientAddress {
        channel: Channel { term, column },
        level,
    }
}

#[test]
fn coefficient_layout_translates_addresses_both_ways() {
    // term 0: plain 3-level factor; term 1: 2-level factor with intercept and one slope.
    let f = [0u32, 1, 2, 0, 1, 2];
    let g = [0u32, 0, 1, 1, 0, 1];
    let z = bits(&[1.0, 2.0, 3.0, 4.0, 5.0, 6.0]);
    let design = Design::new(vec![
        Effect::new(&f, true, vec![]).expect("plain effect"),
        Effect::new(&g, true, vec![&z[..]]).expect("slope effect"),
    ])
    .expect("design");
    let layout = CoefficientLayout::from_design(&design);

    assert_eq!(layout.n_terms(), 2);
    assert_eq!(
        (layout.n_levels(0), layout.n_columns(0)),
        (Some(3), Some(1))
    );
    assert_eq!(
        (layout.n_levels(1), layout.n_columns(1)),
        (Some(2), Some(2))
    );
    assert_eq!(layout.n_levels(2), None);

    // Forward matches the documented `offset + column * n_levels + level`.
    assert_eq!(layout.index(at(0, 2, 0)), Some(2));
    assert_eq!(layout.index(at(1, 0, 0)), Some(3)); // term-1 intercept, level 0
    assert_eq!(layout.index(at(1, 1, 1)), Some(6)); // term-1 slope, level 1
    assert_eq!(layout.n_dofs(), 7);

    // Out-of-range coordinates are rejected, not silently wrapped.
    assert_eq!(layout.index(at(1, 2, 0)), None); // level past n_levels
    assert_eq!(layout.index(at(1, 0, 2)), None); // column past n_columns
    assert_eq!(layout.index(at(2, 0, 0)), None); // term past n_terms
    assert_eq!(layout.address(7), None);

    // `address` inverts `index` for every flat slot.
    for i in 0..layout.n_dofs() {
        assert_eq!(layout.index(layout.address(i).expect("in range")), Some(i));
    }
}

#[test]
fn removing_singletons_twice_removes_nothing_more() {
    let columns = vec![vec![1u32, 0, 1, 0, 2, 2, 3], vec![1u32, 0, 0, 1, 2, 3, 3]];
    let kept = retained_non_singletons(&frame(columns.clone(), vec![]))
        .unwrap()
        .expect("some rows go");
    assert_eq!(kept, [0, 1, 2, 3]);
    let rest: Vec<Vec<u32>> = columns
        .iter()
        .map(|c| kept.iter().map(|&row| c[row as usize]).collect())
        .collect();
    assert_eq!(retained_non_singletons(&frame(rest, vec![])).unwrap(), None);
}
