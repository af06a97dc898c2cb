use jp2lam::rate_types::{cumulative_to_incremental_passes, BlockSelection, PcrdError};

#[test]
fn cumulative_to_incremental_passes_works() {
    let layers = vec![
        vec![BlockSelection { block_id: 0, passes: 1 }, BlockSelection { block_id: 1, passes: 0 }],
        vec![BlockSelection { block_id: 0, passes: 3 }, BlockSelection { block_id: 1, passes: 1 }],
        vec![BlockSelection { block_id: 0, passes: 3 }, BlockSelection { block_id: 1, passes: 2 }],
    ];
    let inc = cumulative_to_incremental_passes(&layers).expect("incremental");
    assert_eq!(inc.len(), 3);
    assert_eq!(inc[0], vec![(0, 1), (1, 0)]);
    assert_eq!(inc[1], vec![(0, 2), (1, 1)]);
    assert_eq!(inc[2], vec![(0, 0), (1, 1)]);
}

#[test]
fn cumulative_to_incremental_rejects_pass_regression() {
    let layers = vec![
        vec![BlockSelection { block_id: 0, passes: 3 }],
        vec![BlockSelection { block_id: 0, passes: 1 }],
    ];
    let err = cumulative_to_incremental_passes(&layers);
    assert!(
        matches!(err, Err(PcrdError::NonMonotoneLayerSelection { .. })),
        "expected NonMonotoneLayerSelection, got {:?}",
        err
    );
    assert_eq!(
        err,
        Err(PcrdError::NonMonotoneLayerSelection { layer_index: 1, block_id: 0, previous_passes: 3, current_passes: 1 })
    );
}

#[test]
fn cumulative_to_incremental_rejects_uneven_layers() {
    let layers = vec![
        vec![BlockSelection { block_id: 0, passes: 1 }, BlockSelection { block_id: 1, passes: 1 }],
        vec![BlockSelection { block_id: 0, passes: 2 }],
    ];
    assert_eq!(
        cumulative_to_incremental_passes(&layers),
        Err(PcrdError::InconsistentSelectionBlockCounts { layer_index: 1, expected: 2, actual: 1 })
    );
    assert_eq!(cumulative_to_incremental_passes(&Vec::new()), Ok(Vec::new()));
}

#[test]
fn pcrd_errors_describe_themselves() {
    let e = PcrdError::NonMonotoneLayerSelection { layer_index: 1, block_id: 0, previous_passes: 3, current_passes: 1 };
    assert_eq!(e.message(), "layer 1 block 0 regressed in cumulative passes: 3 -> 1");
    let e = PcrdError::InconsistentSelectionBlockCounts { layer_index: 2, expected: 4, actual: 3 };
    assert_eq!(e.message(), "layer 2 has inconsistent block count: expected 4, got 3");
}
