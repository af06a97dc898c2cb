use jp2lam::reconstruct::{
    copy_block_to_tile, finalize_i32_samples, inverse_rct_centered,
};
use jp2lam::t1_decode::DecodedCodeBlockCoefficients;

#[test]
fn inverse_rct_uses_centered_unclipped_differences() {
    let mut planes = vec![vec![10], vec![80], vec![-30]];

    inverse_rct_centered(&mut planes).expect("inverse rct");

    assert_eq!(finalize_i32_samples(&planes.remove(0)), vec![96]);
    assert_eq!(finalize_i32_samples(&planes.remove(0)), vec![126]);
    assert_eq!(finalize_i32_samples(&planes.remove(0)), vec![206]);
}

#[test]
fn inverse_rct_rejects_wrong_plane_count() {
    let mut planes = vec![vec![1], vec![2]];
    let err = inverse_rct_centered(&mut planes).expect_err("two planes");
    assert!(err.is_decode_failure());
    assert_eq!(planes, vec![vec![1], vec![2]]);
}

#[test]
fn inverse_rct_rejects_mismatched_lengths() {
    let mut planes = vec![vec![1, 2], vec![2], vec![3]];
    assert!(inverse_rct_centered(&mut planes).is_err());
}

#[test]
fn finalize_shifts_and_clamps() {
    assert_eq!(
        finalize_i32_samples(&[-200, -128, 0, 127, 128, i32::MAX, i32::MIN]),
        vec![0, 0, 128, 255, 255, 255, 0]
    );
}

#[test]
fn block_copy_places_rows_at_offset() {
    let mut tile = vec![0i32; 12];
    let block = DecodedCodeBlockCoefficients { width: 2, height: 2, coefficients: vec![1, 2, 3, 4] };
    copy_block_to_tile(4, &mut tile, 1, 1, &block).expect("fits");
    assert_eq!(tile, vec![0, 0, 0, 0, 0, 1, 2, 0, 0, 3, 4, 0]);
}

#[test]
fn block_copy_past_tile_fails_and_leaves_tile() {
    let mut tile = vec![0i32; 8];
    let block = DecodedCodeBlockCoefficients { width: 2, height: 2, coefficients: vec![1, 2, 3, 4] };
    let err = copy_block_to_tile(4, &mut tile, 3, 1, &block).expect_err("past tile");
    assert!(err.is_decode_failure());
    assert_eq!(tile, vec![0; 8]);
}
