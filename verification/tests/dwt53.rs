use jp2lam::dwt53::{forward_53_2d_in_place, inverse_53_2d_in_place};

fn max_decompositions(width: usize, height: usize) -> usize {
    let min_dim = width.min(height);
    if min_dim <= 1 {
        return 0;
    }
    usize::BITS as usize - 1 - min_dim.leading_zeros() as usize
}

fn tiny_patterns(width: usize, height: usize) -> Vec<(&'static str, Vec<i32>)> {
    let len = width * height;
    let mut patterns = vec![
        ("zeros", vec![0; len]),
        ("ones", vec![1; len]),
        ("horizontal_ramp", (0..height).flat_map(|_| (0..width).map(|x| x as i32)).collect()),
        ("vertical_ramp", (0..height).flat_map(|y| (0..width).map(move |_| y as i32)).collect()),
        ("checkerboard", (0..height).flat_map(|y| (0..width).map(move |x| ((x + y) & 1) as i32)).collect()),
    ];
    for y in 0..height {
        for x in 0..width {
            let mut data = vec![0; len];
            data[y * width + x] = 255;
            patterns.push(("impulse", data));
        }
    }
    patterns
}

#[test]
fn one_level_transform_matches_known_2x2_case() {
    let mut data = vec![1, 2, 3, 4];
    forward_53_2d_in_place(&mut data, 2, 2, 1).expect("forward dwt");
    assert_eq!(data, vec![3, 1, 2, 0]);
}

#[test]
fn one_level_transform_matches_known_1d_row_case() {
    let mut data = vec![10, 20, 30, 40];
    forward_53_2d_in_place(&mut data, 4, 1, 1).expect("forward row dwt");
    assert_eq!(data, vec![10, 33, 0, 10]);
}

#[test]
fn multi_level_transform_preserves_length_and_runs_on_odd_sizes() {
    let mut data = (0..35).collect::<Vec<_>>();
    forward_53_2d_in_place(&mut data, 5, 7, 2).expect("forward dwt");
    assert_eq!(data.len(), 35);
}

#[test]
fn forward_then_inverse_53_roundtrips_exactly_for_small_images() {
    for height in 1..=8 {
        for width in 1..=8 {
            let levels = max_decompositions(width, height).min(3) as u8;
            for (name, original) in tiny_patterns(width, height) {
                let mut data = original.clone();
                forward_53_2d_in_place(&mut data, width, height, levels).expect("forward dwt");
                inverse_53_2d_in_place(&mut data, width, height, levels).expect("inverse dwt");
                assert_eq!(data, original, "{name} failed for {width}x{height} with {levels} levels");
            }
        }
    }
}

#[test]
fn forward_then_inverse_53_roundtrips_exactly_at_5_levels_non_pow2() {
    let cases: &[(usize, usize, u8)] = &[(48, 40, 5), (64, 48, 5), (32, 32, 5)];
    for &(width, height, levels) in cases {
        for (name, original) in tiny_patterns(width, height) {
            let mut data = original.clone();
            forward_53_2d_in_place(&mut data, width, height, levels).expect("forward dwt");
            inverse_53_2d_in_place(&mut data, width, height, levels).expect("inverse dwt");
            assert_eq!(data, original, "{name} failed for {width}x{height} with {levels} levels");
        }
    }
}
