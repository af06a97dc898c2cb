use jp2lam::cli::parse_quality;
use jp2lam::decode_markers::WaveletTransform;
use jp2lam::model::{EncodeOptions, Image, OutputFormat};
use jp2lam::rate_types::PassKind;
use jp2lam::t1_decode::decode_codeblock;
use jp2lam::t1_encode::{encode_codeblock, encode_codeblock_termall, plan_coding_passes, PassCodingMode, PassTermination};
use jp2lam::plan_types::BandOrientation;
use jp2lam::{decode_jp2, decode_jp2_coefficients, encode, BatchEncoder};

fn gray(width: u32, height: u32) -> Image {
    let data: Vec<u8> = (0..width * height).map(|i| (i * 37 % 256) as u8).collect();
    Image::from_gray_bytes(width, height, &data).expect("gray image")
}

#[test]
fn refused_quality_token_names_the_token() {
    assert_eq!(parse_quality("q101"), Err("invalid quality `q101`; expected q0..q100".to_string()));
    assert_eq!(parse_quality("qabc"), Err("invalid quality `qabc`; expected q0..q100".to_string()));
}

#[test]
fn codeblock_refusals_carry_their_messages() {
    let empty = decode_codeblock(1, 1, BandOrientation::Ll, 1, 0, 1, &[]).expect_err("empty");
    assert_eq!(empty.message(), "non-empty code-block has no compressed bytes");
    let many = decode_codeblock(1, 1, BandOrientation::Ll, 1, 0, 2, &[0]).expect_err("too many passes");
    assert_eq!(many.message(), "code-block pass count 2 exceeds maximum 1 for 1 magnitude bit-planes");
}

#[test]
fn coefficients_of_a_lossless_file_are_its_5_3_coefficients() {
    let options = EncodeOptions { quality: 100, format: OutputFormat::Jp2 };
    let bytes = encode(&gray(9, 7), &options).expect("encode");
    let (jp2, header, tiles) = decode_jp2_coefficients(&bytes).expect("coefficients");
    assert_eq!((jp2.width, jp2.height), (9, 7));
    assert_eq!(header.cod.transform, WaveletTransform::Reversible53);
    assert_eq!(tiles.len(), 1);
    assert_eq!(tiles[0].coefficients.len(), 63);
    assert!(decode_jp2_coefficients(&[0u8, 1, 2]).is_err());
    let image = decode_jp2(&bytes).expect("decode");
    assert_eq!(image.components[0].data, gray(9, 7).components[0].data);
}

#[test]
fn batch_mismatch_names_the_profile() {
    let options = EncodeOptions { quality: 100, format: OutputFormat::J2k };
    let mut encoder = BatchEncoder::new(options);
    encoder.encode_one(&gray(4, 4)).expect("first");
    let err = encoder.encode_one(&gray(5, 4)).expect_err("mismatch");
    assert_eq!(err.message(), "batch item profile mismatch");
}

#[test]
fn coded_passes_carry_kind_bitplane_and_running_length() {
    let coefficients = vec![5, -3, 0, 1];
    let block = encode_codeblock(&coefficients, 2, 2, BandOrientation::Ll, 4, (0, 0, 2, 2)).expect("block");
    assert_eq!(block.magnitude_bitplanes, 3);
    assert_eq!(block.zero_bitplanes, 1);
    assert_eq!(block.passes.len(), 7);
    let kinds: Vec<PassKind> = block.passes.iter().map(|p| p.kind).collect();
    assert_eq!(kinds, vec![
        PassKind::Cleanup,
        PassKind::SignificancePropagation, PassKind::MagnitudeRefinement, PassKind::Cleanup,
        PassKind::SignificancePropagation, PassKind::MagnitudeRefinement, PassKind::Cleanup,
    ]);
    let planes: Vec<u8> = block.passes.iter().map(|p| p.bitplane).collect();
    assert_eq!(planes, vec![2, 1, 1, 1, 0, 0, 0]);
    let mut running = 0;
    for (k, p) in block.passes.iter().enumerate() {
        running += p.length;
        assert_eq!(p.pass_index as usize, k);
        assert_eq!(p.cumulative_length, running);
        assert_eq!(p.terminated, k == 6);
    }
    assert_eq!(running, block.data.len());
}

#[test]
fn magnitudes_above_the_subband_planes_leave_no_zero_planes() {
    let block = encode_codeblock(&[9], 1, 1, BandOrientation::Ll, 2, (0, 0, 1, 1)).expect("block");
    assert_eq!(block.magnitude_bitplanes, 4);
    assert_eq!(block.zero_bitplanes, 0);
    assert_eq!(block.passes.len(), 10);
}

#[test]
fn planned_passes_count_significance_per_plane() {
    let plan = plan_coding_passes(&[5, -3, 0, 1], 3);
    assert_eq!(plan.len(), 7);
    let rows: Vec<(PassKind, u8, u16, usize, usize, usize)> = plan
        .iter()
        .map(|p| (p.kind, p.bitplane, p.pass_index, p.significant_before, p.newly_significant, p.significant_after))
        .collect();
    assert_eq!(rows, vec![
        (PassKind::Cleanup, 2, 0, 0, 1, 1),
        (PassKind::SignificancePropagation, 1, 1, 1, 1, 2),
        (PassKind::MagnitudeRefinement, 1, 2, 2, 0, 2),
        (PassKind::Cleanup, 1, 3, 2, 0, 2),
        (PassKind::SignificancePropagation, 0, 4, 2, 1, 3),
        (PassKind::MagnitudeRefinement, 0, 5, 3, 0, 3),
        (PassKind::Cleanup, 0, 6, 3, 0, 3),
    ]);
    assert!(plan_coding_passes(&[7], 0).is_empty());
}

#[test]
fn coded_passes_carry_mode_termination_significance_and_bytes() {
    let coefficients = vec![5, -3, 0, 1];
    let block = encode_codeblock(&coefficients, 2, 2, BandOrientation::Ll, 4, (0, 0, 2, 2)).expect("block");
    let last = block.passes.len() - 1;
    for (k, p) in block.passes.iter().enumerate() {
        assert_eq!(p.coding_mode, PassCodingMode::Mq);
        assert_eq!(p.termination, PassTermination::TermAll);
        assert!(!p.segmark);
        if k == last {
            assert_eq!(p.bytes, block.data);
        } else {
            assert!(p.bytes.is_empty());
        }
    }
    // Top plane (bit 2): only 5 becomes significant in the first cleanup pass.
    assert_eq!((block.passes[0].significant_before, block.passes[0].newly_significant), (0, 1));
    let total: usize = block.passes.iter().map(|p| p.newly_significant).sum();
    assert_eq!(total, 3);
    // Refinement passes make nothing significant.
    assert_eq!(block.passes[2].newly_significant, 0);
    assert_eq!(block.passes[5].newly_significant, 0);
}

#[test]
fn quantized_coefficients_come_back_from_the_lossy_codestream() {
    let image = gray(9, 7);
    let options = EncodeOptions { quality: 60, format: OutputFormat::Jp2 };
    let plane: Vec<i32> = (0..63).map(|i| ((i * 7) % 23) - 11).collect();
    let bytes = jp2lam::encode_quantized(&image, &options, &vec![plane.clone()]).expect("lossy encode");
    let (jp2, header, tiles) = decode_jp2_coefficients(&bytes).expect("coefficients");
    assert_eq!((jp2.width, jp2.height), (9, 7));
    assert_eq!(header.cod.transform, WaveletTransform::Irreversible97);
    assert_eq!(tiles[0].coefficients, plane);
    assert!(decode_jp2(&bytes).is_err());
}

#[test]
fn quantized_lane_refuses_lossless_quality_and_wrong_shapes() {
    let image = gray(4, 4);
    let lossless = EncodeOptions { quality: 100, format: OutputFormat::J2k };
    assert!(matches!(
        jp2lam::encode_quantized(&image, &lossless, &vec![vec![0; 16]]),
        Err(jp2lam::Jp2LamError::InvalidInput(_))
    ));
    let lossy = EncodeOptions { quality: 50, format: OutputFormat::J2k };
    assert!(matches!(
        jp2lam::encode_quantized(&image, &lossy, &vec![vec![0; 15]]),
        Err(jp2lam::Jp2LamError::EncodeFailed(_))
    ));
}

#[test]
fn termall_terminates_every_pass_and_joins_their_codewords() {
    let coefficients = vec![5, -3, 0, 1];
    let single = encode_codeblock(&coefficients, 2, 2, BandOrientation::Ll, 4, (0, 0, 2, 2)).expect("block");
    let block = encode_codeblock_termall(&coefficients, 2, 2, BandOrientation::Ll, 4, (0, 0, 2, 2));
    assert_eq!(block.magnitude_bitplanes, 3);
    assert_eq!(block.zero_bitplanes, 1);
    assert_eq!(block.passes.len(), 7);
    let mut joined = Vec::new();
    for (k, p) in block.passes.iter().enumerate() {
        assert_eq!(p.pass_index as usize, k);
        assert_eq!(p.kind, single.passes[k].kind);
        assert_eq!(p.bitplane, single.passes[k].bitplane);
        assert_eq!(p.coding_mode, PassCodingMode::Mq);
        assert_eq!(p.termination, PassTermination::TermAll);
        assert!(!p.segmark);
        assert!(p.terminated);
        assert!(!p.bytes.is_empty());
        assert_eq!(p.length, p.bytes.len());
        joined.extend_from_slice(&p.bytes);
        assert_eq!(p.cumulative_length, joined.len());
        assert_eq!(
            (p.significant_before, p.newly_significant),
            (single.passes[k].significant_before, single.passes[k].newly_significant)
        );
    }
    assert_eq!(block.data, joined);
    // Seven terminated segments cost more than one.
    assert!(block.data.len() > single.data.len());
}

#[test]
fn termall_on_one_bit_plane_is_the_single_segment() {
    let coefficients = vec![1, 0, -1, 1];
    let single = encode_codeblock(&coefficients, 2, 2, BandOrientation::Hl, 2, (0, 0, 2, 2)).expect("block");
    let block = encode_codeblock_termall(&coefficients, 2, 2, BandOrientation::Hl, 2, (0, 0, 2, 2));
    assert_eq!(block.passes.len(), 1);
    assert_eq!(block.data, single.data);
    assert_eq!(block.passes[0].bytes, single.data);
    let empty = encode_codeblock_termall(&[0, 0], 2, 1, BandOrientation::Ll, 3, (0, 0, 2, 1));
    assert_eq!((empty.magnitude_bitplanes, empty.zero_bitplanes), (0, 3));
    assert!(empty.passes.is_empty() && empty.data.is_empty());
}

#[test]
fn wrong_buffer_lengths_are_refused_with_the_sizes() {
    let err = Image::from_gray_bytes(3, 2, &[0u8; 5]).expect_err("short gray buffer");
    assert_eq!(err.message(), "Gray buffer length 5 does not match 3\u{d7}2=6");
    let err = Image::from_rgb_bytes(2, 2, &[0u8; 11]).expect_err("short rgb buffer");
    assert_eq!(err.message(), "RGB buffer length 11 does not match 2\u{d7}2\u{d7}3=12");
}
