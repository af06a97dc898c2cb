use jp2lam::mq::{MqCoder, T1_CTXNO_MAG, T1_CTXNO_ZC};
use jp2lam::plan_types::BandOrientation;
use jp2lam::t1_decode::decode_codeblock;
use jp2lam::tier1::{sign_context, sign_prediction_bit};

#[test]
fn cleanup_only_single_sample_decodes_positive_one() {
    let mut coder = MqCoder::new();
    coder.encode_with_ctx(T1_CTXNO_ZC, 1);
    let sign_ctx = sign_context(0);
    let prediction = sign_prediction_bit(0);
    coder.encode_with_ctx(sign_ctx, prediction);
    let bytes = coder.finish();

    let decoded = decode_codeblock(1, 1, BandOrientation::Ll, 1, 0, 1, &bytes).expect("decode");
    assert_eq!(decoded.coefficients, vec![1]);
}

#[test]
fn cleanup_and_refinement_single_sample_decodes_negative_three() {
    let mut coder = MqCoder::new();
    coder.encode_with_ctx(T1_CTXNO_ZC, 1);
    let sign_ctx = sign_context(0);
    let prediction = sign_prediction_bit(0);
    coder.encode_with_ctx(sign_ctx, 1 ^ prediction);
    coder.encode_with_ctx(T1_CTXNO_MAG, 1);
    let bytes = coder.finish();

    let decoded = decode_codeblock(1, 1, BandOrientation::Ll, 2, 0, 3, &bytes).expect("decode");
    assert_eq!(decoded.coefficients, vec![-3]);
}

#[test]
fn non_empty_codeblock_without_bytes_fails_fast() {
    let err = decode_codeblock(1, 1, BandOrientation::Ll, 1, 0, 1, &[])
        .expect_err("empty compressed bytes should fail")
        .describe();

    assert!(err.contains("no compressed bytes"), "{err}");
}

#[test]
fn impossible_pass_count_fails_fast() {
    let err = decode_codeblock(1, 1, BandOrientation::Ll, 1, 0, 2, &[0])
        .expect_err("too many passes for one bit-plane should fail")
        .describe();

    assert!(err.contains("exceeds maximum"), "{err}");
}

#[test]
fn zero_passes_decode_to_zeros() {
    let decoded = decode_codeblock(2, 3, BandOrientation::Hh, 4, 0, 0, &[]).expect("decode");
    assert_eq!(decoded.width, 2);
    assert_eq!(decoded.height, 3);
    assert_eq!(decoded.coefficients, vec![0; 6]);
}

#[test]
fn zero_bitplanes_above_band_bitplanes_fail() {
    let err = decode_codeblock(1, 1, BandOrientation::Ll, 2, 3, 1, &[0]).expect_err("must fail");
    assert!(err.is_decode_failure());
}
