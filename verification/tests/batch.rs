use jp2lam::model::{EncodeOptions, Image, OutputFormat};
use jp2lam::{decode_batch, encode_batch, BatchDecoder, BatchEncoder, BatchProfile};

fn gray_image(width: u32, height: u32) -> Image {
    Image::from_gray_bytes(width, height, &vec![128; (width * height) as usize]).expect("gray image")
}

#[test]
fn batch_encoder_accepts_matching_profiles() {
    let options = EncodeOptions::default();
    let mut encoder = BatchEncoder::new(options);
    encoder.validate_or_set_profile(&gray_image(2, 2)).expect("first profile");
    encoder.validate_or_set_profile(&gray_image(2, 2)).expect("matching profile");
}

#[test]
fn batch_encoder_rejects_mismatched_dimensions() {
    let options = EncodeOptions::default();
    let mut encoder = BatchEncoder::new(options);
    encoder.validate_or_set_profile(&gray_image(2, 2)).expect("first profile");
    assert!(encoder.validate_or_set_profile(&gray_image(3, 2)).is_err());
}

#[test]
fn batch_encode_then_decode_lossless_pages() {
    let options = EncodeOptions { quality: 100, format: OutputFormat::Jp2 };
    let pages = vec![gray_image(8, 4), gray_image(8, 4)];
    let encoded = encode_batch(&pages, &options).expect("encode batch");
    assert_eq!(encoded.len(), 2);
    let streams: Vec<&[u8]> = encoded.iter().map(|b| b.as_slice()).collect();
    let decoded = decode_batch(&streams).expect("decode batch");
    assert_eq!(decoded.len(), 2);
    assert_eq!(decoded[1].components[0].data, pages[1].components[0].data);
}

#[test]
fn batch_encoder_counts_and_keeps_first_profile() {
    let options = EncodeOptions { quality: 100, format: OutputFormat::J2k };
    let mut encoder = BatchEncoder::new(options.clone());
    assert!(encoder.profile().is_none());
    encoder.encode_one(&gray_image(4, 4)).expect("first");
    assert_eq!(encoder.encoded_count(), 1);
    let profile = encoder.profile().expect("profile set").clone();
    assert_eq!(profile.width, 4);
    assert_eq!(profile.quality, 100);
    let err = encoder.encode_one(&gray_image(4, 5)).expect_err("mismatch");
    assert!(matches!(err, jp2lam::Jp2LamError::InvalidInput(_)));
    assert_eq!(encoder.encoded_count(), 1);
    let again = BatchProfile::from_image(&gray_image(4, 4), &options);
    assert!(again.same_as(&profile));
}

#[test]
fn batch_decoder_rejects_a_differently_sized_page() {
    let options = EncodeOptions { quality: 100, format: OutputFormat::Jp2 };
    let a = jp2lam::encode(&gray_image(4, 4), &options).expect("a");
    let b = jp2lam::encode(&gray_image(4, 6), &options).expect("b");
    let mut decoder = BatchDecoder::new();
    decoder.decode_one(&a).expect("first");
    assert!(decoder.decode_one(&b).is_err());
    assert_eq!(decoder.decoded_count(), 1);
}

#[test]
fn empty_batches_succeed_with_nothing() {
    let options = EncodeOptions { quality: 100, format: OutputFormat::Jp2 };
    let encoded = encode_batch(&[], &options).expect("empty encode batch");
    assert!(encoded.is_empty());
    let streams: Vec<&[u8]> = Vec::new();
    let decoded = decode_batch(&streams).expect("empty decode batch");
    assert!(decoded.is_empty());
}

#[test]
fn lossy_batch_is_refused() {
    let options = EncodeOptions { quality: 80, format: OutputFormat::Jp2 };
    assert!(encode_batch(&[gray_image(4, 4)], &options).is_err());
}

#[test]
fn batch_with_mismatched_page_is_refused() {
    let options = EncodeOptions { quality: 100, format: OutputFormat::J2k };
    let pages = vec![gray_image(4, 4), gray_image(4, 4), gray_image(5, 4)];
    let err = encode_batch(&pages, &options).expect_err("mismatch");
    assert!(matches!(err, jp2lam::Jp2LamError::InvalidInput(_)));
}

#[test]
fn decode_batch_refuses_a_non_jp2_stream() {
    let options = EncodeOptions { quality: 100, format: OutputFormat::Jp2 };
    let good = jp2lam::encode(&gray_image(4, 4), &options).expect("good");
    let bad: Vec<u8> = vec![1, 2, 3, 4];
    let streams: Vec<&[u8]> = vec![good.as_slice(), bad.as_slice()];
    assert!(decode_batch(&streams).is_err());
    let mut decoder = BatchDecoder::new();
    assert!(decoder.decode_one(&bad).is_err());
    assert!(decoder.profile().is_none());
    assert_eq!(decoder.decoded_count(), 0);
}

#[test]
fn encode_all_stops_at_the_first_failing_page_and_counts_those_before() {
    let mut encoder = BatchEncoder::new(EncodeOptions { quality: 100, format: OutputFormat::Jp2 });
    let pages = vec![gray_image(8, 8), gray_image(8, 8), gray_image(9, 8), gray_image(8, 8)];
    let err = encoder.encode_all(&pages).expect_err("third page differs");
    assert!(matches!(err, jp2lam::Jp2LamError::InvalidInput(_)));
    assert_eq!(encoder.encoded_count(), 2);
}
