use jp2lam::codestream_write::{CodestreamParts, PacketSequenceBuilder, TilePart};
use jp2lam::decode_jp2;
use jp2lam::model::{ColorSpace, Component, EncodeOptions, Image, OutputFormat, Preset};
use jp2lam::plan::{irreversible_expounded_quant, encode_stepsize, reversible_exponent, EncodingPlan};
use jp2lam::plan_types::{BandOrientation, TilePartHeader};

fn gray_pattern(width: u32, height: u32) -> Image {
    let samples = (0..height)
        .flat_map(|y| (0..width).map(move |x| ((x * 7 + y * 11 + (x ^ y)) & 0xff) as u8))
        .collect::<Vec<_>>();
    Image::from_gray_bytes(width, height, &samples).expect("source image")
}

#[test]
fn decode_jp2_roundtrips_native_gray_lossless() {
    let width = 32;
    let height = 32;
    let image = gray_pattern(width, height);
    let encoded = jp2lam::encode(&image, &EncodeOptions { quality: 100, format: OutputFormat::Jp2 }).expect("encode jp2");

    let decoded = decode_jp2(&encoded).expect("decode jp2");
    assert_eq!(decoded.width, width);
    assert_eq!(decoded.height, height);
    assert_eq!(decoded.colorspace, ColorSpace::Gray);
    assert_eq!(decoded.components[0].data, image.components[0].data);
}

#[test]
fn rgb_lossless_roundtrips_through_the_decoder() {
    let width = 19u32;
    let height = 13u32;
    let mut rgb = Vec::new();
    for y in 0..height {
        for x in 0..width {
            rgb.push(((x * 13 + y * 3) & 0xff) as u8);
            rgb.push(((x * x + y) & 0xff) as u8);
            rgb.push((255 - ((x * 5 + y * 17) & 0xff)) as u8);
        }
    }
    let image = Image::from_rgb_bytes(width, height, &rgb).expect("rgb image");
    let encoded = jp2lam::encode(&image, &EncodeOptions { quality: 100, format: OutputFormat::Jp2 }).expect("encode");
    let decoded = decode_jp2(&encoded).expect("decode");
    assert_eq!(decoded.colorspace, ColorSpace::Srgb);
    for k in 0..3 {
        assert_eq!(decoded.components[k].data, image.components[k].data, "component {k}");
    }
}

#[test]
fn lossless_roundtrip_covers_odd_and_tiny_sizes() {
    for (w, h) in [(1u32, 1u32), (2, 3), (5, 1), (65, 70), (130, 7)] {
        let image = gray_pattern(w, h);
        let encoded = jp2lam::encode(&image, &EncodeOptions { quality: 100, format: OutputFormat::J2k }).expect("encode");
        assert_eq!(&encoded[0..2], &[0xff, 0x4f]);
        assert_eq!(&encoded[encoded.len() - 2..], &[0xff, 0xd9]);
        let wrapped = jp2lam::encode(&image, &EncodeOptions { quality: 100, format: OutputFormat::Jp2 }).expect("encode");
        let decoded = decode_jp2(&wrapped).expect("decode");
        assert_eq!(decoded.components[0].data, image.components[0].data, "{w}x{h}");
    }
}

#[test]
fn lossy_encoding_is_refused_by_the_integer_encoder() {
    let image = gray_pattern(8, 8);
    let err = jp2lam::encode(&image, &EncodeOptions { quality: 75, format: OutputFormat::Jp2 }).expect_err("lossy");
    assert!(err.is_unsupported_feature());
}

#[test]
fn encode_rejects_quality_above_100() {
    let image = gray_pattern(4, 4);
    let err = jp2lam::encode(&image, &EncodeOptions { quality: 101, format: OutputFormat::Jp2 }).expect_err("quality");
    assert!(matches!(err, jp2lam::Jp2LamError::InvalidInput(_)));
}

#[test]
fn reversible_exponents_match_expected_band_gains() {
    assert_eq!(reversible_exponent(8, BandOrientation::Ll), 8);
    assert_eq!(reversible_exponent(8, BandOrientation::Hl), 9);
    assert_eq!(reversible_exponent(8, BandOrientation::Lh), 9);
    assert_eq!(reversible_exponent(8, BandOrientation::Hh), 10);
}

#[test]
fn irreversible_stepsize_packing_is_stable() {
    assert_eq!(encode_stepsize(8096, 8), (9, 2000));
    assert_eq!(irreversible_expounded_quant(8, 6, 0, BandOrientation::Ll), (14, 1824));
}

fn one_pixel_plan() -> EncodingPlan {
    let image = Image {
        width: 1,
        height: 1,
        components: vec![Component { data: vec![0], width: 1, height: 1, precision: 8, signed: false, dx: 1, dy: 1 }],
        colorspace: ColorSpace::Gray,
    };
    EncodingPlan::build(&image, &EncodeOptions { quality: Preset::DocumentHigh.quality(), format: OutputFormat::J2k })
        .expect("build plan")
}

#[test]
fn parser_reemits_single_tile_codestream() {
    let bytes = [
        0xff, 0x4f, 0xff, 0x51, 0x00, 0x04, 0x12, 0x34, 0xff, 0x52, 0x00, 0x05, 0xaa, 0xbb, 0xcc, 0xff, 0x90,
        0x00, 0x0a, 0x00, 0x00, 0x00, 0x00, 0x00, 0x17, 0x00, 0x00, 0xff, 0x64, 0x00, 0x03, 0x01, 0xff, 0x93,
        0xde, 0xad, 0xbe, 0xef, 0xff, 0xd9,
    ];
    let plan = one_pixel_plan();
    let parts = CodestreamParts::parse_single_tile(&bytes).expect("parse");
    assert_eq!(parts.tile_parts.len(), 1);
    assert_eq!(parts.tile_parts[0].payload.packet_count(), 1);
    let rebuilt = parts.encode(&plan).expect("encode");
    assert_eq!(rebuilt, bytes);
}

#[test]
fn writer_accepts_locally_constructed_packet_sequence() {
    let plan = one_pixel_plan();
    let codestream = CodestreamParts {
        main_header_segments: vec![vec![0xff, 0x51, 0x00, 0x04, 0x12, 0x34], vec![0xff, 0x52, 0x00, 0x05, 0xaa, 0xbb, 0xcc]],
        tile_parts: vec![TilePart {
            header: TilePartHeader { tile_index: 0, part_index: 0, total_parts: 0 },
            header_segments: vec![vec![0xff, 0x64, 0x00, 0x03, 0x01]],
            payload: PacketSequenceBuilder::new()
                .push_header_body_packet(vec![0x10, 0x20], vec![0x30])
                .push_opaque_packet(vec![0x40, 0x50])
                .finish_payload(),
        }],
    };
    let rebuilt = codestream.encode(&plan).expect("encode codestream");
    assert_eq!(
        rebuilt,
        vec![
            0xff, 0x4f, 0xff, 0x51, 0x00, 0x04, 0x12, 0x34, 0xff, 0x52, 0x00, 0x05, 0xaa, 0xbb, 0xcc, 0xff, 0x90,
            0x00, 0x0a, 0x00, 0x00, 0x00, 0x00, 0x00, 0x18, 0x00, 0x00, 0xff, 0x64, 0x00, 0x03, 0x01, 0xff, 0x93,
            0x10, 0x20, 0x30, 0x40, 0x50, 0xff, 0xd9,
        ]
    );
}

#[test]
fn lossless_main_header_matches_plan_markers() {
    let image = gray_pattern(16, 16);
    let bytes = jp2lam::encode(&image, &EncodeOptions { quality: 100, format: OutputFormat::J2k }).expect("encode");
    let plan = EncodingPlan::build(&image, &EncodeOptions { quality: 100, format: OutputFormat::J2k }).expect("plan");
    let siz = jp2lam::markers::encode_siz(&plan).expect("siz");
    let cod = jp2lam::markers::encode_cod(&plan);
    let qcd = jp2lam::markers::encode_qcd(&plan).expect("qcd");
    let mut expected = vec![0xff, 0x4f];
    expected.extend_from_slice(&siz);
    expected.extend_from_slice(&cod);
    expected.extend_from_slice(&qcd);
    assert_eq!(&bytes[..expected.len()], expected.as_slice());
    assert_eq!(cod, vec![0xff, 0x52, 0x00, 0x0c, 0x00, 0x00, 0x00, 0x01, 0x00, 0x04, 0x04, 0x04, 0x00, 0x01]);
    assert_eq!(qcd, vec![0xff, 0x5c, 0x00, 0x10, 0x40, 0x40, 0x48, 0x48, 0x50, 0x48, 0x48, 0x50, 0x48, 0x48, 0x50, 0x48, 0x48, 0x50]);
}

#[test]
fn stepsize_packing_takes_any_step_and_keeps_the_exponent_low_byte() {
    // A step below one packs as a step of one: no mantissa, exponent numbps + 13.
    assert_eq!(encode_stepsize(0, 8), (21, 0));
    assert_eq!(encode_stepsize(-5, 8), (21, 0));
    // Step 1.0 (8192) with 300 nominal bit-planes: the exponent keeps its low eight bits.
    assert_eq!(encode_stepsize(8192, 300), (44, 0));
    assert_eq!(encode_stepsize(8192, 8), (8, 0));
}

#[test]
fn jp2_encoding_wraps_the_j2k_encoding() {
    let image = gray_pattern(21, 13);
    let j2k = jp2lam::encode(&image, &EncodeOptions { quality: 100, format: OutputFormat::J2k }).expect("encode j2k");
    let jp2 = jp2lam::encode(&image, &EncodeOptions { quality: 100, format: OutputFormat::Jp2 }).expect("encode jp2");
    assert_eq!(jp2.len(), j2k.len() + 85);
    assert_eq!(&jp2[85..], &j2k[..]);
    assert_eq!(&jp2[0..12], &[0, 0, 0, 12, b'j', b'P', b' ', b' ', 0x0d, 0x0a, 0x87, 0x0a]);
}
