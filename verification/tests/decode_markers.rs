use jp2lam::decode_markers::{
    CodestreamHeader, MARKER_CAP, MARKER_COC, MARKER_COD, MARKER_CRG, MARKER_PLM, MARKER_PLT, MARKER_POC,
    MARKER_PPM, MARKER_PPT, MARKER_QCC, MARKER_QCD, MARKER_RGN, MARKER_SIZ, MARKER_TLM,
};
use jp2lam::plan_types::TilePartHeader;
use jp2lam::Jp2LamError;

fn supported_segments() -> Vec<Vec<u8>> {
    vec![siz_segment(8, false, 1), cod_segment(1, 0), qcd_segment()]
}

fn tile_header(total_parts: u8) -> TilePartHeader {
    TilePartHeader { tile_index: 0, part_index: 0, total_parts }
}

fn siz_segment(precision: u8, signed: bool, components: u16) -> Vec<u8> {
    siz_segment_with_size(precision, signed, components, 256, 256)
}

fn siz_segment_with_size(precision: u8, signed: bool, components: u16, width: u32, height: u32) -> Vec<u8> {
    let mut body = Vec::new();
    body.extend_from_slice(&0u16.to_be_bytes());
    body.extend_from_slice(&width.to_be_bytes());
    body.extend_from_slice(&height.to_be_bytes());
    body.extend_from_slice(&0u32.to_be_bytes());
    body.extend_from_slice(&0u32.to_be_bytes());
    body.extend_from_slice(&width.to_be_bytes());
    body.extend_from_slice(&height.to_be_bytes());
    body.extend_from_slice(&0u32.to_be_bytes());
    body.extend_from_slice(&0u32.to_be_bytes());
    body.extend_from_slice(&components.to_be_bytes());
    for _ in 0..components {
        body.push((precision - 1) | if signed { 0x80 } else { 0 });
        body.push(1);
        body.push(1);
    }
    segment(MARKER_SIZ, &body)
}

fn cod_segment(layers: u16, style: u8) -> Vec<u8> {
    let mut body = Vec::new();
    body.push(0);
    body.push(0);
    body.extend_from_slice(&layers.to_be_bytes());
    body.push(0);
    body.push(5);
    body.push(4);
    body.push(4);
    body.push(style);
    body.push(0);
    segment(MARKER_COD, &body)
}

fn qcd_segment() -> Vec<u8> {
    qcd_segment_with_step_count(0x22, 16)
}

fn qcd_segment_with_style(sqcd: u8) -> Vec<u8> {
    qcd_segment_with_step_count(sqcd, 16)
}

fn qcd_segment_with_step_count(sqcd: u8, step_count: usize) -> Vec<u8> {
    let exponent = 8u16 << 11;
    let mut body = vec![sqcd];
    for _ in 0..step_count {
        body.extend_from_slice(&exponent.to_be_bytes());
    }
    segment(MARKER_QCD, &body)
}

fn segment(marker: u16, body: &[u8]) -> Vec<u8> {
    let marker_len = u16::try_from(body.len() + 2).expect("marker length");
    let mut out = Vec::with_capacity(body.len() + 4);
    out.extend_from_slice(&marker.to_be_bytes());
    out.extend_from_slice(&marker_len.to_be_bytes());
    out.extend_from_slice(body);
    out
}

fn slices(segments: &[Vec<u8>]) -> Vec<&[u8]> {
    segments.iter().map(Vec::as_slice).collect()
}

fn header_error(segments: &[Vec<u8>]) -> Jp2LamError {
    match CodestreamHeader::from_marker_segments(&slices(segments), tile_header(0), 1) {
        Ok(_) => panic!("header should be rejected"),
        Err(e) => e,
    }
}

#[test]
fn supported_header_is_accepted() {
    let segments = supported_segments();
    let header = match CodestreamHeader::from_marker_segments(&slices(&segments), tile_header(0), 1) {
        Ok(h) => h,
        Err(e) => panic!("{}", e.describe()),
    };
    assert_eq!(header.siz.width, 256);
    assert_eq!(header.cod.decomposition_levels, 5);
    assert_eq!(header.qcd.steps.len(), 16);
    assert_eq!(header.comment_count, 0);
}

#[test]
fn unsupported_main_marker_fails_fast_with_feature_name() {
    let mut segments = supported_segments();
    segments.push(segment(MARKER_COC, &[0x00, 0x00]));
    let err = header_error(&segments);
    assert!(matches!(err, Jp2LamError::UnsupportedFeature(_)), "{err:?}");
    let err = err.describe();
    assert!(err.contains("COC component coding-style override"), "{err}");
}

#[test]
fn unsupported_main_marker_matrix_fails_fast_with_feature_names() {
    for (marker, expected) in [
        (MARKER_CAP, "CAP capabilities marker"),
        (MARKER_COC, "COC component coding-style override"),
        (MARKER_TLM, "TLM tile-part length marker"),
        (MARKER_PLM, "PLM packet-length marker"),
        (MARKER_PLT, "PLT packet-length marker"),
        (MARKER_QCC, "QCC component quantization override"),
        (MARKER_RGN, "RGN region-of-interest marker"),
        (MARKER_POC, "POC progression-order change marker"),
        (MARKER_PPM, "PPM packed packet headers"),
        (MARKER_PPT, "PPT packed packet headers"),
        (MARKER_CRG, "CRG component registration marker"),
    ] {
        let mut segments = supported_segments();
        segments.push(segment(marker, &[0x00, 0x00]));
        let err = header_error(&segments).describe();
        assert!(err.contains(expected), "marker 0x{marker:04x}: {err}");
    }
}

#[test]
fn unsupported_tile_header_marker_fails_fast_with_feature_name() {
    let tile_segments = [segment(MARKER_QCC, &[0x00, 0x00])];
    let err = CodestreamHeader::from_marker_segments_with_tile_headers(
        &slices(&supported_segments()),
        &slices(&tile_segments),
        tile_header(0),
        1,
    )
    .expect_err("QCC should be rejected")
    .describe();
    assert!(err.contains("tile-part QCC component quantization override"), "{err}");
}

#[test]
fn unsupported_tile_header_marker_matrix_fails_fast_with_feature_names() {
    for (marker, expected) in [
        (MARKER_COD, "tile-part COD coding-style override"),
        (MARKER_COC, "tile-part COC component coding-style override"),
        (MARKER_QCD, "tile-part QCD quantization override"),
        (MARKER_QCC, "tile-part QCC component quantization override"),
        (MARKER_RGN, "tile-part RGN region-of-interest marker"),
        (MARKER_POC, "tile-part POC progression-order change marker"),
        (MARKER_PLT, "tile-part PLT packet-length marker"),
        (MARKER_PPT, "tile-part PPT packed packet headers"),
    ] {
        let tile_segments = [segment(marker, &[0x00, 0x00])];
        let err = CodestreamHeader::from_marker_segments_with_tile_headers(
            &slices(&supported_segments()),
            &slices(&tile_segments),
            tile_header(0),
            1,
        )
        .expect_err("tile marker should be rejected")
        .describe();
        assert!(err.contains(expected), "marker 0x{marker:04x}: {err}");
    }
}

#[test]
fn multiple_layers_fail_before_packet_decode() {
    let mut segments = supported_segments();
    segments[1] = cod_segment(2, 0);
    let err = header_error(&segments).describe();
    assert!(err.contains("unsupported quality layers"), "{err}");
}

#[test]
fn hdr_precision_fails_before_packet_decode() {
    let mut segments = supported_segments();
    segments[0] = siz_segment(12, false, 1);
    let err = header_error(&segments).describe();
    assert!(err.contains("unsupported sample precision"), "{err}");
}

#[test]
fn progression_change_marker_fails_fast() {
    let mut segments = supported_segments();
    segments.push(segment(MARKER_POC, &[0x00, 0x00]));
    let err = header_error(&segments).describe();
    assert!(err.contains("POC progression-order change marker"), "{err}");
}

#[test]
fn scalar_derived_quantization_fails_before_packet_decode() {
    let mut segments = supported_segments();
    segments[2] = qcd_segment_with_style(0x21);
    let err = header_error(&segments).describe();
    assert!(err.contains("scalar-derived QCD"), "{err}");
}

#[test]
fn oversized_codeblock_dimension_fails_during_cod_parse() {
    let mut segments = supported_segments();
    segments[1][10] = 9;
    let err = header_error(&segments).describe();
    assert!(err.contains("code-block width"), "{err}");
}

#[test]
fn unsupported_codeblock_style_matrix_fails_fast() {
    for (style, expected) in [
        (0x01, "arithmetic bypass"),
        (0x02, "context reset"),
        (0x04, "pass termination"),
        (0x08, "vertical causal"),
        (0x10, "predictable termination"),
        (0x20, "segmentation symbols"),
    ] {
        let mut segments = supported_segments();
        segments[1] = cod_segment(1, style);
        let err = header_error(&segments).describe();
        assert!(err.contains(expected), "style 0x{style:02x}: {err}");
    }
}

#[test]
fn short_qcd_step_count_fails_before_packet_decode() {
    let mut segments = supported_segments();
    segments[2] = qcd_segment_with_step_count(0x22, 15);
    let err = header_error(&segments).describe();
    assert!(err.contains("QCD step count"), "{err}");
}

#[test]
fn extra_qcd_step_count_fails_before_packet_decode() {
    let mut segments = supported_segments();
    segments[2] = qcd_segment_with_step_count(0x22, 17);
    let err = header_error(&segments).describe();
    assert!(err.contains("QCD step count"), "{err}");
}

#[test]
fn excessive_decomposition_levels_fail_before_packet_decode() {
    let mut segments = supported_segments();
    segments[0] = siz_segment_with_size(8, false, 1, 8, 8);
    let err = header_error(&segments).describe();
    assert!(err.contains("decomposition levels"), "{err}");
    assert!(err.contains("COD decomposition levels 5 exceed DWT limit 3 for image dimensions 8x8"), "{err}");
}

#[test]
fn unknown_main_marker_names_its_code() {
    let mut segments = supported_segments();
    segments.push(segment(0xff70, &[0x00, 0x00]));
    let err = header_error(&segments).message();
    assert_eq!(err, "unsupported codestream marker 0xff70 in main header");
}

#[test]
fn two_tile_parts_are_refused() {
    let err = CodestreamHeader::from_marker_segments(&slices(&supported_segments()), tile_header(0), 2)
        .expect_err("two tile-parts")
        .message();
    assert!(err.contains("one full-image tile in one tile-part"), "{err}");
}

#[test]
fn missing_qcd_is_refused() {
    let segments = vec![siz_segment(8, false, 1), cod_segment(1, 0)];
    let err = header_error(&segments).message();
    assert_eq!(err, "codestream main header lacks QCD");
}
