use jp2lam::jp2_parse::{parse_jp2, ENUM_GRAY, JP2_COMPRESSION_TYPE_J2K};
use jp2lam::ColorSpace;

const BOX_SIGNATURE: [u8; 4] = *b"jP  ";
const BOX_FILE_TYPE: [u8; 4] = *b"ftyp";
const BOX_JP2_HEADER: [u8; 4] = *b"jp2h";
const BOX_IMAGE_HEADER: [u8; 4] = *b"ihdr";
const BOX_BITS_PER_COMPONENT: [u8; 4] = *b"bpcc";
const BOX_COLOR_SPEC: [u8; 4] = *b"colr";
const BOX_PALETTE: [u8; 4] = *b"pclr";
const BOX_COMPONENT_MAPPING: [u8; 4] = *b"cmap";
const BOX_CHANNEL_DEFINITION: [u8; 4] = *b"cdef";
const BOX_CODESTREAM: [u8; 4] = *b"jp2c";
const JP2_SIGNATURE_PAYLOAD: [u8; 4] = [0x0d, 0x0a, 0x87, 0x0a];

fn error_text(bytes: &[u8]) -> String {
    match parse_jp2(bytes) {
        Ok(_) => panic!("input should be rejected"),
        Err(e) => e.describe(),
    }
}

#[test]
fn bpcc_box_fails_fast_with_feature_name() {
    let bytes = jp2_with_extra_header_box(BOX_BITS_PER_COMPONENT, &[7]);
    let err = error_text(&bytes);
    assert!(err.contains("per-component bit-depth box (bpcc)"), "{err}");
}

#[test]
fn palette_box_fails_fast_with_feature_name() {
    let bytes = jp2_with_extra_header_box(BOX_PALETTE, &[0, 0, 0, 0]);
    let err = error_text(&bytes);
    assert!(err.contains("palette box (pclr)"), "{err}");
}

#[test]
fn component_mapping_box_fails_fast_with_feature_name() {
    let bytes = jp2_with_extra_header_box(BOX_COMPONENT_MAPPING, &[0, 0, 0, 0]);
    let err = error_text(&bytes);
    assert!(err.contains("component mapping box (cmap)"), "{err}");
}

#[test]
fn channel_definition_box_fails_fast_with_feature_name() {
    let bytes = jp2_with_extra_header_box(BOX_CHANNEL_DEFINITION, &[0, 0, 0, 0]);
    let err = error_text(&bytes);
    assert!(err.contains("channel definition box (cdef)"), "{err}");
}

#[test]
fn icc_profile_colr_fails_fast() {
    let bytes = jp2_with_colr_payload(&[2, 0, 0, 0]);
    let err = error_text(&bytes);
    assert!(err.contains("only enumerated JP2 colorspaces are supported"), "{err}");
}

#[test]
fn multiple_codestream_boxes_fail_fast() {
    let mut bytes = minimal_jp2_header();
    push_box(&mut bytes, BOX_CODESTREAM, &[0xff, 0x4f]);
    push_box(&mut bytes, BOX_CODESTREAM, &[0xff, 0x4f]);
    let err = error_text(&bytes);
    assert!(err.contains("multiple contiguous codestream boxes"), "{err}");
}

#[test]
fn well_formed_file_gives_header_and_codestream() {
    let mut header = Vec::new();
    push_box(&mut header, BOX_IMAGE_HEADER, &ihdr_payload());
    push_box(&mut header, BOX_COLOR_SPEC, &enumerated_colr_payload(ENUM_GRAY));
    let bytes = wrap_with_header_and_codestream(header);
    let parsed = parse_jp2(&bytes).expect("valid file");
    assert_eq!(parsed.header.width, 8);
    assert_eq!(parsed.header.height, 8);
    assert_eq!(parsed.header.component_count, 1);
    assert_eq!(parsed.header.bits_per_component, 8);
    assert_eq!(parsed.header.colorspace, ColorSpace::Gray);
    assert_eq!(parsed.codestream, &[0xff, 0x4f]);
}

#[test]
fn unknown_enumerated_colorspace_is_named() {
    let bytes = jp2_with_colr_payload(&enumerated_colr_payload(18));
    let err = match parse_jp2(&bytes) {
        Ok(_) => panic!("EnumCS 18 should be rejected"),
        Err(e) => e,
    };
    assert!(err.is_unsupported_feature());
    assert_eq!(err.message(), "unsupported JP2 EnumCS value 18");
}

#[test]
fn truncated_box_header_is_a_decode_failure() {
    let err = match parse_jp2(&[0, 0, 0, 12, b'j']) {
        Ok(_) => panic!("truncated"),
        Err(e) => e,
    };
    assert!(err.is_decode_failure());
    assert!(!err.is_unsupported_feature());
}

fn jp2_with_extra_header_box(box_type: [u8; 4], payload: &[u8]) -> Vec<u8> {
    let mut header = Vec::new();
    push_box(&mut header, BOX_IMAGE_HEADER, &ihdr_payload());
    push_box(&mut header, box_type, payload);
    push_box(&mut header, BOX_COLOR_SPEC, &enumerated_colr_payload(ENUM_GRAY));
    wrap_with_header_and_codestream(header)
}

fn jp2_with_colr_payload(colr: &[u8]) -> Vec<u8> {
    let mut header = Vec::new();
    push_box(&mut header, BOX_IMAGE_HEADER, &ihdr_payload());
    push_box(&mut header, BOX_COLOR_SPEC, colr);
    wrap_with_header_and_codestream(header)
}

fn wrap_with_header_and_codestream(header_payload: Vec<u8>) -> Vec<u8> {
    let mut bytes = minimal_jp2_header();
    push_box(&mut bytes, BOX_JP2_HEADER, &header_payload);
    push_box(&mut bytes, BOX_CODESTREAM, &[0xff, 0x4f]);
    bytes
}

fn minimal_jp2_header() -> Vec<u8> {
    let mut bytes = Vec::new();
    push_box(&mut bytes, BOX_SIGNATURE, &JP2_SIGNATURE_PAYLOAD);
    let mut ftyp = Vec::new();
    ftyp.extend_from_slice(b"jp2 ");
    ftyp.extend_from_slice(&0u32.to_be_bytes());
    ftyp.extend_from_slice(b"jp2 ");
    push_box(&mut bytes, BOX_FILE_TYPE, &ftyp);
    bytes
}

fn ihdr_payload() -> [u8; 14] {
    let mut payload = [0u8; 14];
    payload[0..4].copy_from_slice(&8u32.to_be_bytes());
    payload[4..8].copy_from_slice(&8u32.to_be_bytes());
    payload[8..10].copy_from_slice(&1u16.to_be_bytes());
    payload[10] = 7;
    payload[11] = JP2_COMPRESSION_TYPE_J2K;
    payload
}

fn enumerated_colr_payload(enum_cs: u32) -> [u8; 7] {
    let mut payload = [0u8; 7];
    payload[0] = 1;
    payload[3..7].copy_from_slice(&enum_cs.to_be_bytes());
    payload
}

fn push_box(out: &mut Vec<u8>, box_type: [u8; 4], payload: &[u8]) {
    let len = u32::try_from(payload.len() + 8).expect("box length");
    out.extend_from_slice(&len.to_be_bytes());
    out.extend_from_slice(&box_type);
    out.extend_from_slice(payload);
}
