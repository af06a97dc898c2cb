use jp2lam::codestream_write::CodestreamParts;
use jp2lam::context::EncodeContext;
use jp2lam::encoder::{build_component_layout, NativeBackend, NativeComponentCoefficients};
use jp2lam::model::{ColorSpace, Component, EncodeOptions, Image, OutputFormat};
use jp2lam::plan_types::{BandOrientation, CodeBlockSize};

fn gradient_4x4() -> Image {
    Image {
        width: 4,
        height: 4,
        components: vec![Component {
            data: vec![0, 16, 32, 48, 64, 80, 96, 112, 128, 144, 160, 176, 192, 208, 224, 240],
            width: 4,
            height: 4,
            precision: 8,
            signed: false,
            dx: 1,
            dy: 1,
        }],
        colorspace: ColorSpace::Gray,
    }
}

// The lossless lane: quality 100.
fn lossless() -> EncodeOptions {
    EncodeOptions { quality: 100, format: OutputFormat::J2k }
}

#[test]
fn layout_extracts_expected_subband_rectangles() {
    let coefficients = NativeComponentCoefficients {
        width: 4,
        height: 4,
        levels: 2,
        data: vec![-38, 36, 0, 16, 144, 0, 0, 16, 0, 0, 0, 0, 64, 64, 0, 0],
    };
    let layout = build_component_layout(&coefficients, CodeBlockSize { width: 64, height: 64 }).expect("build layout");

    assert_eq!(layout.subbands.len(), 7);
    assert_eq!(
        layout.subbands.iter().map(|band| (band.resolution, band.band, band.x0, band.y0, band.x1, band.y1)).collect::<Vec<_>>(),
        vec![
            (0, BandOrientation::Ll, 0, 0, 1, 1),
            (1, BandOrientation::Hl, 1, 0, 2, 1),
            (1, BandOrientation::Lh, 0, 1, 1, 2),
            (1, BandOrientation::Hh, 1, 1, 2, 2),
            (2, BandOrientation::Hl, 2, 0, 4, 2),
            (2, BandOrientation::Lh, 0, 2, 2, 4),
            (2, BandOrientation::Hh, 2, 2, 4, 4),
        ]
    );
}

#[test]
fn layout_splits_subbands_into_codeblocks() {
    let coefficients = NativeComponentCoefficients { width: 6, height: 6, levels: 1, data: (0..36).collect() };
    let layout = build_component_layout(&coefficients, CodeBlockSize { width: 2, height: 2 }).expect("build layout");

    let hh = layout.subbands.iter().find(|band| band.band == BandOrientation::Hh).expect("hh band");
    assert_eq!(hh.codeblocks.len(), 4);
    assert_eq!(hh.codeblocks[0].coefficients, vec![21, 22, 27, 28]);
}

#[test]
fn native_backend_prepares_gray_lossless_coefficients() {
    let image = gradient_4x4();
    let context = EncodeContext::new(&image, &lossless()).expect("build context");
    let prepared = NativeBackend.prepare_component_coefficients(&context, 0).expect("prepare coefficients");
    assert_eq!(
        prepared,
        NativeComponentCoefficients {
            width: 4,
            height: 4,
            levels: context.plan.decomposition_levels,
            data: vec![-38, 36, 0, 16, 144, 0, 0, 16, 0, 0, 0, 0, 64, 64, 0, 0],
        }
    );
}

#[test]
fn native_backend_recognizes_gray_lossless_lane() {
    let image = gradient_4x4();
    let context = EncodeContext::new(&image, &lossless()).expect("build context");
    assert!(NativeBackend.supports_lane(&context));
    assert!(NativeBackend.supports(&context));
}

#[test]
fn native_backend_builds_gray_lossless_layout() {
    let image = gradient_4x4();
    let context = EncodeContext::new(&image, &lossless()).expect("build context");
    let layout = NativeBackend.prepare_component_layout(&context, 0).expect("build native layout");

    assert_eq!(layout.subbands.len(), 7);
    assert_eq!(layout.subbands[0].band, BandOrientation::Ll);
    assert_eq!(layout.subbands[0].codeblocks.len(), 1);
    assert_eq!(layout.subbands[0].codeblocks[0].coefficients, vec![-38]);
    let hh2 = layout
        .subbands
        .iter()
        .find(|band| band.resolution == 2 && band.band == BandOrientation::Hh)
        .expect("resolution 2 hh band");
    assert_eq!(hh2.codeblocks[0].coefficients, vec![0, 0, 0, 0]);
}

#[test]
fn native_backend_builds_gray_lossless_packet_sequence() {
    let image = gradient_4x4();
    let context = EncodeContext::new(&image, &lossless()).expect("build context");
    let packets = NativeBackend.prepare_packet_sequence(&context).expect("build native packet sequence");

    assert_eq!(packets.packets.len(), 3);
    assert_eq!(packets.packets[0].resolution, 0);
    assert_eq!(packets.packets[0].pass_count, 16);
    assert_eq!(packets.packets[1].codeblock_count, 3);
}

#[test]
fn native_backend_builds_gray_lossless_tile_part_payload() {
    let image = gradient_4x4();
    let context = EncodeContext::new(&image, &lossless()).expect("build context");
    let payload = NativeBackend.prepare_tile_part_payload(&context).expect("payload");
    let mut out = Vec::new();
    payload.write_to(&mut out);
    assert_eq!(payload.packet_count(), 3);
    assert!(!out.is_empty());
    assert_eq!(out[0] & 0x80, 0x80);
    assert!(out.len() > 8);
}

#[test]
fn native_backend_builds_gray_lossless_codestream_parts() {
    let image = gradient_4x4();
    let context = EncodeContext::new(&image, &lossless()).expect("build context");
    let parts = NativeBackend.prepare_codestream_parts(&context).expect("parts");
    assert_eq!(parts.main_header_segments.len(), 3);
    assert_eq!(parts.tile_parts.len(), 1);
    assert_eq!(parts.tile_parts[0].payload.packet_count(), 3);
    assert_eq!(parts.tile_parts[0].header.total_parts, 1);
}

#[test]
fn native_backend_builds_gray_lossless_codestream_bytes() {
    let image = gradient_4x4();
    let context = EncodeContext::new(&image, &lossless()).expect("build context");
    let bytes = NativeBackend.prepare_codestream_bytes(&context).expect("build native codestream bytes");
    assert_eq!(&bytes[0..2], &[0xff, 0x4f]);
    assert_eq!(&bytes[2..4], &[0xff, 0x51]);
    assert_eq!(&bytes[bytes.len() - 2..], &[0xff, 0xd9]);
    let reparsed = CodestreamParts::parse_single_tile(&bytes).expect("parse native codestream");
    assert_eq!(reparsed.tile_parts.len(), 1);
    assert_eq!(reparsed.tile_parts[0].payload.packet_count(), 1);
    assert!(reparsed.tile_parts[0].payload.byte_len().expect("length") > 0);
}

#[test]
fn native_backend_encode_codestream_matches_prepared_bytes() {
    let image = gradient_4x4();
    let context = EncodeContext::new(&image, &lossless()).expect("build context");
    let direct = NativeBackend.prepare_codestream_bytes(&context).expect("build native codestream bytes");
    let via_trait = NativeBackend.encode_codestream(&context).expect("encode native codestream");
    assert_eq!(via_trait, direct);
}

#[test]
fn native_backend_builds_gray_lossless_tier1_layout() {
    let image = gradient_4x4();
    let context = EncodeContext::new(&image, &lossless()).expect("build context");

    let layout = NativeBackend.prepare_component_layout(&context, 0).expect("build layout");
    let encoded = NativeBackend.prepare_tier1_encoded_layouts(&context).expect("build native tier1 layout");
    let component = &encoded[0];

    assert_eq!(component.bands.len(), 7);
    let ll_index = component
        .bands
        .iter()
        .position(|band| band.resolution == 0 && band.band == BandOrientation::Ll)
        .expect("ll band");
    let ll_max = layout.subbands[ll_index].codeblocks[0].coefficients.iter().map(|c| c.unsigned_abs()).max().unwrap();
    assert_eq!(ll_max, 38);
    let ll = &component.bands[ll_index];
    assert_eq!(ll.blocks[0].magnitude_bitplanes, 6);
    assert_eq!(ll.blocks[0].passes.len(), 16);
    let hh2 = component
        .bands
        .iter()
        .find(|band| band.resolution == 2 && band.band == BandOrientation::Hh)
        .expect("resolution 2 hh band");
    assert_eq!(hh2.blocks[0].magnitude_bitplanes, 0);
    assert!(hh2.blocks[0].passes.is_empty());
}

#[test]
fn native_backend_builds_gray_lossless_encoded_tier1_layout() {
    let image = gradient_4x4();
    let context = EncodeContext::new(&image, &lossless()).expect("build context");

    let encoded = NativeBackend.prepare_tier1_encoded_layouts(&context).expect("build native encoded tier1 layout");
    let ll = encoded[0]
        .bands
        .iter()
        .find(|band| band.resolution == 0 && band.band == BandOrientation::Ll)
        .expect("ll band");
    assert_eq!(ll.blocks[0].passes.len(), 16);
    assert!(!ll.blocks[0].data.is_empty());
    assert!(ll.blocks[0].passes[15].terminated);
    assert_eq!(ll.blocks[0].passes.iter().map(|pass| pass.length).sum::<usize>(), ll.blocks[0].data.len());
}
