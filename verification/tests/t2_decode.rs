use jp2lam::decode_markers::{
    CodSegment, CodeBlockStyle, CodestreamHeader, ComponentSiz, ProgressionOrder, QcdSegment, QuantizationStep,
    QuantizationStyle, SizSegment, WaveletTransform,
};
use jp2lam::codestream::parse_codestream_view;
use jp2lam::model::{EncodeOptions, Image, OutputFormat};
use jp2lam::t2_decode::parse_tile_part_payload;
use jp2lam::t2_read::{read_commacode, read_numpasses, PacketBioReader, TagTreeReader};

#[test]
fn packet_bio_reads_msb_first() {
    let bytes = [0b1010_0000];
    let mut bio = PacketBioReader::new(&bytes);
    assert_eq!(bio.read_bit().unwrap(), 1);
    assert_eq!(bio.read_bit().unwrap(), 0);
    assert_eq!(bio.read_bit().unwrap(), 1);
    assert_eq!(bio.read_bit().unwrap(), 0);
    assert_eq!(bio.bytes_consumed(), 1);
}

#[test]
fn packet_bio_skips_ff_stuffed_bit() {
    let bytes = [0xff, 0b1010_1010];
    let mut bio = PacketBioReader::new(&bytes);
    for _ in 0..8 {
        assert_eq!(bio.read_bit().unwrap(), 1);
    }
    // The most significant bit after an 0xff byte is stuffed; data resumes at bit 6.
    assert_eq!(bio.read_bit().unwrap(), 0);
    assert_eq!(bio.read_bit().unwrap(), 1);
}

#[test]
fn b107_commacode_reads_unary_one_bits_then_zero() {
    let bytes = [0b1110_0000];
    let mut bio = PacketBioReader::new(&bytes);
    assert_eq!(read_commacode(&mut bio).unwrap(), 3);
}

#[test]
fn b106_numpasses_reads_table_b4_boundaries() {
    let cases: [(&[u8], u32); 7] = [
        (&[0b0000_0000], 1),
        (&[0b1000_0000], 2),
        (&[0b1100_0000], 3),
        (&[0b1110_0000], 5),
        (&[0b1111_0000, 0], 6),
        (&[0b1111_1111, 0b0100_0000, 0], 37),
        (&[0b1111_1111, 0b0111_1111, 0b1000_0000], 164),
    ];
    for (bytes, expected) in cases {
        let mut bio = PacketBioReader::new(bytes);
        assert_eq!(read_numpasses(&mut bio).unwrap(), expected);
    }
}

#[test]
fn b102_tagtree_single_leaf_decodes_value_zero() {
    let mut tree = TagTreeReader::new(1, 1);
    let bytes = [0b1000_0000];
    let mut bio = PacketBioReader::new(&bytes);
    assert!(tree.decode(&mut bio, 0, 1).unwrap());
    assert_eq!(tree.value(0), Some(0));
}

#[test]
fn b102_tagtree_single_leaf_decodes_later_threshold() {
    let mut tree = TagTreeReader::new(1, 1);
    let bytes = [0b0010_0000];
    let mut bio = PacketBioReader::new(&bytes);
    assert!(!tree.decode(&mut bio, 0, 1).unwrap());
    assert!(!tree.decode(&mut bio, 0, 2).unwrap());
    assert!(tree.decode(&mut bio, 0, 3).unwrap());
    assert_eq!(tree.value(0), Some(2));
}

#[test]
fn tagtree_two_by_two_shares_the_root_bound() {
    // Root value 1 (bits 0 1), then leaf 0 equal to the root (bit 1).
    let mut tree = TagTreeReader::new(2, 2);
    let bytes = [0b0110_0000];
    let mut bio = PacketBioReader::new(&bytes);
    assert!(tree.decode(&mut bio, 0, 5).unwrap());
    assert_eq!(tree.value(0), Some(1));
    assert_eq!(tree.value(1), None);
}

#[test]
fn b107_non_empty_contribution_with_zero_length_fails_fast() {
    let header = tiny_header();
    let payload = [0b1110_0000];
    let err = match parse_tile_part_payload(&header, &payload) {
        Ok(_) => panic!("included code-block with zero length should fail"),
        Err(e) => e.describe(),
    };
    assert!(err.contains("zero byte length"), "{err}");
}

#[test]
fn empty_packet_parses_to_one_packet_without_contributions() {
    let header = tiny_header();
    let payload = [0b0000_0000];
    let parsed = match parse_tile_part_payload(&header, &payload) {
        Ok(p) => p,
        Err(e) => panic!("{}", e.describe()),
    };
    assert_eq!(parsed.packets.len(), 1);
    assert_eq!(parsed.packets[0].header_len, 1);
    assert_eq!(parsed.packets[0].body_len, 0);
    assert!(parsed.codeblocks.is_empty());
}

#[test]
fn trailing_payload_bytes_are_refused() {
    let header = tiny_header();
    let payload = [0b0000_0000, 0x42];
    assert!(parse_tile_part_payload(&header, &payload).is_err());
}

fn tiny_header() -> CodestreamHeader {
    CodestreamHeader {
        siz: SizSegment {
            rsiz: 0,
            width: 1,
            height: 1,
            x_origin: 0,
            y_origin: 0,
            tile_width: 1,
            tile_height: 1,
            tile_x_origin: 0,
            tile_y_origin: 0,
            components: vec![ComponentSiz { precision: 8, signed: false, dx: 1, dy: 1 }],
        },
        cod: CodSegment {
            progression_order: ProgressionOrder::Lrcp,
            layers: 1,
            use_mct: false,
            decomposition_levels: 0,
            code_block_width: 64,
            code_block_height: 64,
            code_block_style: CodeBlockStyle::default(),
            transform: WaveletTransform::Irreversible97,
            uses_precincts: false,
            sop_markers: false,
            eph_markers: false,
            precinct_sizes: Vec::new(),
        },
        qcd: QcdSegment {
            style: QuantizationStyle::ScalarExpounded,
            guard_bits: 1,
            steps: vec![QuantizationStep { exponent: 8, mantissa: 0 }],
        },
        comment_count: 0,
    }
}

#[test]
fn encoded_payload_packets_take_up_the_whole_payload() {
    let data: Vec<u8> = (0..(33 * 17 * 3)).map(|i| ((i * 37) % 251) as u8).collect();
    let image = Image::from_rgb_bytes(33, 17, &data).expect("image");
    let options = EncodeOptions { quality: 100, format: OutputFormat::J2k };
    let bytes = jp2lam::encode(&image, &options).expect("encode");
    let view = parse_codestream_view(&bytes).expect("codestream");
    let tile = &view.tile_parts[0];
    let header = CodestreamHeader::from_marker_segments(&view.main_header_segments, tile.header, view.tile_parts.len())
        .expect("header");
    let parsed = parse_tile_part_payload(&header, tile.payload).expect("packets");
    let expected = header.cod.layers as usize * (header.cod.decomposition_levels as usize + 1) * 3;
    assert_eq!(parsed.packets.len(), expected);
    let total: usize = parsed.packets.iter().map(|p| p.header_len + p.body_len).sum();
    assert_eq!(total, tile.payload.len());
    let contributions: usize = parsed.packets.iter().map(|p| p.contribution_count).sum();
    assert_eq!(contributions, parsed.codeblocks.len());
}

#[test]
fn tag_tree_takes_a_grid_wider_than_32768_leaves() {
    let mut tree = TagTreeReader::new(40_000, 2);
    assert_eq!(tree.value(39_999), None);
    let bytes = [0xffu8, 0x7f, 0xff, 0x7f, 0xff, 0x7f, 0xff, 0x7f];
    let mut bio = PacketBioReader::new(&bytes);
    // Every node reads a one bit at threshold 1: the leaf's value is known to be zero.
    assert!(tree.decode(&mut bio, 0, 1).unwrap());
    assert_eq!(tree.value(0), Some(0));
}
