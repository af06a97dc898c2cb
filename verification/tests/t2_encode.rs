use jp2lam::rate_types::PassKind;
use jp2lam::t1_encode::{EncodedPass, PassCodingMode, PassTermination};
use jp2lam::t2_encode::{
    codeblock_segments, floor_log2_u32, length_increment, numpasses_codeword, put_commacode, put_numpasses,
    PacketBioWriter, TagTreeWriter,
};

fn mock_pass(length: usize, terminated: bool) -> EncodedPass {
    EncodedPass {
        kind: PassKind::Cleanup,
        bitplane: 0,
        pass_index: 0,
        coding_mode: PassCodingMode::Mq,
        termination: PassTermination::TermAll,
        segmark: false,
        significant_before: 0,
        newly_significant: 0,
        length,
        cumulative_length: length,
        terminated,
        bytes: Vec::new(),
    }
}

#[test]
fn bio_putbit_roundtrip_indicator_bit() {
    let mut bio = PacketBioWriter::new();
    bio.putbit(1);
    let bytes = bio.flush();
    assert!(!bytes.is_empty());
    assert_eq!(bytes[0] & 0x80, 0x80, "indicator bit should be MSB");
}

#[test]
fn tagtree_single_leaf_encodes_inclusion() {
    let mut tree = TagTreeWriter::new(1, 1);
    tree.set_value(0, 0);
    let mut bio = PacketBioWriter::new();
    tree.encode(&mut bio, 0, 1);
    let bytes = bio.flush();
    assert!(!bytes.is_empty());
}

#[test]
fn floor_log2_values() {
    assert_eq!(floor_log2_u32(1), 0);
    assert_eq!(floor_log2_u32(2), 1);
    assert_eq!(floor_log2_u32(3), 1);
    assert_eq!(floor_log2_u32(4), 2);
    assert_eq!(floor_log2_u32(127), 6);
    assert_eq!(floor_log2_u32(128), 7);
}

#[test]
fn numpasses_writes_1_as_0_bit() {
    let mut bio = PacketBioWriter::new();
    put_numpasses(&mut bio, 1);
    let bytes = bio.flush();
    assert_eq!(bytes[0] & 0x80, 0, "numpasses=1 should write a 0 bit first");
}

#[test]
fn numpasses_writes_2_as_10() {
    let mut bio = PacketBioWriter::new();
    put_numpasses(&mut bio, 2);
    let bytes = bio.flush();
    assert_eq!(bytes[0] >> 6, 0b10, "numpasses=2 should write 10 in top 2 bits");
}

#[test]
fn b106_numpasses_boundary_values_follow_table_b4() {
    let cases = [
        (3, 4, 0b1100u16),
        (5, 4, 0b1110u16),
        (6, 9, 0b1111_00000u16),
        (36, 9, 0b1111_11110u16),
        (37, 16, 0b11111111_10000000u16),
        (164, 16, 0b11111111_11111111u16),
    ];
    for (numpasses, width, expected_prefix) in cases {
        let (actual, actual_width) = numpasses_codeword(numpasses);
        assert_eq!(
            (actual, actual_width),
            (expected_prefix as u32, width),
            "B.10.6 codeword mismatch for numpasses={numpasses}"
        );
    }
}

#[test]
fn b107_commacode_zero_writes_single_0() {
    let mut bio = PacketBioWriter::new();
    put_commacode(&mut bio, 0);
    let bytes = bio.flush();
    assert_eq!(bytes[0] & 0x80, 0, "B.10.7 commacode(0) should write a 0 bit");
}

#[test]
fn b1071_single_segment_uses_initial_lblock_three() {
    let segments = codeblock_segments(&[mock_pass(6, true)]);
    assert_eq!(segments, vec![(6, 1)]);
    assert_eq!(length_increment(3, &segments), 0);
}

#[test]
fn b1072_multiple_segments_match_standard_note_partition() {
    let passes = vec![
        mock_pass(6, true),
        mock_pass(31, false),
        mock_pass(44, true),
        mock_pass(134, true),
        mock_pass(192, true),
    ];
    let segments = codeblock_segments(&passes);
    assert_eq!(segments, vec![(6, 1), (75, 2), (134, 1), (192, 1)]);
    assert_eq!(length_increment(3, &segments), 5);
}

#[test]
fn bio_stuffs_a_zero_bit_after_ff() {
    let mut bio = PacketBioWriter::new();
    for _ in 0..8 {
        bio.putbit(1);
    }
    bio.putbit(1);
    let bytes = bio.flush();
    assert_eq!(bytes, vec![0xff, 0x40]);
}

#[test]
fn commacode_three_writes_1110() {
    let mut bio = PacketBioWriter::new();
    put_commacode(&mut bio, 3);
    let bytes = bio.flush();
    assert_eq!(bytes, vec![0b1110_0000]);
}
