use jp2lam::decode_markers::{parse_cod, parse_qcd, parse_siz, ProgressionOrder, QuantizationStyle, WaveletTransform};
use jp2lam::jp2_parse::parse_jp2;
use jp2lam::jp2_write::wrap_codestream;
use jp2lam::markers::{encode_cod, encode_qcd, encode_siz};
use jp2lam::model::{ColorSpace, EncodeOptions, Image, OutputFormat};
use jp2lam::plan::EncodingPlan;
use jp2lam::t2_encode::{put_commacode, put_numpasses, PacketBioWriter};
use jp2lam::t2_read::{read_commacode, read_numpasses, PacketBioReader};

fn rgb_image(width: u32, height: u32) -> Image {
    let mut rgb = Vec::new();
    for y in 0..height {
        for x in 0..width {
            rgb.push((x * 3) as u8);
            rgb.push((y * 5) as u8);
            rgb.push((x + y) as u8);
        }
    }
    Image::from_rgb_bytes(width, height, &rgb).expect("rgb image")
}

#[test]
fn wrapped_codestream_parses_back() {
    let image = rgb_image(5, 3);
    let codestream = vec![0xff, 0x4f, 1, 2, 3, 0xff, 0xd9];
    let file = wrap_codestream(&image, &codestream).expect("wrap");
    let parsed = parse_jp2(&file).expect("parse");
    assert_eq!(parsed.header.width, 5);
    assert_eq!(parsed.header.height, 3);
    assert_eq!(parsed.header.component_count, 3);
    assert_eq!(parsed.header.bits_per_component, 8);
    assert_eq!(parsed.header.colorspace, ColorSpace::Srgb);
    assert!(!parsed.header.has_ipr_metadata);
    assert_eq!(parsed.codestream, &codestream[..]);
}

#[test]
fn main_header_segments_parse_back() {
    let image = rgb_image(17, 9);
    let plan = EncodingPlan::build(&image, &EncodeOptions { quality: 100, format: OutputFormat::J2k }).expect("plan");

    let siz = parse_siz(&encode_siz(&plan).expect("siz")).expect("parse siz");
    assert_eq!((siz.width, siz.height, siz.tile_width, siz.tile_height), (17, 9, 17, 9));
    assert_eq!((siz.x_origin, siz.y_origin, siz.tile_x_origin, siz.tile_y_origin), (0, 0, 0, 0));
    assert_eq!(siz.components.len(), 3);
    for c in &siz.components {
        assert_eq!((c.precision, c.signed, c.dx, c.dy), (8, false, 1, 1));
    }

    let cod = parse_cod(&encode_cod(&plan)).expect("parse cod");
    assert_eq!(cod.progression_order, ProgressionOrder::Lrcp);
    assert_eq!(cod.layers, 1);
    assert!(cod.use_mct);
    assert_eq!(cod.decomposition_levels, plan.decomposition_levels);
    assert_eq!((cod.code_block_width, cod.code_block_height), (64, 64));
    assert_eq!(cod.transform, WaveletTransform::Reversible53);
    assert!(!cod.uses_precincts && !cod.sop_markers && !cod.eph_markers);

    let qcd = parse_qcd(&encode_qcd(&plan).expect("qcd")).expect("parse qcd");
    assert_eq!(qcd.style, QuantizationStyle::NoQuantization);
    assert_eq!(qcd.guard_bits, plan.guard_bits);
    assert_eq!(qcd.steps.len(), plan.subband_quants.len());
    for (step, quant) in qcd.steps.iter().zip(plan.subband_quants.iter()) {
        assert_eq!(step.exponent, quant.exponent);
    }
}

#[test]
fn packet_header_bits_read_back_through_stuffing() {
    // runs of ones force 0xff bytes and with them the stuffed bit
    let bits: Vec<u32> = (0..200u32).map(|i| if i % 23 < 17 { 1 } else { (i / 3) % 2 }).collect();
    let mut writer = PacketBioWriter::new();
    for &b in &bits {
        writer.putbit(b);
    }
    let bytes = writer.flush();
    assert!(bytes.contains(&0xff));
    let mut reader = PacketBioReader::new(&bytes);
    for (i, &b) in bits.iter().enumerate() {
        assert_eq!(reader.read_bit().expect("bit"), b, "bit {i}");
    }
}

#[test]
fn pass_counts_and_comma_codes_read_back() {
    let mut writer = PacketBioWriter::new();
    for n in 1..=164u32 {
        put_numpasses(&mut writer, n);
        put_commacode(&mut writer, n % 9);
    }
    let bytes = writer.flush();
    let mut reader = PacketBioReader::new(&bytes);
    for n in 1..=164u32 {
        assert_eq!(read_numpasses(&mut reader).expect("passes"), n);
        assert_eq!(read_commacode(&mut reader).expect("comma"), n % 9);
    }
}
