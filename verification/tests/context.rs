use jp2lam::context::EncodeContext;
use jp2lam::decode_markers::QuantizationStyle;
use jp2lam::model::{ColorSpace, Component, EncodeOptions, Image, OutputFormat, Preset};
use jp2lam::plan::EncodeLane;

#[test]
fn context_exposes_plan_and_samples() {
    let image = Image {
        width: 2,
        height: 2,
        components: vec![Component { data: vec![1, 2, 3, 4], width: 2, height: 2, precision: 8, signed: false, dx: 1, dy: 1 }],
        colorspace: ColorSpace::Gray,
    };
    let context = EncodeContext::new(
        &image,
        &EncodeOptions { quality: Preset::DocumentHigh.quality(), format: OutputFormat::J2k },
    )
    .expect("build context");
    assert_eq!(context.plan.lane, EncodeLane::GrayLossy);
    assert_eq!(context.plan.quantization_style, QuantizationStyle::ScalarExpounded);
    assert_eq!(context.component_data(0), Some([1, 2, 3, 4].as_slice()));
    assert_eq!(context.component_data(1), None);
}

#[test]
fn context_converts_ycbcr_to_rgb_component_data() {
    let component = |data: Vec<i32>| Component { data, width: 2, height: 1, precision: 8, signed: false, dx: 1, dy: 1 };
    let image = Image {
        width: 2,
        height: 1,
        components: vec![component(vec![64, 200]), component(vec![128, 90]), component(vec![128, 170])],
        colorspace: ColorSpace::YCbCr,
    };
    let context = EncodeContext::new(
        &image,
        &EncodeOptions { quality: Preset::DocumentHigh.quality(), format: OutputFormat::J2k },
    )
    .expect("build context");

    assert_eq!(context.plan.colorspace, ColorSpace::Srgb);
    assert_eq!(context.component_data(0), Some([64, 255].as_slice()));
    assert_eq!(context.component_data(1), Some([64, 184].as_slice()));
    assert_eq!(context.component_data(2), Some([64, 132].as_slice()));
}

#[test]
fn plan_rejects_component_count_that_does_not_match_colour_space() {
    let image = Image {
        width: 1,
        height: 1,
        components: vec![Component { data: vec![0], width: 1, height: 1, precision: 8, signed: false, dx: 1, dy: 1 }],
        colorspace: ColorSpace::Srgb,
    };
    let err = EncodeContext::new(&image, &EncodeOptions { quality: 100, format: OutputFormat::Jp2 }).err().expect("refused");
    assert!(matches!(err, jp2lam::Jp2LamError::InvalidInput(_)));
}
