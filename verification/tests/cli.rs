use jp2lam::cli::{default_quality, is_quality_token, parse_args, parse_quality, CliCommand};
use jp2lam::model::ColorSpace;

fn s(v: &str) -> String {
    v.to_string()
}

#[test]
fn parses_plain_input_with_default_quality() {
    let args = parse_args(vec![s("file.png")]).expect("args");
    assert_eq!(args.command, CliCommand::Encode { input_path: s("file.png"), quality: None });
}

#[test]
fn parses_one_shot_quality_forms() {
    for token in ["q50", "Q50", "50", "--quality=q50"] {
        let args = parse_args(vec![s("file.png"), s(token)]).expect(token);
        assert_eq!(args.command, CliCommand::Encode { input_path: s("file.png"), quality: Some(50) });
    }

    let args = parse_args(vec![s("jp2lam"), s("encode"), s("file.png"), s("--quality"), s("75")])
        .expect("explicit quality");
    assert_eq!(args.command, CliCommand::Encode { input_path: s("file.png"), quality: Some(75) });
}

#[test]
fn parses_decode_subcommand() {
    let args = parse_args(vec![s("decode"), s("page.jp2")]).expect("decode args");
    assert_eq!(args.command, CliCommand::Decode { input_path: s("page.jp2"), output_path: None });

    let args = parse_args(vec![s("jp2lam"), s("decode"), s("page.jp2"), s("page.png")]).expect("decode with output");
    assert_eq!(args.command, CliCommand::Decode { input_path: s("page.jp2"), output_path: Some(s("page.png")) });
}

#[test]
fn parses_encode_dir_subcommand() {
    let args = parse_args(vec![s("encode-dir"), s("pages"), s("encoded"), s("q85")]).expect("encode dir args");
    assert_eq!(
        args.command,
        CliCommand::EncodeDir { input_dir: s("pages"), output_dir: Some(s("encoded")), quality: Some(85) }
    );
}

#[test]
fn parses_decode_dir_subcommand() {
    let args = parse_args(vec![s("decode-dir"), s("jp2"), s("decoded")]).expect("decode dir args");
    assert_eq!(args.command, CliCommand::DecodeDir { input_dir: s("jp2"), output_dir: Some(s("decoded")) });
}

#[test]
fn parses_decode_zip_subcommand() {
    let args = parse_args(vec![s("decode-zip"), s("pages.zip"), s("decoded")]).expect("decode zip args");
    assert_eq!(args.command, CliCommand::DecodeZip { input_path: s("pages.zip"), output_dir: Some(s("decoded")) });
}

#[test]
fn rejects_quality_outside_range() {
    assert!(parse_quality("q101").is_err());
    assert!(parse_quality("qabc").is_err());
}

#[test]
fn quality_forms_trim_and_accept_a_plus_sign() {
    assert_eq!(parse_quality("  q100 "), Ok(100));
    assert_eq!(parse_quality("+7"), Ok(7));
    assert_eq!(parse_quality("007"), Ok(7));
    assert!(parse_quality("").is_err());
    assert!(parse_quality("q").is_err());
    assert!(is_quality_token("Q9"));
    assert!(!is_quality_token("+9"));
    assert!(!is_quality_token("file.png"));
}

#[test]
fn extra_and_missing_arguments_are_refused() {
    assert!(parse_args(vec![s("a.png"), s("b.png")]).is_err());
    assert!(parse_args(vec![s("encode"), s("a.png"), s("-q")]).is_err());
    assert!(parse_args(vec![s("decode")]).is_err());
    assert!(parse_args(vec![s("decode"), s("a"), s("b"), s("c")]).is_err());
    assert!(parse_args(Vec::new()).is_err());
    let args = parse_args(vec![s("JP2LAM"), s("decode-zip"), s("x.zip")]).expect("case-insensitive program name");
    assert_eq!(args.command, CliCommand::DecodeZip { input_path: s("x.zip"), output_dir: None });
}

#[test]
fn default_quality_depends_on_colour() {
    assert_eq!(default_quality(ColorSpace::Gray), 85);
    assert_eq!(default_quality(ColorSpace::Srgb), 62);
}
