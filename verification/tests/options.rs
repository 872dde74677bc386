use huex::config::{Cli, Config, ConfigError, OutputMode, ReportFormat, SortMode};
use huex::harmony::HarmonyMode;

fn cli() -> Cli {
    Cli {
        image: Some("photo.png".to_string()),
        input: None,
        k: 5,
        max_iterations: 50,
        sample: 10_000,
        seed: 42,
        json: false,
        rgb: false,
        verbose: false,
        hex: false,
        sort: SortMode::Population,
        harmony: None,
    }
}

#[test]
fn config_takes_the_options_over() {
    let config = Config::from_cli(Cli { harmony: Some(HarmonyMode::Triadic), ..cli() }).unwrap();
    assert_eq!(config.image, "photo.png");
    assert_eq!(config.k, 5);
    assert_eq!(config.max_iterations, 50);
    assert_eq!(config.sample_limit, 10_000);
    assert_eq!(config.seed, 42);
    assert_eq!(config.harmony, Some(HarmonyMode::Triadic));
}

#[test]
fn config_uses_positional_image() {
    let config = Config::from_cli(Cli { image: None, input: Some("-".to_string()), ..cli() }).unwrap();
    assert_eq!(config.image, "-");
}

#[test]
fn config_refuses_missing_image_and_zero_counts() {
    let missing = Config::from_cli(Cli { image: None, ..cli() }).unwrap_err();
    assert_eq!(missing, ConfigError::MissingImage);
    assert_eq!(
        missing.message(),
        "missing image path; pass --image <PATH> or a positional IMAGE"
    );
    let zero_k = Config::from_cli(Cli { k: 0, ..cli() }).unwrap_err();
    assert_eq!(zero_k, ConfigError::ZeroClusters);
    assert_eq!(zero_k.message(), "--k must be greater than 0");
    let zero_iter = Config::from_cli(Cli { max_iterations: 0, ..cli() }).unwrap_err();
    assert_eq!(zero_iter, ConfigError::ZeroIterations);
    assert_eq!(zero_iter.message(), "--iter must be greater than 0");
    let both = Config::from_cli(Cli { image: None, k: 0, ..cli() }).unwrap_err();
    assert_eq!(both, ConfigError::MissingImage);
}

#[test]
fn report_format_follows_flags() {
    let format = |c: Cli| Config::from_cli(c).unwrap().report_format();
    assert_eq!(format(cli()), ReportFormat::Text(OutputMode::Compact));
    assert_eq!(format(Cli { rgb: true, ..cli() }), ReportFormat::Text(OutputMode::CompactWithRgb));
    assert_eq!(format(Cli { hex: true, rgb: true, ..cli() }), ReportFormat::Text(OutputMode::Hex));
    assert_eq!(format(Cli { verbose: true, hex: true, ..cli() }), ReportFormat::Text(OutputMode::Verbose));
    assert_eq!(format(Cli { json: true, rgb: true, ..cli() }), ReportFormat::Json);
}

#[test]
fn harmony_offsets_per_mode() {
    assert_eq!(HarmonyMode::Complement.offsets(), vec![180]);
    assert_eq!(HarmonyMode::Analogous.offsets(), vec![-30, 30]);
    assert_eq!(HarmonyMode::Triadic.offsets(), vec![120, 240]);
    assert_eq!(HarmonyMode::SplitComplement.offsets(), vec![150, 210]);
    assert_eq!(HarmonyMode::Tetradic.offsets(), vec![90, 180, 270]);
}

#[test]
fn harmony_all_expands_to_five_modes() {
    assert_eq!(
        HarmonyMode::All.expand(),
        vec![
            HarmonyMode::Complement,
            HarmonyMode::Analogous,
            HarmonyMode::Triadic,
            HarmonyMode::SplitComplement,
            HarmonyMode::Tetradic,
        ]
    );
    assert_eq!(HarmonyMode::Tetradic.expand(), vec![HarmonyMode::Tetradic]);
}

#[test]
fn harmony_names() {
    assert_eq!(HarmonyMode::Complement.name(), "complement");
    assert_eq!(HarmonyMode::SplitComplement.name(), "split-complement");
    assert_eq!(HarmonyMode::All.name(), "all");
}
