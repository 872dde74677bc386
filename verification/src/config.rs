use vstd::prelude::*;

use crate::harmony::HarmonyMode;
use crate::text::push_str;

verus! {

/// How the palette is ordered in the report.
#[derive(Debug, Clone, Copy, PartialEq, Eq, Structural)]
pub enum SortMode {
    /// Largest population first.
    Population,
    /// Lightest first.
    Luminance,
    /// Colour-wheel order.
    Hue,
}

/// The layout of the terminal report.
#[derive(Debug, Clone, Copy, PartialEq, Eq, Structural)]
pub enum OutputMode {
    Compact,
    CompactWithRgb,
    Verbose,
    Hex,
}

/// Where the report goes: structured JSON, or one of the terminal layouts.
#[derive(Debug, Clone, Copy, PartialEq, Eq, Structural)]
pub enum ReportFormat {
    Json,
    Text(OutputMode),
}

/// The command-line options, as parsed.
#[derive(Debug)]
pub struct Cli {
    /// `--image <PATH>`; `-` reads the image bytes from stdin.
    pub image: Option<String>,
    /// The positional image path.
    pub input: Option<String>,
    /// `-k`: requested number of clusters before deduplication.
    pub k: usize,
    /// `--iter`: maximum k-means iterations.
    pub max_iterations: usize,
    /// `--sample`: maximum sampled pixels; 0 keeps every visible pixel.
    pub sample: usize,
    /// `--seed` for sampling and k-means++ initialisation.
    pub seed: u64,
    pub json: bool,
    pub rgb: bool,
    pub verbose: bool,
    pub hex: bool,
    pub sort: SortMode,
    pub harmony: Option<HarmonyMode>,
}

/// Validated settings for one analysis.
#[derive(Debug)]
pub struct Config {
    pub image: String,
    pub k: usize,
    pub max_iterations: usize,
    pub sample_limit: usize,
    pub seed: u64,
    pub json: bool,
    pub rgb: bool,
    pub verbose: bool,
    pub hex: bool,
    pub sort: SortMode,
    pub harmony: Option<HarmonyMode>,
}

/// Why the command-line options were refused.
#[derive(Debug, Clone, Copy, PartialEq, Eq, Structural)]
pub enum ConfigError {
    MissingImage,
    ZeroClusters,
    ZeroIterations,
}

/// The message shown for a refused option.
pub open spec fn config_error_message_spec(e: ConfigError) -> Seq<char> {
    match e {
        ConfigError::MissingImage => "missing image path; pass --image <PATH> or a positional IMAGE"@,
        ConfigError::ZeroClusters => "--k must be greater than 0"@,
        ConfigError::ZeroIterations => "--iter must be greater than 0"@,
    }
}

impl ConfigError {
    pub fn message(self) -> (m: String)
        ensures
            m@ == config_error_message_spec(self),
    {
        let mut m = String::new();
        match self {
            ConfigError::MissingImage => push_str(
                &mut m,
                "missing image path; pass --image <PATH> or a positional IMAGE",
            ),
            ConfigError::ZeroClusters => push_str(&mut m, "--k must be greater than 0"),
            ConfigError::ZeroIterations => push_str(&mut m, "--iter must be greater than 0"),
        }
        m
    }
}

/// The image path that the options name: `--image` first, else the positional path.
pub open spec fn chosen_image_spec(cli: Cli) -> Option<Seq<char>> {
    match cli.image {
        Some(p) => Some(p@),
        None => match cli.input {
            Some(p) => Some(p@),
            None => None,
        },
    }
}

/// The layout that the flags select: JSON, else verbose, else hex lines, else compact with
/// or without RGB.
pub open spec fn report_format_spec(json: bool, verbose: bool, hex: bool, rgb: bool) -> ReportFormat {
    if json {
        ReportFormat::Json
    } else if verbose {
        ReportFormat::Text(OutputMode::Verbose)
    } else if hex {
        ReportFormat::Text(OutputMode::Hex)
    } else if rgb {
        ReportFormat::Text(OutputMode::CompactWithRgb)
    } else {
        ReportFormat::Text(OutputMode::Compact)
    }
}

/// The layout flags take precedence in the order `--json`, `--verbose`, `--hex`, `--rgb`:
/// JSON whenever it is asked for, the verbose report over hex lines, hex lines over the
/// compact layouts (so `--rgb` changes nothing beside `--hex`), and RGB values only in the
/// compact layout.
pub proof fn lemma_report_format_precedence(json: bool, verbose: bool, hex: bool, rgb: bool)
    ensures
        json ==> report_format_spec(json, verbose, hex, rgb) == ReportFormat::Json,
        !json && verbose ==> report_format_spec(json, verbose, hex, rgb) == ReportFormat::Text(
            OutputMode::Verbose,
        ),
        !json && !verbose && hex ==> report_format_spec(json, verbose, hex, rgb)
            == ReportFormat::Text(OutputMode::Hex),
        !json && !verbose && !hex && rgb ==> report_format_spec(json, verbose, hex, rgb)
            == ReportFormat::Text(OutputMode::CompactWithRgb),
        !json && !verbose && !hex && !rgb ==> report_format_spec(json, verbose, hex, rgb)
            == ReportFormat::Text(OutputMode::Compact),
        hex ==> report_format_spec(json, verbose, hex, true) == report_format_spec(
            json,
            verbose,
            hex,
            false,
        ),
{
}

impl Config {
    /// Validates the options: an image path must be named, and `k` and the iteration
    /// limit must be positive (checked in that order).
    pub fn from_cli(cli: Cli) -> (res: Result<Config, ConfigError>)
        ensures
            chosen_image_spec(cli) is None <==> res == Err::<Config, ConfigError>(
                ConfigError::MissingImage,
            ),
            chosen_image_spec(cli) is Some && cli.k == 0 <==> res == Err::<Config, ConfigError>(
                ConfigError::ZeroClusters,
            ),
            chosen_image_spec(cli) is Some && cli.k > 0 && cli.max_iterations == 0 <==> res
                == Err::<Config, ConfigError>(ConfigError::ZeroIterations),
            res matches Ok(config) ==> {
                &&& Some(config.image@) == chosen_image_spec(cli)
                &&& config.k == cli.k
                &&& config.max_iterations == cli.max_iterations
                &&& config.sample_limit == cli.sample
                &&& config.seed == cli.seed
                &&& config.json == cli.json
                &&& config.rgb == cli.rgb
                &&& config.verbose == cli.verbose
                &&& config.hex == cli.hex
                &&& config.sort == cli.sort
                &&& config.harmony == cli.harmony
            },
    {
        let image = match cli.image {
            Some(p) => p,
            None => match cli.input {
                Some(p) => p,
                None => {
                    return Err(ConfigError::MissingImage);
                },
            },
        };
        if cli.k == 0 {
            return Err(ConfigError::ZeroClusters);
        }
        if cli.max_iterations == 0 {
            return Err(ConfigError::ZeroIterations);
        }
        Ok(
            Config {
                image,
                k: cli.k,
                max_iterations: cli.max_iterations,
                sample_limit: cli.sample,
                seed: cli.seed,
                json: cli.json,
                rgb: cli.rgb,
                verbose: cli.verbose,
                hex: cli.hex,
                sort: cli.sort,
                harmony: cli.harmony,
            },
        )
    }

    /// The report layout that the flags select.
    pub fn report_format(&self) -> (format: ReportFormat)
        ensures
            format == report_format_spec(self.json, self.verbose, self.hex, self.rgb),
    {
        if self.json {
            ReportFormat::Json
        } else if self.verbose {
            ReportFormat::Text(OutputMode::Verbose)
        } else if self.hex {
            ReportFormat::Text(OutputMode::Hex)
        } else if self.rgb {
            ReportFormat::Text(OutputMode::CompactWithRgb)
        } else {
            ReportFormat::Text(OutputMode::Compact)
        }
    }
}

} // verus!
