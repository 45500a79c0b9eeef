//! Application configuration: what a configuration file can set, the
//! defaults, and how command-line options override both.

use vstd::prelude::*;

verus! {

/// The base name of report files that are named automatically.
pub const DEFAULT_OUTPUT_FILE_BASE: &'static str = "sloc-report";

/// A pair of block comment tokens in a configuration file.
#[derive(Debug)]
pub struct MultiLineComment {
    pub start: String,
    pub end: String,
}

/// A language definition in a configuration file.
#[derive(Debug)]
pub struct LanguageDefinition {
    pub name: String,
    pub extensions: Vec<String>,
    pub single_line_comment: Vec<String>,
    pub multi_line_comment: Vec<MultiLineComment>,
    pub nested_comments: bool,
    pub preprocessor_prefix: Option<String>,
}

/// The language definitions of a configuration file, each with its key, in
/// the order of the file.
#[derive(Debug)]
pub struct LanguageConfig {
    pub languages: Vec<(String, LanguageDefinition)>,
}

/// Performance settings.
#[derive(Debug)]
pub struct PerformanceConfig {
    /// The number of worker threads; zero lets the machine decide.
    pub default_threads: usize,
    pub chunk_size: usize,
    pub enable_metrics: bool,
    pub metrics_file: String,
}

/// Defaults for options that the command line leaves out.
#[derive(Debug)]
pub struct DefaultsConfig {
    pub recursive: bool,
    pub no_progress: bool,
    pub output_format: String,
    /// The base name, without extension, of report files that are named
    /// automatically.
    pub output_file: String,
}

/// The application configuration.
#[derive(Debug)]
pub struct AppConfig {
    pub performance: PerformanceConfig,
    pub defaults: DefaultsConfig,
}

/// The default number of worker threads.
pub fn default_threads() -> (n: usize)
    ensures
        n == 0,
{
    0
}

/// The default chunk size.
pub fn default_chunk_size() -> (n: usize)
    ensures
        n == 1000,
{
    1000
}

/// Whether metrics are logged by default.
pub fn default_enable_metrics() -> (b: bool)
    ensures
        !b,
{
    false
}

/// The default metrics file.
pub fn default_metrics_file() -> (s: String)
    ensures
        s@ == "sloc_metrics.log"@,
{
    "sloc_metrics.log".to_owned()
}

/// Whether directories are traversed by default.
pub fn default_recursive() -> (b: bool)
    ensures
        !b,
{
    false
}

/// Whether the progress bar is off by default.
pub fn default_no_progress() -> (b: bool)
    ensures
        !b,
{
    false
}

/// The default report format.
pub fn default_format() -> (s: String)
    ensures
        s@ == "json"@,
{
    "json".to_owned()
}

/// The default base name of report files.
pub fn default_output_file() -> (s: String)
    ensures
        s@ == DEFAULT_OUTPUT_FILE_BASE@,
{
    DEFAULT_OUTPUT_FILE_BASE.to_owned()
}

impl PerformanceConfig {
    /// Whether these are the default performance settings.
    pub open spec fn is_default(&self) -> bool {
        &&& self.default_threads == 0
        &&& self.chunk_size == 1000
        &&& !self.enable_metrics
        &&& self.metrics_file@ == "sloc_metrics.log"@
    }
}

impl Default for PerformanceConfig {
    fn default() -> (config: Self)
        ensures
            config.is_default(),
    {
        PerformanceConfig {
            default_threads: default_threads(),
            chunk_size: default_chunk_size(),
            enable_metrics: default_enable_metrics(),
            metrics_file: default_metrics_file(),
        }
    }
}

impl DefaultsConfig {
    /// Whether these are the default defaults.
    pub open spec fn is_default(&self) -> bool {
        &&& !self.recursive
        &&& !self.no_progress
        &&& self.output_format@ == "json"@
        &&& self.output_file@ == DEFAULT_OUTPUT_FILE_BASE@
    }
}

impl Default for DefaultsConfig {
    fn default() -> (config: Self)
        ensures
            config.is_default(),
    {
        DefaultsConfig {
            recursive: default_recursive(),
            no_progress: default_no_progress(),
            output_format: default_format(),
            output_file: default_output_file(),
        }
    }
}

/// The text of an optional text.
pub open spec fn optional_text(o: Option<&str>) -> Option<Seq<char>> {
    match o {
        Some(s) => Some(s@),
        None => None,
    }
}

impl AppConfig {
    /// Whether this is the default configuration.
    pub open spec fn is_default(&self) -> bool {
        self.performance.is_default() && self.defaults.is_default()
    }

    /// Whether this configuration is `base` with the command-line options
    /// applied: metrics are switched on where asked for, never off, and a
    /// metrics file that is given replaces the configured one.
    pub open spec fn overrides(
        &self,
        base: AppConfig,
        enable_metrics: bool,
        metrics_file: Option<Seq<char>>,
    ) -> bool {
        &&& self.defaults == base.defaults
        &&& self.performance.default_threads == base.performance.default_threads
        &&& self.performance.chunk_size == base.performance.chunk_size
        &&& self.performance.enable_metrics == (enable_metrics || base.performance.enable_metrics)
        &&& self.performance.metrics_file@ == match metrics_file {
            Some(file) => file,
            None => base.performance.metrics_file@,
        }
    }

    /// The default configuration.
    pub fn default() -> (config: Self)
        ensures
            config.is_default(),
    {
        AppConfig { performance: PerformanceConfig::default(), defaults: DefaultsConfig::default() }
    }

    /// The configuration for a run: what the configuration file gave, or
    /// the defaults where there is no file or it could not be loaded, with
    /// the command-line options applied.
    pub fn with_cli_overrides(
        loaded: Option<AppConfig>,
        enable_metrics: bool,
        metrics_file: Option<&str>,
    ) -> (config: Self)
        ensures
            match loaded {
                Some(base) => config.overrides(base, enable_metrics, optional_text(metrics_file)),
                None => exists|base: AppConfig| #[trigger]
                    base.is_default() && config.overrides(
                        base,
                        enable_metrics,
                        optional_text(metrics_file),
                    ),
            },
    {
        let mut config = match loaded {
            Some(base) => base,
            None => AppConfig::default(),
        };
        let ghost base = config;
        if enable_metrics {
            config.performance.enable_metrics = true;
        }
        if let Some(file) = metrics_file {
            config.performance.metrics_file = file.to_owned();
        }
        proof {
            assert(config.overrides(base, enable_metrics, optional_text(metrics_file)));
        }
        config
    }
}

} // verus!
