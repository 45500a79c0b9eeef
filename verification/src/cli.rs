//! The options of the command line, as plain values, and what is decided
//! from them.

use vstd::prelude::*;
use crate::detector::{component_extension, extension_of, path_extension, reads_alike};
use crate::order::str_eq;
use crate::text::{chars_of, find, find_first, lemma_find, rest_from, text_of};
use vstd::slice::slice_subrange;

verus! {

/// The format of a report file.
#[derive(Debug, Clone, Copy, PartialEq, Eq, Structural)]
pub enum OutputFormat {
    Json,
    Xml,
    Csv,
}

/// What console output is sorted by.
#[derive(Debug, Clone, Copy, PartialEq, Eq, Structural)]
pub enum SortMetric {
    /// Total lines, most first.
    Total,
    /// Logical lines, most first.
    Logical,
    /// Empty lines, most first.
    Empty,
    /// File name.
    Name,
    /// Language name.
    Language,
}

/// The options of the `count` command.
#[derive(Debug)]
pub struct CountArgs {
    pub details: bool,
    pub paths: Vec<String>,
    pub recursive: bool,
    pub stdin: bool,
    pub format: Option<OutputFormat>,
    pub output: Option<String>,
    pub sort: Option<SortMetric>,
    pub language_override: Vec<(String, String)>,
    pub config: Option<String>,
    pub no_progress: bool,
    pub threads: usize,
    pub checksum: bool,
    pub ignore_preprocessor: bool,
    pub enable_metrics: bool,
    pub metrics_file: Option<String>,
    pub perf_summary_threshold: u64,
}

/// The options of the `report` command.
#[derive(Debug)]
pub struct ReportArgs {
    pub details: bool,
    pub paths: Vec<String>,
    pub format: OutputFormat,
    pub output: String,
    pub recursive: bool,
    pub checksum: bool,
    pub config: Option<String>,
    pub threads: usize,
    pub enable_metrics: bool,
    pub metrics_file: Option<String>,
}

/// The options of the `process` command.
#[derive(Debug)]
pub struct ProcessArgs {
    pub report: String,
    pub sort: Option<SortMetric>,
    pub export: Option<String>,
    pub format: Option<OutputFormat>,
    pub enable_metrics: bool,
    pub metrics_file: Option<String>,
}

/// The options of the `compare` command.
#[derive(Debug)]
pub struct CompareArgs {
    pub report1: String,
    pub report2: String,
    pub export: Option<String>,
    pub format: Option<OutputFormat>,
    pub enable_metrics: bool,
    pub metrics_file: Option<String>,
}

/// A command with its options.
#[derive(Debug)]
pub enum Commands {
    Count(CountArgs),
    Report(ReportArgs),
    Process(ProcessArgs),
    Compare(CompareArgs),
}

/// The command line.
#[derive(Debug)]
pub struct Cli {
    pub command: Commands,
}

/// The equals sign as a text.
pub open spec fn equals_sign() -> Seq<char> {
    seq!['=']
}

/// An override of the form `ext=language`, taken apart: the text must hold
/// exactly one equals sign.
pub open spec fn language_override(s: Seq<char>) -> Result<(Seq<char>, Seq<char>), Seq<char>> {
    match find(s, equals_sign()) {
        Some(i) => if find(s.skip(i + 1), equals_sign()) is None {
            Ok((s.take(i), s.skip(i + 1)))
        } else {
            Err("Invalid format. Use: ext=language"@)
        },
        None => Err("Invalid format. Use: ext=language"@),
    }
}

/// The views of the parts of a parsed override.
pub open spec fn parsed_view(r: Result<(String, String), String>) -> Result<
    (Seq<char>, Seq<char>),
    Seq<char>,
> {
    match r {
        Ok((extension, language)) => Ok((extension@, language@)),
        Err(message) => Err(message@),
    }
}

/// Takes an override of the form `ext=language` apart.
pub fn parse_language_override(s: &str) -> (r: Result<(String, String), String>)
    ensures
        parsed_view(r) == language_override(s@),
{
    let chars = chars_of(s);
    let text = chars.as_slice();
    let sign: Vec<char> = vec!['='];
    let n: usize = text.len();
    proof {
        assert(sign@ =~= equals_sign());
        lemma_find(text@, sign@);
    }
    match find_first(text, sign.as_slice()) {
        Some(i) => {
            let value = rest_from(text, i + 1);
            if find_first(value, sign.as_slice()).is_none() {
                let key = slice_subrange(text, 0, i);
                proof {
                    assert(key@ == text@.take(i as int));
                }
                Ok((text_of(key), text_of(value)))
            } else {
                Err("Invalid format. Use: ext=language".to_owned())
            }
        },
        None => Err("Invalid format. Use: ext=language".to_owned()),
    }
}

/// The report format that a file extension stands for: JSON where it is
/// neither `xml` nor `csv`, and where there is none.
pub open spec fn format_of_extension(extension: Option<Seq<char>>) -> OutputFormat {
    match extension {
        Some(e) => if e == "xml"@ {
            OutputFormat::Xml
        } else if e == "csv"@ {
            OutputFormat::Csv
        } else {
            OutputFormat::Json
        },
        None => OutputFormat::Json,
    }
}

/// The report format that a file extension stands for.
pub fn format_for_extension(extension: Option<&str>) -> (format: OutputFormat)
    ensures
        format == format_of_extension(
            match extension {
                Some(e) => Some(e@),
                None => None,
            },
        ),
{
    match extension {
        Some(e) => if str_eq(e, "xml") {
            OutputFormat::Xml
        } else if str_eq(e, "csv") {
            OutputFormat::Csv
        } else {
            OutputFormat::Json
        },
        None => OutputFormat::Json,
    }
}

/// The format of the report file at `path`, by its extension. Of a
/// relative path without backslash and colon the extension is that of the
/// final component; of any other path it is some extension that the path
/// can have, or none.
pub fn detect_format(path: &str) -> (format: OutputFormat)
    ensures
        exists|extension: Option<Seq<char>>|
            extension_of(path@, extension) && format == #[trigger] format_of_extension(extension),
        reads_alike(path@) ==> format == format_of_extension(component_extension(path@)),
{
    match path_extension(path) {
        Some(e) => {
            let format = format_for_extension(Some(e.as_str()));
            proof {
                assert(extension_of(path@, Some(e@)));
                assert(format == format_of_extension(Some(e@)));
            }
            format
        },
        None => {
            proof {
                assert(extension_of(path@, None));
                assert(OutputFormat::Json == format_of_extension(None));
            }
            OutputFormat::Json
        },
    }
}

impl ReportArgs {
    /// The options with which `count` does the work of `report`: the
    /// report's own options, no sorting, no overrides, the progress bar
    /// on, preprocessor lines counted, and the summary threshold of five
    /// seconds.
    pub fn into_count_args(self) -> (args: CountArgs)
        ensures
            args.details == self.details,
            args.paths == self.paths,
            args.recursive == self.recursive,
            !args.stdin,
            args.format == Some(self.format),
            args.output == Some(self.output),
            args.sort is None,
            args.language_override@.len() == 0,
            args.config == self.config,
            !args.no_progress,
            args.threads == self.threads,
            args.checksum == self.checksum,
            !args.ignore_preprocessor,
            args.enable_metrics == self.enable_metrics,
            args.metrics_file == self.metrics_file,
            args.perf_summary_threshold == 5,
    {
        CountArgs {
            details: self.details,
            paths: self.paths,
            recursive: self.recursive,
            stdin: false,
            format: Some(self.format),
            output: Some(self.output),
            sort: None,
            language_override: Vec::new(),
            config: self.config,
            no_progress: false,
            threads: self.threads,
            checksum: self.checksum,
            ignore_preprocessor: false,
            enable_metrics: self.enable_metrics,
            metrics_file: self.metrics_file,
            perf_summary_threshold: 5,
        }
    }
}

impl ProcessArgs {
    /// The format in which a processed report is exported: the one asked
    /// for, else JSON.
    pub fn export_format(&self) -> (format: OutputFormat)
        ensures
            format == match self.format {
                Some(f) => f,
                None => OutputFormat::Json,
            },
    {
        match self.format {
            Some(f) => f,
            None => OutputFormat::Json,
        }
    }

    /// The format in which the report is read: the one asked for, else the
    /// one that the report's file extension stands for. Of a relative path
    /// without backslash and colon the extension is that of the final
    /// component; of any other path it is some extension that the path can
    /// have, or none.
    pub fn input_format(&self) -> (format: OutputFormat)
        ensures
            match self.format {
                Some(f) => format == f,
                None => {
                    &&& exists|extension: Option<Seq<char>>|
                        extension_of(self.report@, extension) && format
                            == #[trigger] format_of_extension(extension)
                    &&& reads_alike(self.report@) ==> format == format_of_extension(
                        component_extension(self.report@),
                    )
                },
            },
    {
        match self.format {
            Some(f) => f,
            None => detect_format(self.report.as_str()),
        }
    }
}

} // verus!
