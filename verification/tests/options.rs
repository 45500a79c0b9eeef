use sloc::cli::{
    detect_format, format_for_extension, parse_language_override, OutputFormat, ProcessArgs,
    ReportArgs, SortMetric,
};
use sloc::config::{
    default_chunk_size, default_enable_metrics, default_format, default_metrics_file,
    default_no_progress, default_output_file, default_recursive, default_threads, AppConfig,
    DefaultsConfig, PerformanceConfig, DEFAULT_OUTPUT_FILE_BASE,
};
use sloc::error::SlocError;

#[test]
fn language_override_needs_exactly_one_equals_sign() {
    assert_eq!(
        parse_language_override("xyz=rust"),
        Ok(("xyz".to_string(), "rust".to_string()))
    );
    assert_eq!(parse_language_override("="), Ok((String::new(), String::new())));
    assert_eq!(
        parse_language_override("é= ü "),
        Ok(("é".to_string(), " ü ".to_string()))
    );
    let error = Err("Invalid format. Use: ext=language".to_string());
    assert_eq!(parse_language_override("xyz"), error);
    assert_eq!(parse_language_override(""), error);
    assert_eq!(parse_language_override("a=b=c"), error);
    assert_eq!(parse_language_override("a=="), error);
}

#[test]
fn report_format_by_extension() {
    assert_eq!(format_for_extension(Some("json")), OutputFormat::Json);
    assert_eq!(format_for_extension(Some("xml")), OutputFormat::Xml);
    assert_eq!(format_for_extension(Some("csv")), OutputFormat::Csv);
    assert_eq!(format_for_extension(Some("XML")), OutputFormat::Json);
    assert_eq!(format_for_extension(Some("")), OutputFormat::Json);
    assert_eq!(format_for_extension(None), OutputFormat::Json);
    assert_eq!(detect_format("out/report.xml"), OutputFormat::Xml);
    assert_eq!(detect_format("report.csv"), OutputFormat::Csv);
    assert_eq!(detect_format("report.json"), OutputFormat::Json);
    assert_eq!(detect_format("report"), OutputFormat::Json);
    assert_eq!(detect_format("xml"), OutputFormat::Json);
    assert_eq!(detect_format("a.xml/report"), OutputFormat::Json);
}

#[test]
fn report_options_become_count_options() {
    let args = ReportArgs {
        details: true,
        paths: vec!["src".to_string(), "lib".to_string()],
        format: OutputFormat::Xml,
        output: "out.xml".to_string(),
        recursive: true,
        checksum: true,
        config: Some("languages.toml".to_string()),
        threads: 3,
        enable_metrics: true,
        metrics_file: Some("m.log".to_string()),
    };
    let count = args.into_count_args();
    assert!(count.details);
    assert_eq!(count.paths, vec!["src", "lib"]);
    assert!(count.recursive);
    assert!(!count.stdin);
    assert_eq!(count.format, Some(OutputFormat::Xml));
    assert_eq!(count.output, Some("out.xml".to_string()));
    assert_eq!(count.sort, None::<SortMetric>);
    assert!(count.language_override.is_empty());
    assert_eq!(count.config, Some("languages.toml".to_string()));
    assert!(!count.no_progress);
    assert_eq!(count.threads, 3);
    assert!(count.checksum);
    assert!(!count.ignore_preprocessor);
    assert!(count.enable_metrics);
    assert_eq!(count.metrics_file, Some("m.log".to_string()));
    assert_eq!(count.perf_summary_threshold, 5);
}

#[test]
fn process_formats() {
    let mut args = ProcessArgs {
        report: "in.csv".to_string(),
        sort: None,
        export: None,
        format: None,
        enable_metrics: false,
        metrics_file: None,
    };
    assert_eq!(args.input_format(), OutputFormat::Csv);
    assert_eq!(args.export_format(), OutputFormat::Json);
    args.format = Some(OutputFormat::Xml);
    assert_eq!(args.input_format(), OutputFormat::Xml);
    assert_eq!(args.export_format(), OutputFormat::Xml);
}

#[test]
fn defaults() {
    assert_eq!(default_threads(), 0);
    assert_eq!(default_chunk_size(), 1000);
    assert!(!default_enable_metrics());
    assert_eq!(default_metrics_file(), "sloc_metrics.log");
    assert!(!default_recursive());
    assert!(!default_no_progress());
    assert_eq!(default_format(), "json");
    assert_eq!(default_output_file(), "sloc-report");
    assert_eq!(DEFAULT_OUTPUT_FILE_BASE, "sloc-report");
    let config = AppConfig::default();
    assert_eq!(config.performance.default_threads, 0);
    assert_eq!(config.performance.chunk_size, 1000);
    assert!(!config.performance.enable_metrics);
    assert_eq!(config.performance.metrics_file, "sloc_metrics.log");
    assert!(!config.defaults.recursive);
    assert!(!config.defaults.no_progress);
    assert_eq!(config.defaults.output_format, "json");
    assert_eq!(config.defaults.output_file, "sloc-report");
    assert_eq!(PerformanceConfig::default().chunk_size, 1000);
    assert_eq!(DefaultsConfig::default().output_format, "json");
}

fn loaded() -> AppConfig {
    AppConfig {
        performance: PerformanceConfig {
            default_threads: 8,
            chunk_size: 10,
            enable_metrics: true,
            metrics_file: "configured.log".to_string(),
        },
        defaults: DefaultsConfig {
            recursive: true,
            no_progress: true,
            output_format: "xml".to_string(),
            output_file: "base".to_string(),
        },
    }
}

#[test]
fn command_line_overrides_configuration() {
    let config = AppConfig::with_cli_overrides(None, false, None);
    assert!(!config.performance.enable_metrics);
    assert_eq!(config.performance.metrics_file, "sloc_metrics.log");
    let config = AppConfig::with_cli_overrides(None, true, Some("cli.log"));
    assert!(config.performance.enable_metrics);
    assert_eq!(config.performance.metrics_file, "cli.log");
    assert_eq!(config.performance.chunk_size, 1000);
    let config = AppConfig::with_cli_overrides(Some(loaded()), false, None);
    assert!(config.performance.enable_metrics);
    assert_eq!(config.performance.metrics_file, "configured.log");
    assert_eq!(config.performance.default_threads, 8);
    assert_eq!(config.performance.chunk_size, 10);
    assert!(config.defaults.recursive);
    assert_eq!(config.defaults.output_format, "xml");
    assert_eq!(config.defaults.output_file, "base");
    let config = AppConfig::with_cli_overrides(Some(loaded()), true, Some("cli.log"));
    assert!(config.performance.enable_metrics);
    assert_eq!(config.performance.metrics_file, "cli.log");
}

#[test]
fn error_messages() {
    let path = || "dir/file.rs".to_string();
    let text = || "detail".to_string();
    let cases = [
        (SlocError::FileNotFound { path: path() }, "File not found: dir/file.rs"),
        (SlocError::Io(text()), "IO error: detail"),
        (SlocError::InvalidConfig(text()), "Invalid configuration: detail"),
        (SlocError::Serialization(text()), "Serialization error: detail"),
        (SlocError::Deserialization(text()), "Deserialization error: detail"),
        (SlocError::Parse(text()), "Parse error: detail"),
        (SlocError::InvalidPath { path: path() }, "Invalid path: dir/file.rs"),
        (SlocError::PermissionDenied { path: path() }, "Permission denied: dir/file.rs"),
        (SlocError::UnsupportedLanguage(text()), "Language not supported: detail"),
        (SlocError::InvalidReportFormat(text()), "Invalid report format: detail"),
        (SlocError::Encoding(String::new()), "Encoding error: "),
    ];
    for (error, message) in cases {
        assert_eq!(error.message(), message);
    }
}

#[test]
fn extension_of_a_plain_file_name() {
    assert_eq!(detect_format("a.b.xml"), OutputFormat::Xml);
    assert_eq!(detect_format(".a.xml"), OutputFormat::Xml);
    assert_eq!(detect_format("..xml"), OutputFormat::Xml);
    assert_eq!(detect_format(".xml"), OutputFormat::Json);
    assert_eq!(detect_format("xml."), OutputFormat::Json);
    assert_eq!(detect_format("a.xml."), OutputFormat::Json);
    assert_eq!(detect_format("."), OutputFormat::Json);
    assert_eq!(detect_format(".."), OutputFormat::Json);
    assert_eq!(detect_format("a .csv"), OutputFormat::Csv);
    assert_eq!(detect_format("a. csv"), OutputFormat::Json);
    assert_eq!(detect_format("é.csv"), OutputFormat::Csv);
}

#[test]
fn extension_of_the_final_component() {
    assert_eq!(detect_format("out/report.xml"), OutputFormat::Xml);
    assert_eq!(detect_format("out.d/report.csv"), OutputFormat::Csv);
    assert_eq!(detect_format("out.xml/report"), OutputFormat::Json);
    assert_eq!(detect_format("out/report.xml/"), OutputFormat::Xml);
    assert_eq!(detect_format("out/report.xml//"), OutputFormat::Xml);
    assert_eq!(detect_format("out/report.xml/."), OutputFormat::Xml);
    assert_eq!(detect_format("out/./report.xml"), OutputFormat::Xml);
    assert_eq!(detect_format("./report.xml"), OutputFormat::Xml);
    assert_eq!(detect_format("../report.csv"), OutputFormat::Csv);
    assert_eq!(detect_format("out/report.xml/.."), OutputFormat::Json);
    assert_eq!(detect_format("out/.xml"), OutputFormat::Json);
    assert_eq!(detect_format("out/..xml"), OutputFormat::Xml);
    assert_eq!(detect_format("a//b.csv"), OutputFormat::Csv);
    assert_eq!(detect_format(""), OutputFormat::Json);
}
