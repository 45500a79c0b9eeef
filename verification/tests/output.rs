use sloc::cli::SortMetric;
use sloc::compare::ComparisonResult;
use sloc::output::{ConsoleOutput, ReportExporter};
use sloc::report::{Report, Timestamp};
use sloc::stats::{FileStats, LanguageStats};

fn file(path: &str, language: &str, counts: (usize, usize, usize, usize)) -> FileStats {
    FileStats {
        path: path.to_string(),
        language: language.to_string(),
        total_lines: counts.0,
        logical_lines: counts.1,
        comment_lines: counts.2,
        empty_lines: counts.3,
    }
}

fn small() -> Report {
    Report::new(
        vec![
            file("src/a&b.rs", "Rust", (10, 7, 2, 1)),
            file("x.c", "C", (120, 100, 0, 20)),
        ],
        vec!["<odd>.bin".to_string(), "notes".to_string()],
        Timestamp { seconds: 1431648000, nanoseconds: 0 },
    )
}

#[test]
fn escape_xml_replaces_the_five_characters() {
    let exporter = ReportExporter::new();
    assert_eq!(exporter.escape_xml(""), "");
    assert_eq!(exporter.escape_xml("plain é"), "plain é");
    assert_eq!(
        exporter.escape_xml("<a href=\"x\">Tom & 'Jerry'</a>"),
        "&lt;a href=&quot;x&quot;&gt;Tom &amp; &apos;Jerry&apos;&lt;/a&gt;"
    );
    assert_eq!(exporter.escape_xml("&amp;"), "&amp;amp;");
}

#[test]
fn files_xml() {
    let exporter = ReportExporter::new();
    assert_eq!(exporter.format_files_xml(&[]), "");
    let report = small();
    let expected = "    <file>\n      <path>src/a&amp;b.rs</path>\n      <language>Rust</language>\n      <totalLines>10</totalLines>\n      <logicalLines>7</logicalLines>\n      <commentLines>2</commentLines>\n      <emptyLines>1</emptyLines>\n    </file>\n    <file>\n      <path>x.c</path>\n      <language>C</language>\n      <totalLines>120</totalLines>\n      <logicalLines>100</logicalLines>\n      <commentLines>0</commentLines>\n      <emptyLines>20</emptyLines>\n    </file>";
    assert_eq!(exporter.format_files_xml(&report.files), expected);
}

#[test]
fn languages_xml() {
    let exporter = ReportExporter::new();
    assert_eq!(exporter.format_languages_xml(&[]), "");
    let languages = vec![LanguageStats {
        language: "C<>".to_string(),
        file_count: 3,
        total_lines: 1005,
        logical_lines: 1000,
        comment_lines: 4,
        empty_lines: 1,
    }];
    let expected = "    <language>\n      <language>C&lt;&gt;</language>\n      <fileCount>3</fileCount>\n      <totalLines>1005</totalLines>\n      <logicalLines>1000</logicalLines>\n      <commentLines>4</commentLines>\n      <emptyLines>1</emptyLines>\n    </language>";
    assert_eq!(exporter.format_languages_xml(&languages), expected);
}

#[test]
fn unsupported_files_xml() {
    let exporter = ReportExporter::new();
    assert_eq!(exporter.format_unsupported_files_xml(&[]), "");
    assert_eq!(
        exporter.format_unsupported_files_xml(&["<odd>.bin".to_string(), "notes".to_string()]),
        "    <unsupportedFile>&lt;odd&gt;.bin</unsupportedFile>\n    <unsupportedFile>notes</unsupportedFile>"
    );
}

#[test]
fn checksum_xml() {
    let exporter = ReportExporter::new();
    assert_eq!(exporter.format_checksum_xml(&None), "");
    assert_eq!(
        exporter.format_checksum_xml(&Some("ab\"12".to_string())),
        "\n  <checksum>ab&quot;12</checksum>"
    );
}

#[test]
fn xml_document_of_a_report() {
    let exporter = ReportExporter::new();
    let mut report = small();
    report.attach_digest(&[0xab, 0x01]);
    let expected = "<?xml version=\"1.0\" encoding=\"UTF-8\"?>\n<report>\n  <reportFormatVersion>1.0.0</reportFormatVersion>\n  <generatedAt>NOW</generatedAt>\n  <summary>\n    <totalFiles>2</totalFiles>\n    <totalLines>130</totalLines>\n    <logicalLines>107</logicalLines>\n    <commentLines>2</commentLines>\n    <emptyLines>21</emptyLines>\n    <languagesCount>2</languagesCount>\n    <unsupportedFiles>2</unsupportedFiles>\n  </summary>\n  <files>\n    <file>\n      <path>src/a&amp;b.rs</path>\n      <language>Rust</language>\n      <totalLines>10</totalLines>\n      <logicalLines>7</logicalLines>\n      <commentLines>2</commentLines>\n      <emptyLines>1</emptyLines>\n    </file>\n    <file>\n      <path>x.c</path>\n      <language>C</language>\n      <totalLines>120</totalLines>\n      <logicalLines>100</logicalLines>\n      <commentLines>0</commentLines>\n      <emptyLines>20</emptyLines>\n    </file></files>\n  <languages>\n    <language>\n      <language>C</language>\n      <fileCount>1</fileCount>\n      <totalLines>120</totalLines>\n      <logicalLines>100</logicalLines>\n      <commentLines>0</commentLines>\n      <emptyLines>20</emptyLines>\n    </language>\n    <language>\n      <language>Rust</language>\n      <fileCount>1</fileCount>\n      <totalLines>10</totalLines>\n      <logicalLines>7</logicalLines>\n      <commentLines>2</commentLines>\n      <emptyLines>1</emptyLines>\n    </language></languages>\n  <unsupportedFiles>\n    <unsupportedFile>&lt;odd&gt;.bin</unsupportedFile>\n    <unsupportedFile>notes</unsupportedFile></unsupportedFiles>\n\n  <checksum>ab01</checksum></report>";
    assert_eq!(exporter.xml_document(&report, "NOW"), expected);
}

#[test]
fn export_xml_writes_the_time_in_rfc_3339() {
    let exporter = ReportExporter::new();
    let report = Report::new(
        vec![],
        vec![],
        Timestamp { seconds: 1431648000, nanoseconds: 0 },
    );
    let xml = exporter.export_xml(&report).expect("a time within range");
    assert_eq!(
        xml,
        exporter.xml_document(&report, "2015-05-15T00:00:00+00:00")
    );
    assert!(xml.ends_with("<unsupportedFiles>\n</unsupportedFiles>\n</report>"));
    let fraction = Report::new(
        vec![],
        vec![],
        Timestamp { seconds: -1, nanoseconds: 500_000_000 },
    );
    let xml = exporter.export_xml(&fraction).unwrap();
    assert!(xml.contains("<generatedAt>1969-12-31T23:59:59.500+00:00</generatedAt>"));
}

#[test]
fn export_xml_without_a_representable_time() {
    let exporter = ReportExporter::new();
    let report = Report::new(
        vec![],
        vec![],
        Timestamp { seconds: i64::MAX, nanoseconds: 0 },
    );
    assert_eq!(exporter.export_xml(&report), None);
    let nanos = Report::new(
        vec![],
        vec![],
        Timestamp { seconds: 0, nanoseconds: 2_000_000_000 },
    );
    assert_eq!(exporter.export_xml(&nanos), None);
}

fn strings(rows: &[&[&str]]) -> Vec<Vec<String>> {
    rows.iter()
        .map(|r| r.iter().map(|s| s.to_string()).collect())
        .collect()
}

#[test]
fn csv_records_of_a_report() {
    let exporter = ReportExporter::new();
    let expected = strings(&[
        &["Path", "Language", "Total Lines", "Logical Lines", "Comment Lines", "Empty Lines"],
        &["src/a&b.rs", "Rust", "10", "7", "2", "1"],
        &["x.c", "C", "120", "100", "0", "20"],
        &["--- Unsupported Files (not counted) ---"],
        &["<odd>.bin"],
        &["notes"],
    ]);
    assert_eq!(exporter.export_csv(&small()), expected);
}

#[test]
fn csv_records_without_unsupported_files() {
    let exporter = ReportExporter::new();
    let report = Report::new(
        vec![file("a", "", (usize::MAX, 0, 0, 0))],
        vec![],
        Timestamp { seconds: 0, nanoseconds: 0 },
    );
    let expected = vec![
        vec![
            "Path".to_string(),
            "Language".to_string(),
            "Total Lines".to_string(),
            "Logical Lines".to_string(),
            "Comment Lines".to_string(),
            "Empty Lines".to_string(),
        ],
        vec![
            "a".to_string(),
            String::new(),
            usize::MAX.to_string(),
            "0".to_string(),
            "0".to_string(),
            "0".to_string(),
        ],
    ];
    assert_eq!(exporter.export_csv(&report), expected);
}

#[test]
fn csv_records_of_a_comparison() {
    let exporter = ReportExporter::new();
    let time = Timestamp { seconds: 0, nanoseconds: 0 };
    let a = Report::new(
        vec![file("a", "C", (1500, 1000, 0, 500)), file("b", "Go", (5, 5, 0, 0))],
        vec![],
        time,
    );
    let b = Report::new(vec![file("c", "Rust", (10, 7, 2, 1))], vec![], time);
    let comparison = ComparisonResult::compare(&a, &b);
    let expected = strings(&[
        &["Type", "Name", "Files Delta", "Total Delta", "Logical Delta", "Empty Delta"],
        &["Global", "Summary", "-1", "-1495", "-998", "-499"],
        &["Language", "C", "-1", "-1500", "-1000", "-500"],
        &["Language", "Go", "-1", "-5", "-5", "0"],
        &["Language", "Rust", "1", "10", "7", "1"],
    ]);
    assert_eq!(exporter.comparison_csv(&comparison), expected);
}

fn listing() -> Report {
    Report::new(
        vec![
            file("m.rs", "Rust", (10, 5, 0, 5)),
            file("a.py", "Python", (30, 5, 5, 20)),
            file("z.c", "C", (10, 9, 1, 0)),
            file("b.rs", "Rust", (20, 1, 0, 19)),
        ],
        vec![],
        Timestamp { seconds: 0, nanoseconds: 0 },
    )
}

fn file_paths(console: &ConsoleOutput, report: &Report) -> Vec<String> {
    console.file_rows(report).into_iter().map(|f| f.path).collect()
}

fn language_names(console: &ConsoleOutput, report: &Report) -> Vec<String> {
    console
        .language_rows(report)
        .into_iter()
        .map(|l| l.language)
        .collect()
}

#[test]
fn file_rows_by_metric() {
    let report = listing();
    let rows = |metric| file_paths(&ConsoleOutput::new(metric, true), &report);
    assert_eq!(rows(None), vec!["m.rs", "a.py", "z.c", "b.rs"]);
    assert_eq!(rows(Some(SortMetric::Total)), vec!["a.py", "b.rs", "m.rs", "z.c"]);
    assert_eq!(rows(Some(SortMetric::Logical)), vec!["z.c", "m.rs", "a.py", "b.rs"]);
    assert_eq!(rows(Some(SortMetric::Empty)), vec!["a.py", "b.rs", "m.rs", "z.c"]);
    assert_eq!(rows(Some(SortMetric::Name)), vec!["a.py", "b.rs", "m.rs", "z.c"]);
    assert_eq!(rows(Some(SortMetric::Language)), vec!["z.c", "a.py", "m.rs", "b.rs"]);
}

#[test]
fn language_rows_by_metric() {
    let report = listing();
    let rows = |metric| language_names(&ConsoleOutput::new(metric, false), &report);
    assert_eq!(rows(None), vec!["C", "Python", "Rust"]);
    assert_eq!(rows(Some(SortMetric::Name)), vec!["C", "Python", "Rust"]);
    assert_eq!(rows(Some(SortMetric::Language)), vec!["C", "Python", "Rust"]);
    assert_eq!(rows(Some(SortMetric::Total)), vec!["Python", "Rust", "C"]);
    assert_eq!(rows(Some(SortMetric::Logical)), vec!["C", "Rust", "Python"]);
    assert_eq!(rows(Some(SortMetric::Empty)), vec!["Rust", "Python", "C"]);
}

#[test]
fn file_listing_needs_details_and_few_files() {
    let report = listing();
    assert!(ConsoleOutput::new(None, true).lists_files(&report));
    assert!(!ConsoleOutput::new(None, false).lists_files(&report));
    assert!(ConsoleOutput::new(None, true).details());
    let many: Vec<FileStats> = (0..21).map(|i| file(&i.to_string(), "X", (1, 1, 0, 0))).collect();
    let twenty = Report::new(many[..20].to_vec(), vec![], report.generated_at);
    let more = Report::new(many, vec![], report.generated_at);
    assert!(ConsoleOutput::new(None, true).lists_files(&twenty));
    assert!(!ConsoleOutput::new(None, true).lists_files(&more));
}
