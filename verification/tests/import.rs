use sloc::error::SlocError;
use sloc::import::{import_csv, parse_number};
use sloc::output::ReportExporter;
use sloc::report::{Report, Timestamp};
use sloc::stats::FileStats;

fn file(path: &str, language: &str, counts: (usize, usize, usize, usize)) -> FileStats {
    FileStats {
        path: path.to_string(),
        language: language.to_string(),
        total_lines: counts.0,
        logical_lines: counts.1,
        comment_lines: counts.2,
        empty_lines: counts.3,
    }
}

fn rows(records: &[&[&str]]) -> Vec<Vec<String>> {
    records
        .iter()
        .map(|r| r.iter().map(|s| s.to_string()).collect())
        .collect()
}

const HEADER: [&str; 6] =
    ["Path", "Language", "Total Lines", "Logical Lines", "Comment Lines", "Empty Lines"];

#[test]
fn numbers_are_read_from_digits() {
    assert_eq!(parse_number("0"), Some(0));
    assert_eq!(parse_number("007"), Some(7));
    assert_eq!(parse_number("1234567890"), Some(1234567890));
    assert_eq!(parse_number(&usize::MAX.to_string()), Some(usize::MAX));
    assert_eq!(parse_number(&format!("{}0", usize::MAX)), None);
    assert_eq!(parse_number("18446744073709551616"), "18446744073709551616".parse().ok());
    assert_eq!(parse_number(""), None);
    assert_eq!(parse_number("+1"), None);
    assert_eq!(parse_number("-1"), None);
    assert_eq!(parse_number("1 "), None);
    assert_eq!(parse_number("1a"), None);
    assert_eq!(parse_number("\u{0661}"), None);
}

#[test]
fn files_survive_the_csv_records() {
    let files = vec![
        file("src/a&b.rs", "Rust", (10, 7, 2, 1)),
        file("x,\"y\".c", "C", (usize::MAX, 0, 0, 20)),
        file("", "", (0, 0, 0, 0)),
    ];
    let time = Timestamp { seconds: 5, nanoseconds: 0 };
    for unsupported in [vec![], vec!["u.bin".to_string(), "v".to_string()]] {
        let mut report = Report::new(files.clone(), unsupported, time);
        report.summary.total_lines = 0;
        report.calculate_checksum();
        let records = ReportExporter::new().export_csv(&report);
        let read = import_csv(&records).expect("the records of a report");
        assert_eq!(read.len(), 3);
        for (a, b) in files.iter().zip(read.iter()) {
            assert_eq!(a.path, b.path);
            assert_eq!(a.language, b.language);
            assert_eq!(a.total_lines, b.total_lines);
            assert_eq!(a.logical_lines, b.logical_lines);
            assert_eq!(a.comment_lines, b.comment_lines);
            assert_eq!(a.empty_lines, b.empty_lines);
        }
    }
}

#[test]
fn report_survives_csv_but_for_unsupported_files_and_checksum() {
    let files = vec![file("b.rs", "Rust", (10, 7, 2, 1)), file("a.c", "C", (6, 2, 3, 1))];
    let time = Timestamp { seconds: 5, nanoseconds: 0 };
    let mut first = Report::new(files, vec!["u.bin".to_string()], time);
    first.calculate_checksum();
    let records = ReportExporter::new().export_csv(&first);
    let read = import_csv(&records).unwrap();
    let second = Report::new(read, vec![], time);
    assert_eq!(second.files.len(), 2);
    assert_eq!(second.files[0].path, "b.rs");
    assert_eq!(second.languages.len(), first.languages.len());
    assert_eq!(second.languages[0].language, "C");
    assert_eq!(second.languages[1].total_lines, 10);
    assert_eq!(second.summary.total_files, first.summary.total_files);
    assert_eq!(second.summary.total_lines, first.summary.total_lines);
    assert_eq!(second.summary.comment_lines, first.summary.comment_lines);
    assert_eq!(second.summary.languages_count, first.summary.languages_count);
    assert_eq!(second.summary.unsupported_files, 0);
    assert!(second.unsupported_files.is_empty());
    assert_eq!(second.checksum, None);
}

fn is_deserialization(result: Result<Vec<FileStats>, SlocError>) -> bool {
    matches!(result, Err(SlocError::Deserialization(_)))
}

#[test]
fn file_table_without_files() {
    assert_eq!(import_csv(&rows(&[&HEADER])).unwrap().len(), 0);
    let trailer = rows(&[&HEADER, &["--- Unsupported Files (not counted) ---"], &["u"]]);
    assert_eq!(import_csv(&trailer).unwrap().len(), 0);
}

#[test]
fn records_behind_the_trailer_are_left_aside() {
    let records = rows(&[
        &HEADER,
        &["a", "A", "3", "2", "1", "0"],
        &["--- Unsupported Files (not counted) ---"],
        &["not", "a", "file", "record", "at", "all"],
        &[],
    ]);
    let files = import_csv(&records).unwrap();
    assert_eq!(files.len(), 1);
    assert_eq!(files[0].path, "a");
    assert_eq!(files[0].total_lines, 3);
}

#[test]
fn malformed_file_tables_are_refused() {
    assert!(is_deserialization(import_csv(&rows(&[&["a", "A", "3", "2", "1", "0"]]))));
    assert!(is_deserialization(import_csv(&rows(&[
        &["Path", "language", "total_lines", "logical_lines", "comment_lines", "empty_lines"],
    ]))));
    assert!(is_deserialization(import_csv(&rows(&[
        &["path", "language", "total_lines", "logical_lines", "comment_lines"],
        &["a", "A", "3", "2", "1"],
    ]))));
    assert!(is_deserialization(import_csv(&rows(&[&HEADER, &["a", "A", "3", "2", "1"]]))));
    assert!(is_deserialization(import_csv(&rows(&[&HEADER, &["a", "A", "3", "2", "1", "x"]]))));
    assert!(is_deserialization(import_csv(&rows(&[&HEADER, &["a", "A", "3", "2", "1", "0", ""]]))));
    assert!(is_deserialization(import_csv(&rows(&[&HEADER, &["a", "A", "", "2", "1", "0"]]))));
    assert!(is_deserialization(import_csv(&rows(&[
        &HEADER,
        &["a", "A", "3", "2", "1", "0"],
        &["--- unsupported files ---"],
    ]))));
}

const FIELDS: [&str; 6] =
    ["path", "language", "total_lines", "logical_lines", "comment_lines", "empty_lines"];

#[test]
fn no_record_is_a_table_without_files() {
    assert_eq!(import_csv(&vec![]).unwrap().len(), 0);
    assert_eq!(import_csv(&rows(&[&FIELDS])).unwrap().len(), 0);
}

#[test]
fn file_table_under_the_header_of_field_names() {
    let records = rows(&[&FIELDS, &["a.rs", "Rust", "10", "7", "2", "1"]]);
    let files = import_csv(&records).expect("a file table");
    assert_eq!(files.len(), 1);
    assert_eq!(files[0].path, "a.rs");
    assert_eq!(files[0].language, "Rust");
    assert_eq!(files[0].total_lines, 10);
    assert_eq!(files[0].logical_lines, 7);
    assert_eq!(files[0].comment_lines, 2);
    assert_eq!(files[0].empty_lines, 1);
    let report = Report::new(files, vec![], Timestamp { seconds: 0, nanoseconds: 0 });
    assert_eq!(report.files.len(), 1);
    assert_eq!(report.languages.len(), 1);
    assert_eq!(report.languages[0].language, "Rust");
    assert_eq!(report.languages[0].file_count, 1);
    assert_eq!(report.languages[0].total_lines, 10);
    assert_eq!(report.languages[0].logical_lines, 7);
    assert_eq!(report.languages[0].comment_lines, 2);
    assert_eq!(report.languages[0].empty_lines, 1);
    assert_eq!(report.summary.total_files, 1);
    assert_eq!(report.summary.total_lines, 10);
    assert_eq!(report.summary.unsupported_files, 0);
    assert!(report.unsupported_files.is_empty());
    assert_eq!(report.checksum, None);
}
