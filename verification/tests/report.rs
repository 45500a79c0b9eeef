use sloc::aggregate::{calculate_language_stats, calculate_summary, totals_fit};
use sloc::checksum::{checksum, checksum_bytes};
use sloc::report::{Report, Timestamp, REPORT_FORMAT_VERSION};
use sloc::stats::FileStats;

fn file(path: &str, language: &str, counts: (usize, usize, usize, usize)) -> FileStats {
    FileStats {
        path: path.to_string(),
        language: language.to_string(),
        total_lines: counts.0,
        logical_lines: counts.1,
        comment_lines: counts.2,
        empty_lines: counts.3,
    }
}

fn sample() -> Vec<FileStats> {
    vec![
        file("b.rs", "Rust", (10, 7, 2, 1)),
        file("a.c", "C", (6, 2, 3, 1)),
        file("c.rs", "Rust", (4, 4, 0, 0)),
        file("d.py", "Python", (0, 0, 0, 0)),
    ]
}

const EPOCH: Timestamp = Timestamp { seconds: 0, nanoseconds: 0 };

#[test]
fn languages_are_summed_and_sorted_by_name() {
    let languages = calculate_language_stats(&sample());
    let rows: Vec<(&str, usize, usize, usize, usize, usize)> = languages
        .iter()
        .map(|l| {
            (
                l.language.as_str(),
                l.file_count,
                l.total_lines,
                l.logical_lines,
                l.comment_lines,
                l.empty_lines,
            )
        })
        .collect();
    assert_eq!(
        rows,
        vec![
            ("C", 1, 6, 2, 3, 1),
            ("Python", 1, 0, 0, 0, 0),
            ("Rust", 2, 14, 11, 2, 1),
        ]
    );
}

#[test]
fn language_names_sort_by_bytes() {
    let files = vec![
        file("1", "b", (1, 1, 0, 0)),
        file("2", "B", (1, 1, 0, 0)),
        file("3", "é", (1, 1, 0, 0)),
        file("4", "a", (1, 1, 0, 0)),
        file("5", "", (1, 1, 0, 0)),
        file("6", "ab", (1, 1, 0, 0)),
    ];
    let names: Vec<String> = calculate_language_stats(&files)
        .into_iter()
        .map(|l| l.language)
        .collect();
    assert_eq!(names, vec!["", "B", "a", "ab", "b", "é"]);
}

#[test]
fn summary_sums_all_files() {
    let files = sample();
    let languages = calculate_language_stats(&files);
    let summary = calculate_summary(&files, &languages);
    assert_eq!(summary.total_files, 4);
    assert_eq!(summary.total_lines, 20);
    assert_eq!(summary.logical_lines, 13);
    assert_eq!(summary.comment_lines, 5);
    assert_eq!(summary.empty_lines, 2);
    assert_eq!(summary.languages_count, 3);
    assert_eq!(summary.unsupported_files, 0);
}

#[test]
fn report_made_at_a_time() {
    let report = Report::new(
        sample(),
        vec!["x.bin".to_string(), "y.bin".to_string()],
        Timestamp { seconds: 1431648000, nanoseconds: 5 },
    );
    assert_eq!(report.report_format_version, REPORT_FORMAT_VERSION);
    assert_eq!(report.generated_at, Timestamp { seconds: 1431648000, nanoseconds: 5 });
    assert_eq!(report.files.len(), 4);
    assert_eq!(report.files[0].path, "b.rs");
    assert_eq!(report.languages.len(), 3);
    assert_eq!(report.summary.total_files, 4);
    assert_eq!(report.summary.total_lines, 20);
    assert_eq!(report.summary.languages_count, 3);
    assert_eq!(report.summary.unsupported_files, 2);
    assert_eq!(report.unsupported_files, vec!["x.bin", "y.bin"]);
    assert_eq!(report.checksum, None);
}

#[test]
fn empty_report() {
    let report = Report::new(vec![], vec![], EPOCH);
    assert!(report.languages.is_empty());
    assert_eq!(report.summary.total_files, 0);
    assert_eq!(report.summary.total_lines, 0);
    assert_eq!(report.summary.languages_count, 0);
}

#[test]
fn totals_fit_detects_overflow() {
    assert!(totals_fit(&sample()));
    assert!(totals_fit(&vec![]));
    let big = vec![
        file("a", "A", (usize::MAX, 0, 0, 0)),
        file("b", "B", (1, 0, 0, 0)),
    ];
    assert!(!totals_fit(&big));
    let comment = vec![
        file("a", "A", (0, 0, usize::MAX, 0)),
        file("b", "B", (0, 0, usize::MAX, 0)),
    ];
    assert!(!totals_fit(&comment));
    let edge = vec![
        file("a", "A", (usize::MAX - 1, 0, 0, 0)),
        file("b", "B", (1, 0, 0, 0)),
    ];
    assert!(totals_fit(&edge));
}

#[test]
fn checksum_input_is_sorted_by_path() {
    let files = vec![
        file("b.rs", "Rust", (10, 7, 2, 1)),
        file("a.c", "C", (6, 2, 3, 1)),
    ];
    assert_eq!(checksum_bytes(&files), b"a.cC6231b.rsRust10721".to_vec());
    let report = Report::new(files, vec![], EPOCH);
    assert_eq!(report.checksum_input(), b"a.cC6231b.rsRust10721".to_vec());
}

#[test]
fn checksum_input_orders_paths_by_components() {
    let files = vec![
        file("src/main.rs", "Rust", (100, 75, 2, 5)),
        file("src/érable.py", "Python", (3, 2, 1, 0)),
        file("src-old/x.rs", "", (0, 0, 0, 0)),
    ];
    let expected = "src/main.rsRust1007525src/érable.pyPython3210src-old/x.rs0000";
    assert_eq!(checksum_bytes(&files), expected.as_bytes().to_vec());
}

#[test]
fn checksum_keeps_the_order_of_equal_paths() {
    let files = vec![
        file("a", "second", (2, 0, 0, 0)),
        file("b", "x", (9, 0, 0, 0)),
        file("a", "first", (1, 0, 0, 0)),
    ];
    assert_eq!(checksum_bytes(&files), b"asecond2000afirst1000bx9000".to_vec());
}

#[test]
fn checksum_known_value() {
    let files = vec![
        file("b.rs", "Rust", (10, 7, 2, 1)),
        file("a.c", "C", (6, 2, 3, 1)),
    ];
    assert_eq!(
        checksum(&files),
        "46d743a7c015a72fff2e4dd9d8b6c060e3ce4101f76c2f18352b304c82293db5"
    );
    assert_eq!(
        checksum(&vec![]),
        "e3b0c44298fc1c149afbf4c8996fb92427ae41e4649b934ca495991b7852b855"
    );
}

#[test]
fn checksum_does_not_depend_on_file_order() {
    let mut report = Report::new(sample(), vec![], EPOCH);
    report.calculate_checksum();
    let first = report.checksum.clone().unwrap();
    assert_eq!(first.len(), 64);
    let mut shuffled = sample();
    shuffled.reverse();
    shuffled.swap(0, 2);
    let mut other = Report::new(shuffled, vec!["ignored".to_string()], EPOCH);
    other.calculate_checksum();
    assert_eq!(other.checksum, Some(first.clone()));
    report.calculate_checksum();
    assert_eq!(report.checksum, Some(first));
}

#[test]
fn checksum_changes_with_the_counts() {
    let mut a = Report::new(sample(), vec![], EPOCH);
    a.calculate_checksum();
    let mut files = sample();
    files[1].empty_lines += 1;
    let mut b = Report::new(files, vec![], EPOCH);
    b.calculate_checksum();
    assert_ne!(a.checksum, b.checksum);
}

#[test]
fn calculate_checksum_changes_nothing_else() {
    let mut report = Report::new(sample(), vec!["u".to_string()], EPOCH);
    report.calculate_checksum();
    assert_eq!(report.files.len(), 4);
    assert_eq!(report.files[0].path, "b.rs");
    assert_eq!(report.summary.total_lines, 20);
    assert_eq!(report.unsupported_files, vec!["u"]);
    assert_eq!(report.generated_at, EPOCH);
}

#[test]
fn attach_digest_writes_lower_case_hex() {
    let mut report = Report::new(vec![], vec![], EPOCH);
    report.attach_digest(&[0x00, 0x0f, 0xa0, 0xff, 0x1b]);
    assert_eq!(report.checksum, Some("000fa0ff1b".to_string()));
    report.attach_digest(&[]);
    assert_eq!(report.checksum, Some(String::new()));
}

#[test]
fn report_made_anew_of_the_same_files_derives_the_same() {
    let mut first = Report::new(sample(), vec!["u".to_string()], EPOCH);
    first.calculate_checksum();
    let second = Report::new(
        first.files.clone(),
        vec![],
        Timestamp { seconds: 9, nanoseconds: 9 },
    );
    assert_eq!(second.files.len(), first.files.len());
    assert_eq!(second.languages.len(), first.languages.len());
    for (a, b) in first.languages.iter().zip(second.languages.iter()) {
        assert_eq!(a.language, b.language);
        assert_eq!(a.file_count, b.file_count);
        assert_eq!(a.total_lines, b.total_lines);
        assert_eq!(a.logical_lines, b.logical_lines);
        assert_eq!(a.comment_lines, b.comment_lines);
        assert_eq!(a.empty_lines, b.empty_lines);
    }
    assert_eq!(second.summary.total_files, first.summary.total_files);
    assert_eq!(second.summary.total_lines, first.summary.total_lines);
    assert_eq!(second.summary.languages_count, first.summary.languages_count);
    assert_eq!(second.summary.unsupported_files, 0);
    assert_eq!(second.checksum, None);
    assert!(second.unsupported_files.is_empty());
}

#[test]
fn checksum_input_puts_a_directory_before_its_longer_namesake() {
    let files = vec![
        file("foo.rs", "Rust", (1, 1, 0, 0)),
        file("foo/mod.rs", "Rust", (2, 2, 0, 0)),
        file("/abs", "", (3, 0, 0, 3)),
        file("./foo", "", (4, 0, 0, 4)),
        file("../up", "", (5, 0, 0, 5)),
    ];
    let expected = "/abs3003./foo4004../up5005foo/mod.rsRust2200foo.rsRust1100";
    assert_eq!(checksum_bytes(&files), expected.as_bytes().to_vec());
}

#[test]
fn checksum_is_sixty_four_hex_digits() {
    for files in [vec![], sample()] {
        let text = checksum(&files);
        assert_eq!(text.len(), 64);
        assert!(text.chars().all(|c| "0123456789abcdef".contains(c)));
    }
}
