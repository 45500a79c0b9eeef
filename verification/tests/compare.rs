use sloc::compare::{ComparisonResult, GlobalDelta};
use sloc::report::{Report, Timestamp};
use sloc::stats::{FileStats, LanguageStats};

fn file(path: &str, language: &str, counts: (usize, usize, usize, usize)) -> FileStats {
    FileStats {
        path: path.to_string(),
        language: language.to_string(),
        total_lines: counts.0,
        logical_lines: counts.1,
        comment_lines: counts.2,
        empty_lines: counts.3,
    }
}

fn report(files: Vec<FileStats>, seconds: i64) -> Report {
    Report::new(files, vec![], Timestamp { seconds, nanoseconds: 0 })
}

fn first() -> Report {
    report(
        vec![
            file("a.rs", "Rust", (10, 7, 2, 1)),
            file("b.c", "C", (6, 2, 3, 1)),
            file("c.py", "Python", (5, 5, 0, 0)),
            file("d.go", "Go", (8, 6, 1, 1)),
        ],
        100,
    )
}

fn second() -> Report {
    report(
        vec![
            file("e.rs", "Rust", (3, 3, 0, 0)),
            file("d.go", "Go", (8, 5, 2, 1)),
            file("a.rs", "Rust", (12, 7, 2, 3)),
            file("c.py", "Python", (5, 5, 0, 0)),
            file("f.js", "JavaScript", (1, 1, 0, 0)),
        ],
        200,
    )
}

#[test]
fn compare_two_reports() {
    let result = ComparisonResult::compare(&first(), &second());
    assert_eq!(result.report1_generated, Timestamp { seconds: 100, nanoseconds: 0 });
    assert_eq!(result.report2_generated, Timestamp { seconds: 200, nanoseconds: 0 });
    assert_eq!(result.new_files, vec!["e.rs", "f.js"]);
    assert_eq!(result.removed_files, vec!["b.c"]);
    let modified: Vec<(&str, i64, i64, i64)> = result
        .modified_files
        .iter()
        .map(|d| {
            (
                d.path.as_str(),
                d.total_lines_delta,
                d.logical_lines_delta,
                d.empty_lines_delta,
            )
        })
        .collect();
    assert_eq!(modified, vec![("d.go", 0, -1, 0), ("a.rs", 2, 0, 2)]);
    assert_eq!(
        result.global_delta,
        GlobalDelta {
            files_delta: 1,
            total_lines_delta: 0,
            logical_lines_delta: 1,
            empty_lines_delta: 1,
            languages_delta: 0,
        }
    );
    let languages: Vec<(&str, i64, i64, i64, i64)> = result
        .language_deltas
        .iter()
        .map(|d| {
            (
                d.language.as_str(),
                d.files_delta,
                d.total_lines_delta,
                d.logical_lines_delta,
                d.empty_lines_delta,
            )
        })
        .collect();
    assert_eq!(
        languages,
        vec![
            ("C", -1, -6, -2, -1),
            ("JavaScript", 1, 1, 1, 0),
            ("Rust", 1, 5, 3, 2),
        ]
    );
}

#[test]
fn compare_is_directional() {
    let result = ComparisonResult::compare(&second(), &first());
    assert_eq!(result.new_files, vec!["b.c"]);
    assert_eq!(result.removed_files, vec!["e.rs", "f.js"]);
    assert_eq!(result.global_delta.files_delta, -1);
    assert_eq!(result.global_delta.empty_lines_delta, -1);
    let names: Vec<&str> = result.language_deltas.iter().map(|d| d.language.as_str()).collect();
    assert_eq!(names, vec!["C", "JavaScript", "Rust"]);
    assert_eq!(result.language_deltas[2].total_lines_delta, -5);
}

#[test]
fn report_compared_with_itself() {
    let a = first();
    let result = ComparisonResult::compare(&a, &a);
    assert!(result.new_files.is_empty());
    assert!(result.removed_files.is_empty());
    assert!(result.modified_files.is_empty());
    assert!(result.language_deltas.is_empty());
    assert_eq!(
        result.global_delta,
        GlobalDelta {
            files_delta: 0,
            total_lines_delta: 0,
            logical_lines_delta: 0,
            empty_lines_delta: 0,
            languages_delta: 0,
        }
    );
}

#[test]
fn comment_lines_alone_do_not_modify_a_file() {
    let a = report(vec![file("a", "X", (5, 3, 1, 1))], 0);
    let b = report(vec![file("a", "X", (5, 3, 2, 1))], 0);
    let result = ComparisonResult::compare(&a, &b);
    assert!(result.modified_files.is_empty());
}

#[test]
fn language_delta_needs_files_or_total_to_change() {
    let a = report(vec![file("a", "X", (5, 3, 1, 1))], 0);
    let b = report(vec![file("a", "X", (5, 4, 0, 1))], 0);
    let result = ComparisonResult::compare(&a, &b);
    assert!(result.language_deltas.is_empty());
    assert_eq!(result.modified_files.len(), 1);
    assert_eq!(result.global_delta.logical_lines_delta, 1);
}

#[test]
fn last_entry_stands_for_a_repeated_path() {
    let a = report(
        vec![file("a", "X", (1, 1, 0, 0)), file("a", "X", (2, 2, 0, 0))],
        0,
    );
    let b = report(
        vec![
            file("a", "X", (9, 9, 0, 0)),
            file("n", "X", (1, 1, 0, 0)),
            file("a", "X", (2, 2, 0, 0)),
            file("n", "X", (3, 3, 0, 0)),
        ],
        0,
    );
    let result = ComparisonResult::compare(&a, &b);
    assert!(result.modified_files.is_empty());
    assert_eq!(result.new_files, vec!["n"]);
    let back = ComparisonResult::compare(&b, &a);
    assert_eq!(back.removed_files, vec!["n"]);
    assert!(back.new_files.is_empty());
}

#[test]
fn language_lists_of_the_reports_are_compared_as_they_are() {
    let mut a = report(vec![], 0);
    let mut b = report(vec![], 0);
    let entry = |name: &str, files: usize, total: usize| LanguageStats {
        language: name.to_string(),
        file_count: files,
        total_lines: total,
        logical_lines: total,
        comment_lines: 0,
        empty_lines: 0,
    };
    a.languages = vec![entry("z", 1, 1), entry("m", 2, 2), entry("z", 3, 30)];
    b.languages = vec![entry("m", 2, 2), entry("a", 1, 0), entry("z", 3, 31)];
    let result = ComparisonResult::compare(&a, &b);
    let rows: Vec<(&str, i64, i64)> = result
        .language_deltas
        .iter()
        .map(|d| (d.language.as_str(), d.files_delta, d.total_lines_delta))
        .collect();
    assert_eq!(rows, vec![("a", 1, 0), ("z", 0, 1)]);
}

fn as_signed(b: usize, a: usize) -> i64 {
    let d = b as i128 - a as i128;
    let turn = 1i128 << 64;
    let d = if d > i64::MAX as i128 {
        d - turn
    } else if d < i64::MIN as i128 {
        d + turn
    } else {
        d
    };
    d as i64
}

#[test]
fn differences_of_counts_beyond_the_signed_range() {
    let half = usize::MAX / 2;
    let mut a = first();
    let mut b = first();
    a.files[0].total_lines = 0;
    b.files[0].total_lines = usize::MAX;
    a.files[0].logical_lines = usize::MAX;
    b.files[0].logical_lines = usize::MAX - 2;
    a.files[0].empty_lines = half + 1;
    b.files[0].empty_lines = 0;
    a.summary.total_lines = half + 2;
    b.summary.total_lines = 0;
    a.summary.logical_lines = 1;
    b.summary.logical_lines = half + 1;
    a.languages[0].file_count = usize::MAX;
    b.languages[0].file_count = 0;
    let name = a.languages[0].language.clone();
    let result = ComparisonResult::compare(&a, &b);
    assert_eq!(result.modified_files.len(), 1);
    let delta = &result.modified_files[0];
    assert_eq!(delta.path, "a.rs");
    assert_eq!(delta.total_lines_delta, as_signed(usize::MAX, 0));
    assert_eq!(delta.logical_lines_delta, -2);
    assert_eq!(delta.empty_lines_delta, as_signed(0, half + 1));
    assert_eq!(result.global_delta.total_lines_delta, as_signed(0, half + 2));
    assert_eq!(result.global_delta.logical_lines_delta, as_signed(half + 1, 1));
    assert_eq!(result.global_delta.files_delta, 0);
    assert_eq!(result.language_deltas.len(), 1);
    assert_eq!(result.language_deltas[0].language, name);
    assert_eq!(result.language_deltas[0].files_delta, as_signed(0, usize::MAX));
    if usize::BITS == 64 {
        assert_eq!(delta.total_lines_delta, -1);
        assert_eq!(delta.empty_lines_delta, i64::MIN);
        assert_eq!(result.global_delta.total_lines_delta, i64::MAX);
        assert_eq!(result.global_delta.logical_lines_delta, i64::MAX);
        assert_eq!(result.language_deltas[0].files_delta, 1);
    }
}

#[test]
fn files_are_told_apart_as_paths() {
    let a = report(
        vec![
            file("src//a.rs", "Rust", (1, 1, 0, 0)),
            file("src/b.rs", "Rust", (5, 5, 0, 0)),
            file("./c.rs", "Rust", (2, 2, 0, 0)),
        ],
        0,
    );
    let b = report(
        vec![
            file("src/a.rs", "Rust", (3, 3, 0, 0)),
            file("src/./b.rs/", "Rust", (5, 5, 0, 0)),
            file("c.rs", "Rust", (2, 2, 0, 0)),
            file("src/../src/a.rs", "Rust", (1, 1, 0, 0)),
        ],
        0,
    );
    let result = ComparisonResult::compare(&a, &b);
    assert_eq!(result.new_files, vec!["c.rs", "src/../src/a.rs"]);
    assert_eq!(result.removed_files, vec!["./c.rs"]);
    let modified: Vec<(&str, i64)> = result
        .modified_files
        .iter()
        .map(|d| (d.path.as_str(), d.total_lines_delta))
        .collect();
    assert_eq!(modified, vec![("src/a.rs", 2)]);
}

#[test]
fn first_entry_writes_the_path_and_last_entry_counts() {
    let a = report(vec![file("x/y", "A", (1, 1, 0, 0))], 0);
    let b = report(
        vec![
            file("x//y", "A", (1, 1, 0, 0)),
            file("new/", "A", (1, 1, 0, 0)),
            file("x/y/", "A", (4, 4, 0, 0)),
            file("new", "A", (2, 2, 0, 0)),
        ],
        0,
    );
    let result = ComparisonResult::compare(&a, &b);
    assert_eq!(result.new_files, vec!["new/"]);
    assert!(result.removed_files.is_empty());
    assert_eq!(result.modified_files.len(), 1);
    assert_eq!(result.modified_files[0].path, "x//y");
    assert_eq!(result.modified_files[0].total_lines_delta, 3);
}

#[test]
fn report_with_repeated_paths_compared_with_itself() {
    let a = report(
        vec![
            file("a", "X", (1, 1, 0, 0)),
            file("./a", "X", (2, 2, 0, 0)),
            file("a/", "Y", (3, 3, 0, 0)),
            file("b//c", "Y", (4, 4, 0, 0)),
        ],
        7,
    );
    let result = ComparisonResult::compare(&a, &a);
    assert!(result.new_files.is_empty());
    assert!(result.removed_files.is_empty());
    assert!(result.modified_files.is_empty());
    assert!(result.language_deltas.is_empty());
    assert_eq!(result.global_delta.files_delta, 0);
    assert_eq!(result.global_delta.languages_delta, 0);
    assert_eq!(result.report1_generated, result.report2_generated);
}
