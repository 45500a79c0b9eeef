use sloc::counter::{count_lines, partition_results, FileOutcome};
use sloc::detector::LanguageDetector;
use sloc::language::Language;
use sloc::report::{Report, Timestamp};
use sloc::stats::FileStats;

fn counts(content: &str, language: Option<&Language>) -> (usize, usize, usize, usize) {
    let stats = count_lines("file", content, language, false);
    (
        stats.total_lines,
        stats.logical_lines,
        stats.comment_lines,
        stats.empty_lines,
    )
}

#[test]
fn lines_are_split_at_line_feeds() {
    assert_eq!(counts("", None), (0, 0, 0, 0));
    assert_eq!(counts("\n", None), (1, 0, 0, 1));
    assert_eq!(counts("a", None), (1, 1, 0, 0));
    assert_eq!(counts("a\n", None), (1, 1, 0, 0));
    assert_eq!(counts("a\n\n", None), (2, 1, 0, 1));
    assert_eq!(counts("a\nb", None), (2, 2, 0, 0));
    assert_eq!(counts("a\r\nb\r\n", None), (2, 2, 0, 0));
    assert_eq!(counts("\r\n\r\n", None), (2, 0, 0, 2));
    assert_eq!(counts("a\rb", None), (1, 1, 0, 0));
    assert_eq!(counts(" \u{a0}\u{3000}\t\n", None), (1, 0, 0, 1));
}

#[test]
fn carriage_return_is_stripped_before_classification() {
    let detector = LanguageDetector::new();
    let c = detector.detect_extension("c").unwrap();
    assert_eq!(counts("//\r\nint x;\r\n", Some(c)), (2, 1, 0, 1));
}

#[test]
fn total_is_the_sum_of_the_kinds() {
    let detector = LanguageDetector::new();
    let contents = [
        "",
        "/* a\n b */ c\n// d\n\ne // f\n",
        "/*\n/*\n*/\nx\n*/\ny",
        "''' doc\n'''\nx = 1 # c\n\"\"\"\n",
    ];
    for extension in ["rs", "c", "py", "html", "sh"] {
        let language = detector.detect_extension(extension);
        for content in contents {
            let stats = count_lines("f", content, language, true);
            assert_eq!(
                stats.total_lines,
                stats.logical_lines + stats.comment_lines + stats.empty_lines
            );
            assert_eq!(stats.total_lines, content.lines().count());
        }
    }
}

#[test]
fn nested_block_comments_are_counted_as_comments() {
    let detector = LanguageDetector::new();
    let rust = detector.detect_extension("rs").unwrap();
    let content = "/* outer\n/* inner */\nstill outer\n*/\nfn main() {}\n";
    assert_eq!(counts(content, Some(rust)), (5, 1, 4, 0));
}

#[test]
fn blank_line_inside_block_comment_is_empty() {
    let detector = LanguageDetector::new();
    let c = detector.detect_extension("c").unwrap();
    let content = "/*\n\n   \ntext\n*/\n";
    assert_eq!(counts(content, Some(c)), (5, 0, 3, 2));
}

#[test]
fn python_docstring_pairs() {
    let detector = LanguageDetector::new();
    let python = detector.detect_extension("py").unwrap();
    let content = "'''\ndoc\n'''\nx = 1\n# note\ny = 2  # why\n";
    assert_eq!(counts(content, Some(python)), (6, 2, 4, 0));
}

#[test]
fn preprocessor_lines_are_empty_when_ignored() {
    let detector = LanguageDetector::new();
    let c = detector.detect_extension("c").unwrap();
    let content = "#include <a.h>\nint x;\n";
    let counted = count_lines("a.c", content, Some(c), false);
    assert_eq!((counted.logical_lines, counted.empty_lines), (2, 0));
    let ignored = count_lines("a.c", content, Some(c), true);
    assert_eq!((ignored.logical_lines, ignored.empty_lines), (1, 1));
}

fn stats(path: &str, language: &str, total: usize) -> FileStats {
    FileStats {
        path: path.to_string(),
        language: language.to_string(),
        total_lines: total,
        logical_lines: total,
        comment_lines: 0,
        empty_lines: 0,
    }
}

#[test]
fn unknown_and_unreadable_files_are_unsupported() {
    let outcomes = vec![
        FileOutcome::Counted(stats("a.rs", "Rust", 3)),
        FileOutcome::Counted(stats("b.xyz", "Unknown", 5)),
        FileOutcome::Unreadable("c.rs".to_string()),
        FileOutcome::Counted(stats("d.c", "C", 4)),
    ];
    let (files, unsupported) = partition_results(&outcomes);
    let paths: Vec<&str> = files.iter().map(|f| f.path.as_str()).collect();
    assert_eq!(paths, vec!["a.rs", "d.c"]);
    assert_eq!(unsupported, vec!["b.xyz".to_string(), "c.rs".to_string()]);
}

#[test]
fn unsupported_file_scenario() {
    let detector = LanguageDetector::new();
    let time = Timestamp { seconds: 0, nanoseconds: 0 };
    let known = sloc::counter::count_file("a.rs", "fn f() {}\n", &detector, false);
    let without = Report::new(vec![known.clone()], vec![], time);
    let unknown = sloc::counter::count_file("notes.xyz", "one\ntwo\n", &detector, false);
    let outcomes = vec![FileOutcome::Counted(known), FileOutcome::Counted(unknown)];
    let (files, unsupported) = partition_results(&outcomes);
    let with = Report::new(files, unsupported, time);
    assert_eq!(with.unsupported_files, vec!["notes.xyz".to_string()]);
    assert_eq!(
        with.summary.unsupported_files,
        without.summary.unsupported_files + 1
    );
    assert_eq!(with.summary.total_files, without.summary.total_files);
    assert_eq!(with.summary.total_lines, without.summary.total_lines);
    assert_eq!(with.languages.len(), 1);
    assert_eq!(with.languages[0].language, "Rust");
    assert_eq!(with.languages[0].file_count, 1);
    assert_eq!(with.languages[0].total_lines, 1);
    assert_eq!(with.files.len(), 1);
}

#[test]
fn unterminated_comment_runs_to_the_end_of_the_file() {
    let detector = LanguageDetector::new();
    let c = detector.detect_extension("c").unwrap();
    assert_eq!(counts("int a;\n/* open\nint b;\n\nint c; // d\n", Some(c)), (5, 1, 3, 1));
    let rust = detector.detect_extension("rs").unwrap();
    assert_eq!(counts("/* /* */\nfn f() {}\n// x\n", Some(rust)), (3, 0, 3, 0));
}

#[test]
fn comment_state_does_not_pass_from_file_to_file() {
    let detector = LanguageDetector::new();
    let c = detector.detect_extension("c").unwrap();
    assert_eq!(counts("/* open\n", Some(c)), (1, 0, 1, 0));
    assert_eq!(counts("int b;\n", Some(c)), (1, 1, 0, 0));
}
