use sloc::detector::LanguageDetector;
use sloc::language::Language;

fn language(name: &str, extensions: &[&str]) -> Language {
    Language {
        name: name.to_string(),
        extensions: extensions.iter().map(|e| e.to_string()).collect(),
        single_line_comment: vec!["#".to_string()],
        multi_line_comment: vec![],
        nested_comments: false,
        preprocessor_prefix: None,
    }
}

fn detected(detector: &LanguageDetector, path: &str) -> Option<String> {
    detector.detect(path).map(|l| l.name.clone())
}

#[test]
fn built_in_extensions() {
    let detector = LanguageDetector::new();
    let expected = [
        ("a.rs", "Rust"),
        ("a.c", "C"),
        ("a.h", "C"),
        ("a.cpp", "C++"),
        ("a.cc", "C++"),
        ("a.cxx", "C++"),
        ("a.hpp", "C++"),
        ("a.hh", "C++"),
        ("a.hxx", "C++"),
        ("a.py", "Python"),
        ("a.pyw", "Python"),
        ("a.js", "JavaScript"),
        ("a.jsx", "JavaScript"),
        ("a.mjs", "JavaScript"),
        ("a.ts", "TypeScript"),
        ("a.tsx", "TypeScript"),
        ("a.java", "Java"),
        ("a.go", "Go"),
        ("a.rb", "Ruby"),
        ("a.sh", "Shell"),
        ("a.bash", "Shell"),
        ("a.zsh", "Shell"),
        ("a.sql", "SQL"),
        ("a.html", "HTML"),
        ("a.htm", "HTML"),
        ("a.css", "CSS"),
        ("a.scss", "CSS"),
        ("a.sass", "CSS"),
        ("a.yaml", "YAML"),
        ("a.yml", "YAML"),
        ("a.toml", "TOML"),
    ];
    for (path, name) in expected {
        assert_eq!(detected(&detector, path), Some(name.to_string()));
    }
}

#[test]
fn built_in_grammars() {
    let detector = LanguageDetector::new();
    let rust = detector.detect_extension("rs").unwrap();
    assert!(rust.nested_comments);
    assert_eq!(rust.single_line_comment, vec!["//".to_string()]);
    assert_eq!(
        rust.multi_line_comment,
        vec![("/*".to_string(), "*/".to_string())]
    );
    assert_eq!(rust.preprocessor_prefix, None);
    let c = detector.detect_extension("c").unwrap();
    assert!(!c.nested_comments);
    assert_eq!(c.preprocessor_prefix, Some("#".to_string()));
    let python = detector.detect_extension("py").unwrap();
    assert_eq!(
        python.multi_line_comment,
        vec![
            ("'''".to_string(), "'''".to_string()),
            ("\"\"\"".to_string(), "\"\"\"".to_string()),
        ]
    );
    let html = detector.detect_extension("html").unwrap();
    assert!(html.single_line_comment.is_empty());
    assert_eq!(
        html.multi_line_comment,
        vec![("<!--".to_string(), "-->".to_string())]
    );
    let shell = detector.detect_extension("sh").unwrap();
    assert!(shell.multi_line_comment.is_empty());
    let ruby = detector.detect_extension("rb").unwrap();
    assert_eq!(
        ruby.multi_line_comment,
        vec![("=begin".to_string(), "=end".to_string())]
    );
    let sql = detector.detect_extension("sql").unwrap();
    assert_eq!(sql.single_line_comment, vec!["--".to_string()]);
}

#[test]
fn extension_is_read_from_the_final_component() {
    let detector = LanguageDetector::new();
    assert_eq!(detected(&detector, "src/lib/main.rs"), Some("Rust".to_string()));
    assert_eq!(detected(&detector, "archive.rs.gz"), None);
    assert_eq!(detected(&detector, "dir.rs/readme"), None);
    assert_eq!(detected(&detector, ".rs"), None);
    assert_eq!(detected(&detector, "main.RS"), None);
    assert_eq!(detected(&detector, "main."), None);
    assert_eq!(detected(&detector, ""), None);
}

#[test]
fn later_language_takes_over_shared_extension() {
    let mut detector = LanguageDetector::new();
    detector.add_language("header".to_string(), language("Header", &["h", "hdr"]));
    assert_eq!(detected(&detector, "a.h"), Some("Header".to_string()));
    assert_eq!(detected(&detector, "a.hdr"), Some("Header".to_string()));
    assert_eq!(detected(&detector, "a.c"), Some("C".to_string()));
}

#[test]
fn replaced_key_keeps_old_extension_links() {
    let mut detector = LanguageDetector::new();
    detector.add_language("c".to_string(), language("Plain C", &["c"]));
    assert_eq!(detected(&detector, "a.c"), Some("Plain C".to_string()));
    assert_eq!(detected(&detector, "a.h"), Some("Plain C".to_string()));
}

#[test]
fn load_from_config_registers_in_order() {
    let mut detector = LanguageDetector::new();
    detector.load_from_config(vec![
        ("first".to_string(), language("First", &["zz", "rs"])),
        ("second".to_string(), language("Second", &["zz"])),
    ]);
    assert_eq!(detected(&detector, "a.zz"), Some("Second".to_string()));
    assert_eq!(detected(&detector, "a.rs"), Some("First".to_string()));
    assert_eq!(detected(&detector, "a.py"), Some("Python".to_string()));
}

#[test]
fn override_takes_precedence_and_last_override_wins() {
    let mut detector = LanguageDetector::new();
    detector.add_override("rs".to_string(), "python".to_string());
    assert_eq!(detected(&detector, "a.rs"), Some("Python".to_string()));
    detector.add_override("rs".to_string(), "go".to_string());
    assert_eq!(detected(&detector, "a.rs"), Some("Go".to_string()));
    detector.add_override("rs".to_string(), "missing".to_string());
    assert_eq!(detected(&detector, "a.rs"), None);
    detector.add_language("missing".to_string(), language("Found", &[]));
    assert_eq!(detected(&detector, "a.rs"), Some("Found".to_string()));
}

#[test]
fn override_names_the_key_not_the_language_name() {
    let mut detector = LanguageDetector::new();
    detector.add_override("xyz".to_string(), "Rust".to_string());
    assert_eq!(detected(&detector, "a.xyz"), None);
    detector.add_override("xyz".to_string(), "rust".to_string());
    assert_eq!(detected(&detector, "a.xyz"), Some("Rust".to_string()));
}

#[test]
fn extension_of_relative_paths_with_empty_and_dot_pieces() {
    let detector = LanguageDetector::new();
    assert_eq!(detected(&detector, "./main.rs"), Some("Rust".to_string()));
    assert_eq!(detected(&detector, "../main.py"), Some("Python".to_string()));
    assert_eq!(detected(&detector, "src//main.rs"), Some("Rust".to_string()));
    assert_eq!(detected(&detector, "src/./main.rs"), Some("Rust".to_string()));
    assert_eq!(detected(&detector, "src/main.rs/"), Some("Rust".to_string()));
    assert_eq!(detected(&detector, "src/main.rs/."), Some("Rust".to_string()));
    assert_eq!(detected(&detector, "src/main.rs/.."), None);
    assert_eq!(detected(&detector, "src/.rs"), None);
    assert_eq!(detected(&detector, "src/..rs"), Some("Rust".to_string()));
    assert_eq!(detected(&detector, "src/a.b.rs"), Some("Rust".to_string()));
    assert_eq!(detected(&detector, "."), None);
    assert_eq!(detected(&detector, ".."), None);
}
