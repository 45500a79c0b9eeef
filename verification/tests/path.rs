use sloc::path::{key_text, path_parts, paths_equal, paths_in_order, Part};
use std::path::Path;

const PATHS: [&str; 30] = [
    "",
    ".",
    "..",
    "/",
    "//",
    "a",
    "a/",
    "a//b",
    "a/b",
    "a/./b",
    "a/b/.",
    "./a/b",
    "/a/b",
    "//a/b",
    "a/../b",
    "../a",
    "foo.rs",
    "foo/mod.rs",
    "foo",
    "src/a.rs",
    "src-old/a.rs",
    "src/é.rs",
    "...",
    ".a",
    "..a",
    "a.",
    "./",
    "/.",
    "/..",
    "a b/c",
];

#[test]
fn path_order_is_that_of_std() {
    for a in PATHS {
        for b in PATHS {
            assert_eq!(
                paths_in_order(a, b),
                Path::new(a) <= Path::new(b),
                "{:?} <= {:?}",
                a,
                b
            );
            assert_eq!(paths_equal(a, b), Path::new(a) == Path::new(b), "{:?} == {:?}", a, b);
            assert_eq!(key_text(a) == key_text(b), Path::new(a) == Path::new(b));
        }
    }
}

#[test]
fn directory_comes_before_its_longer_namesake() {
    assert!(paths_in_order("foo/mod.rs", "foo.rs"));
    assert!(!paths_in_order("foo.rs", "foo/mod.rs"));
    assert!(paths_in_order("src/a.rs", "src-old/a.rs"));
    assert!(!paths_in_order("src-old/a.rs", "src/a.rs"));
    assert!("foo.rs" < "foo/mod.rs");
}

fn shown(path: &str) -> Vec<String> {
    path_parts(path)
        .into_iter()
        .map(|part| match part {
            Part::Root => "<root>".to_string(),
            Part::Current => "<current>".to_string(),
            Part::Parent => "<parent>".to_string(),
            Part::Normal(name) => name,
        })
        .collect()
}

#[test]
fn components_of_paths() {
    assert_eq!(shown(""), Vec::<String>::new());
    assert_eq!(shown("/"), vec!["<root>"]);
    assert_eq!(shown("."), vec!["<current>"]);
    assert_eq!(shown("./a/./b//"), vec!["<current>", "a", "b"]);
    assert_eq!(shown("/a/../b.rs"), vec!["<root>", "a", "<parent>", "b.rs"]);
    assert_eq!(shown(".."), vec!["<parent>"]);
    assert_eq!(shown("...//.a"), vec!["...", ".a"]);
}

#[test]
fn keys_of_paths() {
    assert_eq!(key_text(""), "");
    assert_eq!(key_text("a//b/"), "a/b/");
    assert_eq!(key_text("/a/./b"), "/a/b/");
    assert_eq!(key_text("./a/.."), "./a/../");
}

#[test]
fn final_name_is_the_file_name_of_std() {
    for path in PATHS {
        let name = match path_parts(path).pop() {
            Some(Part::Normal(name)) => Some(name),
            _ => None,
        };
        let expected = Path::new(path).file_name().map(|n| n.to_str().unwrap().to_string());
        assert_eq!(name, expected, "{path}");
    }
}
