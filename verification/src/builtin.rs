//! The built-in language definitions.

use vstd::prelude::*;
use crate::detector::Registry;
use crate::language::{
    str_pairs, strs, text_pairs, texts, Grammar, Language, LanguageView,
};

verus! {

/// Owned copies of string slices.
fn owned(items: Vec<&str>) -> (v: Vec<String>)
    ensures
        texts(v@) == strs(items@),
{
    let mut v: Vec<String> = Vec::new();
    let mut i: usize = 0;
    while i < items.len()
        invariant
            i <= items.len(),
            v@.len() == i,
            forall|j: int| 0 <= j < i ==> (#[trigger] v@[j])@ == items@[j]@,
        decreases items.len() - i,
    {
        v.push(items[i].to_owned());
        i += 1;
    }
    proof {
        assert(texts(v@) =~= strs(items@));
    }
    v
}

/// Owned copies of pairs of string slices.
fn owned_pairs(items: Vec<(&str, &str)>) -> (v: Vec<(String, String)>)
    ensures
        text_pairs(v@) == str_pairs(items@),
{
    let mut v: Vec<(String, String)> = Vec::new();
    let mut i: usize = 0;
    while i < items.len()
        invariant
            i <= items.len(),
            v@.len() == i,
            forall|j: int|
                0 <= j < i ==> (#[trigger] v@[j]).0@ == items@[j].0@ && v@[j].1@ == items@[j].1@,
        decreases items.len() - i,
    {
        let start = items[i].0.to_owned();
        let end = items[i].1.to_owned();
        v.push((start, end));
        i += 1;
    }
    proof {
        assert(text_pairs(v@) =~= str_pairs(items@));
    }
    v
}

/// A language definition from its parts.
pub open spec fn definition(
    name: Seq<char>,
    extensions: Seq<Seq<char>>,
    single_line: Seq<Seq<char>>,
    multi_line: Seq<(Seq<char>, Seq<char>)>,
    nested: bool,
    preprocessor_prefix: Option<Seq<char>>,
) -> LanguageView {
    LanguageView {
        name,
        extensions,
        grammar: Grammar { single_line, multi_line, nested, preprocessor_prefix },
    }
}

/// A language definition from its parts.
fn define(
    name: &str,
    extensions: Vec<&str>,
    single_line: Vec<&str>,
    multi_line: Vec<(&str, &str)>,
    nested: bool,
    preprocessor_prefix: Option<&str>,
) -> (l: Language)
    ensures
        l@ == definition(
            name@,
            strs(extensions@),
            strs(single_line@),
            str_pairs(multi_line@),
            nested,
            match preprocessor_prefix {
                Some(p) => Some(p@),
                None => None,
            },
        ),
{
    Language {
        name: name.to_owned(),
        extensions: owned(extensions),
        single_line_comment: owned(single_line),
        multi_line_comment: owned_pairs(multi_line),
        nested_comments: nested,
        preprocessor_prefix: match preprocessor_prefix {
            Some(p) => Some(p.to_owned()),
            None => None,
        },
    }
}

/// Rust: block comments nest.
pub open spec fn rust_language() -> LanguageView {
    definition(
        "Rust"@,
        seq!["rs"@],
        seq!["//"@],
        seq![("/*"@, "*/"@)],
        true,
        None,
    )
}

/// Rust: block comments nest.
pub fn rust() -> (l: Language)
    ensures
        l@ == rust_language(),
{
    let extensions: Vec<&str> = vec!["rs"];
    let single_line: Vec<&str> = vec!["//"];
    let multi_line: Vec<(&str, &str)> = vec![("/*", "*/")];
    proof {
        assert(strs(extensions@) =~= rust_language().extensions);
        assert(strs(single_line@) =~= rust_language().grammar.single_line);
        assert(str_pairs(multi_line@) =~= rust_language().grammar.multi_line);
    }
    define("Rust", extensions, single_line, multi_line, true, None)
}

/// C: lines that start with `#` are preprocessor directives.
pub open spec fn c_language() -> LanguageView {
    definition(
        "C"@,
        seq!["c"@, "h"@],
        seq!["//"@],
        seq![("/*"@, "*/"@)],
        false,
        Some("#"@),
    )
}

/// C: lines that start with `#` are preprocessor directives.
pub fn c() -> (l: Language)
    ensures
        l@ == c_language(),
{
    let extensions: Vec<&str> = vec!["c", "h"];
    let single_line: Vec<&str> = vec!["//"];
    let multi_line: Vec<(&str, &str)> = vec![("/*", "*/")];
    proof {
        assert(strs(extensions@) =~= c_language().extensions);
        assert(strs(single_line@) =~= c_language().grammar.single_line);
        assert(str_pairs(multi_line@) =~= c_language().grammar.multi_line);
    }
    define("C", extensions, single_line, multi_line, false, Some("#"))
}

/// C++: lines that start with `#` are preprocessor directives.
pub open spec fn cpp_language() -> LanguageView {
    definition(
        "C++"@,
        seq!["cpp"@, "cc"@, "cxx"@, "hpp"@, "hh"@, "hxx"@],
        seq!["//"@],
        seq![("/*"@, "*/"@)],
        false,
        Some("#"@),
    )
}

/// C++: lines that start with `#` are preprocessor directives.
pub fn cpp() -> (l: Language)
    ensures
        l@ == cpp_language(),
{
    let extensions: Vec<&str> = vec!["cpp", "cc", "cxx", "hpp", "hh", "hxx"];
    let single_line: Vec<&str> = vec!["//"];
    let multi_line: Vec<(&str, &str)> = vec![("/*", "*/")];
    proof {
        assert(strs(extensions@) =~= cpp_language().extensions);
        assert(strs(single_line@) =~= cpp_language().grammar.single_line);
        assert(str_pairs(multi_line@) =~= cpp_language().grammar.multi_line);
    }
    define("C++", extensions, single_line, multi_line, false, Some("#"))
}

/// Python: triple-quoted strings count as block comments.
pub open spec fn python_language() -> LanguageView {
    definition(
        "Python"@,
        seq!["py"@, "pyw"@],
        seq!["#"@],
        seq![("'''"@, "'''"@), ("\"\"\""@, "\"\"\""@)],
        false,
        None,
    )
}

/// Python: triple-quoted strings count as block comments.
pub fn python() -> (l: Language)
    ensures
        l@ == python_language(),
{
    let extensions: Vec<&str> = vec!["py", "pyw"];
    let single_line: Vec<&str> = vec!["#"];
    let multi_line: Vec<(&str, &str)> = vec![("'''", "'''"), ("\"\"\"", "\"\"\"")];
    proof {
        assert(strs(extensions@) =~= python_language().extensions);
        assert(strs(single_line@) =~= python_language().grammar.single_line);
        assert(str_pairs(multi_line@) =~= python_language().grammar.multi_line);
    }
    define("Python", extensions, single_line, multi_line, false, None)
}

/// JavaScript.
pub open spec fn javascript_language() -> LanguageView {
    definition(
        "JavaScript"@,
        seq!["js"@, "jsx"@, "mjs"@],
        seq!["//"@],
        seq![("/*"@, "*/"@)],
        false,
        None,
    )
}

/// JavaScript.
pub fn javascript() -> (l: Language)
    ensures
        l@ == javascript_language(),
{
    let extensions: Vec<&str> = vec!["js", "jsx", "mjs"];
    let single_line: Vec<&str> = vec!["//"];
    let multi_line: Vec<(&str, &str)> = vec![("/*", "*/")];
    proof {
        assert(strs(extensions@) =~= javascript_language().extensions);
        assert(strs(single_line@) =~= javascript_language().grammar.single_line);
        assert(str_pairs(multi_line@) =~= javascript_language().grammar.multi_line);
    }
    define("JavaScript", extensions, single_line, multi_line, false, None)
}

/// TypeScript.
pub open spec fn typescript_language() -> LanguageView {
    definition(
        "TypeScript"@,
        seq!["ts"@, "tsx"@],
        seq!["//"@],
        seq![("/*"@, "*/"@)],
        false,
        None,
    )
}

/// TypeScript.
pub fn typescript() -> (l: Language)
    ensures
        l@ == typescript_language(),
{
    let extensions: Vec<&str> = vec!["ts", "tsx"];
    let single_line: Vec<&str> = vec!["//"];
    let multi_line: Vec<(&str, &str)> = vec![("/*", "*/")];
    proof {
        assert(strs(extensions@) =~= typescript_language().extensions);
        assert(strs(single_line@) =~= typescript_language().grammar.single_line);
        assert(str_pairs(multi_line@) =~= typescript_language().grammar.multi_line);
    }
    define("TypeScript", extensions, single_line, multi_line, false, None)
}

/// Java.
pub open spec fn java_language() -> LanguageView {
    definition(
        "Java"@,
        seq!["java"@],
        seq!["//"@],
        seq![("/*"@, "*/"@)],
        false,
        None,
    )
}

/// Java.
pub fn java() -> (l: Language)
    ensures
        l@ == java_language(),
{
    let extensions: Vec<&str> = vec!["java"];
    let single_line: Vec<&str> = vec!["//"];
    let multi_line: Vec<(&str, &str)> = vec![("/*", "*/")];
    proof {
        assert(strs(extensions@) =~= java_language().extensions);
        assert(strs(single_line@) =~= java_language().grammar.single_line);
        assert(str_pairs(multi_line@) =~= java_language().grammar.multi_line);
    }
    define("Java", extensions, single_line, multi_line, false, None)
}

/// Go.
pub open spec fn go_language() -> LanguageView {
    definition(
        "Go"@,
        seq!["go"@],
        seq!["//"@],
        seq![("/*"@, "*/"@)],
        false,
        None,
    )
}

/// Go.
pub fn go() -> (l: Language)
    ensures
        l@ == go_language(),
{
    let extensions: Vec<&str> = vec!["go"];
    let single_line: Vec<&str> = vec!["//"];
    let multi_line: Vec<(&str, &str)> = vec![("/*", "*/")];
    proof {
        assert(strs(extensions@) =~= go_language().extensions);
        assert(strs(single_line@) =~= go_language().grammar.single_line);
        assert(str_pairs(multi_line@) =~= go_language().grammar.multi_line);
    }
    define("Go", extensions, single_line, multi_line, false, None)
}

/// Ruby: `=begin` and `=end` delimit block comments.
pub open spec fn ruby_language() -> LanguageView {
    definition(
        "Ruby"@,
        seq!["rb"@],
        seq!["#"@],
        seq![("=begin"@, "=end"@)],
        false,
        None,
    )
}

/// Ruby: `=begin` and `=end` delimit block comments.
pub fn ruby() -> (l: Language)
    ensures
        l@ == ruby_language(),
{
    let extensions: Vec<&str> = vec!["rb"];
    let single_line: Vec<&str> = vec!["#"];
    let multi_line: Vec<(&str, &str)> = vec![("=begin", "=end")];
    proof {
        assert(strs(extensions@) =~= ruby_language().extensions);
        assert(strs(single_line@) =~= ruby_language().grammar.single_line);
        assert(str_pairs(multi_line@) =~= ruby_language().grammar.multi_line);
    }
    define("Ruby", extensions, single_line, multi_line, false, None)
}

/// Shell scripts: no block comments.
pub open spec fn shell_language() -> LanguageView {
    definition(
        "Shell"@,
        seq!["sh"@, "bash"@, "zsh"@],
        seq!["#"@],
        Seq::empty(),
        false,
        None,
    )
}

/// Shell scripts: no block comments.
pub fn shell() -> (l: Language)
    ensures
        l@ == shell_language(),
{
    let extensions: Vec<&str> = vec!["sh", "bash", "zsh"];
    let single_line: Vec<&str> = vec!["#"];
    let multi_line: Vec<(&str, &str)> = Vec::new();
    proof {
        assert(strs(extensions@) =~= shell_language().extensions);
        assert(strs(single_line@) =~= shell_language().grammar.single_line);
        assert(str_pairs(multi_line@) =~= shell_language().grammar.multi_line);
    }
    define("Shell", extensions, single_line, multi_line, false, None)
}

/// SQL.
pub open spec fn sql_language() -> LanguageView {
    definition(
        "SQL"@,
        seq!["sql"@],
        seq!["--"@],
        seq![("/*"@, "*/"@)],
        false,
        None,
    )
}

/// SQL.
pub fn sql() -> (l: Language)
    ensures
        l@ == sql_language(),
{
    let extensions: Vec<&str> = vec!["sql"];
    let single_line: Vec<&str> = vec!["--"];
    let multi_line: Vec<(&str, &str)> = vec![("/*", "*/")];
    proof {
        assert(strs(extensions@) =~= sql_language().extensions);
        assert(strs(single_line@) =~= sql_language().grammar.single_line);
        assert(str_pairs(multi_line@) =~= sql_language().grammar.multi_line);
    }
    define("SQL", extensions, single_line, multi_line, false, None)
}

/// HTML: no single-line comments.
pub open spec fn html_language() -> LanguageView {
    definition(
        "HTML"@,
        seq!["html"@, "htm"@],
        Seq::empty(),
        seq![("<!--"@, "-->"@)],
        false,
        None,
    )
}

/// HTML: no single-line comments.
pub fn html() -> (l: Language)
    ensures
        l@ == html_language(),
{
    let extensions: Vec<&str> = vec!["html", "htm"];
    let single_line: Vec<&str> = Vec::new();
    let multi_line: Vec<(&str, &str)> = vec![("<!--", "-->")];
    proof {
        assert(strs(extensions@) =~= html_language().extensions);
        assert(strs(single_line@) =~= html_language().grammar.single_line);
        assert(str_pairs(multi_line@) =~= html_language().grammar.multi_line);
    }
    define("HTML", extensions, single_line, multi_line, false, None)
}

/// CSS and its preprocessors; `//` is a comment in SCSS and Sass.
pub open spec fn css_language() -> LanguageView {
    definition(
        "CSS"@,
        seq!["css"@, "scss"@, "sass"@],
        seq!["//"@],
        seq![("/*"@, "*/"@)],
        false,
        None,
    )
}

/// CSS and its preprocessors; `//` is a comment in SCSS and Sass.
pub fn css() -> (l: Language)
    ensures
        l@ == css_language(),
{
    let extensions: Vec<&str> = vec!["css", "scss", "sass"];
    let single_line: Vec<&str> = vec!["//"];
    let multi_line: Vec<(&str, &str)> = vec![("/*", "*/")];
    proof {
        assert(strs(extensions@) =~= css_language().extensions);
        assert(strs(single_line@) =~= css_language().grammar.single_line);
        assert(str_pairs(multi_line@) =~= css_language().grammar.multi_line);
    }
    define("CSS", extensions, single_line, multi_line, false, None)
}

/// YAML: no block comments.
pub open spec fn yaml_language() -> LanguageView {
    definition(
        "YAML"@,
        seq!["yaml"@, "yml"@],
        seq!["#"@],
        Seq::empty(),
        false,
        None,
    )
}

/// YAML: no block comments.
pub fn yaml() -> (l: Language)
    ensures
        l@ == yaml_language(),
{
    let extensions: Vec<&str> = vec!["yaml", "yml"];
    let single_line: Vec<&str> = vec!["#"];
    let multi_line: Vec<(&str, &str)> = Vec::new();
    proof {
        assert(strs(extensions@) =~= yaml_language().extensions);
        assert(strs(single_line@) =~= yaml_language().grammar.single_line);
        assert(str_pairs(multi_line@) =~= yaml_language().grammar.multi_line);
    }
    define("YAML", extensions, single_line, multi_line, false, None)
}

/// TOML: no block comments.
pub open spec fn toml_language() -> LanguageView {
    definition(
        "TOML"@,
        seq!["toml"@],
        seq!["#"@],
        Seq::empty(),
        false,
        None,
    )
}

/// TOML: no block comments.
pub fn toml() -> (l: Language)
    ensures
        l@ == toml_language(),
{
    let extensions: Vec<&str> = vec!["toml"];
    let single_line: Vec<&str> = vec!["#"];
    let multi_line: Vec<(&str, &str)> = Vec::new();
    proof {
        assert(strs(extensions@) =~= toml_language().extensions);
        assert(strs(single_line@) =~= toml_language().grammar.single_line);
        assert(str_pairs(multi_line@) =~= toml_language().grammar.multi_line);
    }
    define("TOML", extensions, single_line, multi_line, false, None)
}

/// The registry after the built-in languages were registered, in this
/// order: a later language takes over the extensions that it shares with an
/// earlier one.
pub open spec fn with_builtin_languages(registry: Registry) -> Registry {
    registry
        .add_language("rust"@, rust_language())
        .add_language("c"@, c_language())
        .add_language("cpp"@, cpp_language())
        .add_language("python"@, python_language())
        .add_language("javascript"@, javascript_language())
        .add_language("typescript"@, typescript_language())
        .add_language("java"@, java_language())
        .add_language("go"@, go_language())
        .add_language("ruby"@, ruby_language())
        .add_language("shell"@, shell_language())
        .add_language("sql"@, sql_language())
        .add_language("html"@, html_language())
        .add_language("css"@, css_language())
        .add_language("yaml"@, yaml_language())
        .add_language("toml"@, toml_language())
}

} // verus!
