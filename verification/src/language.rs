//! Language definitions: the comment grammar of a language and the file
//! extensions that select it.

use vstd::prelude::*;
use crate::text::chars_of;

verus! {

/// The comment grammar of a language, as the classifier reads it.
pub struct Grammar {
    /// Markers that start a comment running to the end of the line, in
    /// declared order.
    pub single_line: Seq<Seq<char>>,
    /// Start and end tokens of block comments, in declared order.
    pub multi_line: Seq<(Seq<char>, Seq<char>)>,
    /// Whether block comments nest.
    pub nested: bool,
    /// The prefix of preprocessor directives, if the language has them.
    pub preprocessor_prefix: Option<Seq<char>>,
}

/// The mathematical value of a [`Language`].
pub struct LanguageView {
    pub name: Seq<char>,
    pub extensions: Seq<Seq<char>>,
    pub grammar: Grammar,
}

/// The contents of a list of strings.
pub open spec fn texts(v: Seq<String>) -> Seq<Seq<char>> {
    Seq::new(v.len(), |i: int| v[i]@)
}

/// The contents of a list of pairs of strings.
pub open spec fn text_pairs(v: Seq<(String, String)>) -> Seq<(Seq<char>, Seq<char>)> {
    Seq::new(v.len(), |i: int| (v[i].0@, v[i].1@))
}

/// The contents of a list of string slices.
pub open spec fn strs(v: Seq<&str>) -> Seq<Seq<char>> {
    Seq::new(v.len(), |i: int| v[i]@)
}

/// The contents of a list of pairs of string slices.
pub open spec fn str_pairs(v: Seq<(&str, &str)>) -> Seq<(Seq<char>, Seq<char>)> {
    Seq::new(v.len(), |i: int| (v[i].0@, v[i].1@))
}

/// The contents of an optional string.
pub open spec fn opt_text(o: Option<String>) -> Option<Seq<char>> {
    match o {
        Some(s) => Some(s@),
        None => None,
    }
}

/// A language definition.
#[derive(Debug, Clone)]
pub struct Language {
    pub name: String,
    pub extensions: Vec<String>,
    pub single_line_comment: Vec<String>,
    pub multi_line_comment: Vec<(String, String)>,
    pub nested_comments: bool,
    pub preprocessor_prefix: Option<String>,
}

impl View for Language {
    type V = LanguageView;

    open spec fn view(&self) -> LanguageView {
        LanguageView {
            name: self.name@,
            extensions: texts(self.extensions@),
            grammar: Grammar {
                single_line: texts(self.single_line_comment@),
                multi_line: text_pairs(self.multi_line_comment@),
                nested: self.nested_comments,
                preprocessor_prefix: opt_text(self.preprocessor_prefix),
            },
        }
    }
}

/// The comment tokens of a language as character vectors, ready for
/// matching against lines.
pub struct Tokens {
    single: Vec<Vec<char>>,
    multi: Vec<(Vec<char>, Vec<char>)>,
    nested: bool,
    prefix: Option<Vec<char>>,
}

impl View for Tokens {
    type V = Grammar;

    closed spec fn view(&self) -> Grammar {
        Grammar {
            single_line: Seq::new(self.single@.len(), |i: int| self.single@[i]@),
            multi_line: Seq::new(self.multi@.len(), |i: int| (self.multi@[i].0@, self.multi@[i].1@)),
            nested: self.nested,
            preprocessor_prefix: match self.prefix {
                Some(p) => Some(p@),
                None => None,
            },
        }
    }
}

impl Tokens {
    /// The tokens of `language`.
    pub fn compile(language: &Language) -> (t: Tokens)
        ensures
            t@ == language@.grammar,
    {
        let mut single: Vec<Vec<char>> = Vec::new();
        let mut i: usize = 0;
        while i < language.single_line_comment.len()
            invariant
                i <= language.single_line_comment.len(),
                single@.len() == i,
                forall|j: int| 0 <= j < i ==> (#[trigger] single@[j])@ == language.single_line_comment@[j]@,
            decreases language.single_line_comment.len() - i,
        {
            single.push(chars_of(language.single_line_comment[i].as_str()));
            i += 1;
        }
        let mut multi: Vec<(Vec<char>, Vec<char>)> = Vec::new();
        let mut k: usize = 0;
        while k < language.multi_line_comment.len()
            invariant
                k <= language.multi_line_comment.len(),
                multi@.len() == k,
                forall|j: int|
                    0 <= j < k ==> (#[trigger] multi@[j]).0@ == language.multi_line_comment@[j].0@
                        && multi@[j].1@ == language.multi_line_comment@[j].1@,
            decreases language.multi_line_comment.len() - k,
        {
            let start = chars_of(language.multi_line_comment[k].0.as_str());
            let end = chars_of(language.multi_line_comment[k].1.as_str());
            multi.push((start, end));
            k += 1;
        }
        let prefix = match &language.preprocessor_prefix {
            Some(p) => Some(chars_of(p.as_str())),
            None => None,
        };
        let t = Tokens { single, multi, nested: language.nested_comments, prefix };
        proof {
            assert(t@.single_line =~= language@.grammar.single_line);
            assert(t@.multi_line =~= language@.grammar.multi_line);
        }
        t
    }

    /// The number of single-line markers.
    pub fn single_count(&self) -> (n: usize)
        ensures
            n == self@.single_line.len(),
    {
        self.single.len()
    }

    /// The single-line marker at index `k`.
    pub fn single_marker(&self, k: usize) -> (m: &[char])
        requires
            k < self@.single_line.len(),
        ensures
            m@ == self@.single_line[k as int],
    {
        self.single[k].as_slice()
    }

    /// The number of block comment pairs.
    pub fn pair_count(&self) -> (n: usize)
        ensures
            n == self@.multi_line.len(),
    {
        self.multi.len()
    }

    /// The start token of the block comment pair at index `k`.
    pub fn start_token(&self, k: usize) -> (m: &[char])
        requires
            k < self@.multi_line.len(),
        ensures
            m@ == self@.multi_line[k as int].0,
    {
        self.multi[k].0.as_slice()
    }

    /// The end token of the block comment pair at index `k`.
    pub fn end_token(&self, k: usize) -> (m: &[char])
        requires
            k < self@.multi_line.len(),
        ensures
            m@ == self@.multi_line[k as int].1,
    {
        self.multi[k].1.as_slice()
    }

    /// Whether block comments nest.
    pub fn nests(&self) -> (b: bool)
        ensures
            b == self@.nested,
    {
        self.nested
    }

    /// The preprocessor prefix, if any.
    pub fn directive_prefix(&self) -> (p: Option<&[char]>)
        ensures
            match p {
                Some(m) => self@.preprocessor_prefix == Some(m@),
                None => self@.preprocessor_prefix is None,
            },
    {
        match &self.prefix {
            Some(p) => Some(p.as_slice()),
            None => None,
        }
    }
}

} // verus!
