//! Counting the lines of one file.

use vstd::prelude::*;
use vstd::slice::slice_subrange;
use crate::classifier::{classify_next, LineType, ScanState};
use crate::detector::{
    component_extension, extension_of, language_view, reads_alike, LanguageDetector,
};
use crate::language::{texts, Grammar, Language, LanguageView, Tokens};
use crate::order::str_eq;
use crate::sorting::copy_file;
use crate::stats::{file_views, FileStats, FileStatsView};
use crate::text::{blank, chars_of, is_blank};

verus! {

/// The index of the first line feed of `s` at or after `from`, or the
/// length of `s` if there is none.
pub open spec fn line_end(s: Seq<char>, from: int) -> int
    decreases s.len() - from,
{
    if from < 0 || from >= s.len() {
        s.len() as int
    } else if s[from] == '\n' {
        from
    } else {
        line_end(s, from + 1)
    }
}

/// `line` without a carriage return at its end.
pub open spec fn strip_cr(line: Seq<char>) -> Seq<char> {
    if line.len() > 0 && line[line.len() - 1] == '\r' {
        line.take(line.len() - 1)
    } else {
        line
    }
}

/// The lines of `s` from index `from` on. A line ends at a line feed, which
/// is not part of it, nor is a carriage return directly before the line
/// feed. What follows the last line feed is a line if it is not empty.
pub open spec fn lines_from(s: Seq<char>, from: int) -> Seq<Seq<char>>
    decreases s.len() - from,
{
    if from < 0 || from >= s.len() {
        Seq::empty()
    } else {
        let end = line_end(s, from);
        if from <= end < s.len() {
            seq![strip_cr(s.subrange(from, end))] + lines_from(s, end + 1)
        } else {
            seq![s.subrange(from, s.len() as int)]
        }
    }
}

/// The lines of `content`.
pub open spec fn split_lines(content: Seq<char>) -> Seq<Seq<char>> {
    lines_from(content, 0)
}

/// Line counts by kind.
pub struct Tally {
    pub total: nat,
    pub logical: nat,
    pub comment: nat,
    pub empty: nat,
}

impl Tally {
    /// No line counted.
    pub open spec fn zero() -> Tally {
        Tally { total: 0, logical: 0, comment: 0, empty: 0 }
    }

    /// One more line of the given kind. A mixed line counts as logical.
    pub open spec fn count(self, kind: LineType) -> Tally {
        match kind {
            LineType::Empty => Tally { total: self.total + 1, empty: self.empty + 1, ..self },
            LineType::Comment => Tally { total: self.total + 1, comment: self.comment + 1, ..self },
            LineType::Logical => Tally { total: self.total + 1, logical: self.logical + 1, ..self },
            LineType::Mixed => Tally { total: self.total + 1, logical: self.logical + 1, ..self },
        }
    }
}

/// The counts of some lines and the block comment state behind them.
pub struct Progress {
    pub tally: Tally,
    pub state: ScanState,
}

/// The lines of a file of a known language, classified one after the other
/// from the state in which no comment is open.
pub open spec fn tally_lines(g: Grammar, ignore_preprocessor: bool, lines: Seq<Seq<char>>) -> Progress
    decreases lines.len(),
{
    if lines.len() == 0 {
        Progress { tally: Tally::zero(), state: ScanState { in_comment: false, depth: 0 } }
    } else {
        let before = tally_lines(g, ignore_preprocessor, lines.drop_last());
        let (kind, state) = classify_next(g, ignore_preprocessor, lines.last(), before.state);
        Progress { tally: before.tally.count(kind), state }
    }
}

/// The lines of a file of unknown language: a blank line is empty, every
/// other line is logical.
pub open spec fn tally_unknown(lines: Seq<Seq<char>>) -> Tally
    decreases lines.len(),
{
    if lines.len() == 0 {
        Tally::zero()
    } else {
        tally_unknown(lines.drop_last()).count(
            if is_blank(lines.last()) {
                LineType::Empty
            } else {
                LineType::Logical
            },
        )
    }
}

/// The statistics of the file at `path` with the given content, counted as
/// `language`, or as unknown where there is none.
pub open spec fn file_stats(
    path: Seq<char>,
    language: Option<LanguageView>,
    ignore_preprocessor: bool,
    content: Seq<char>,
) -> FileStatsView {
    let lines = split_lines(content);
    match language {
        Some(l) => {
            let tally = tally_lines(l.grammar, ignore_preprocessor, lines).tally;
            FileStatsView {
                path,
                language: l.name,
                total_lines: tally.total,
                logical_lines: tally.logical,
                comment_lines: tally.comment,
                empty_lines: tally.empty,
            }
        },
        None => {
            let tally = tally_unknown(lines);
            FileStatsView {
                path,
                language: unknown_language(),
                total_lines: tally.total,
                logical_lines: tally.logical,
                comment_lines: tally.comment,
                empty_lines: tally.empty,
            }
        },
    }
}

/// The next line of `text` from index `from`: the index just behind the
/// line's content, and the index at which the line after it starts.
fn next_line(text: &[char], from: usize) -> (bounds: (usize, usize))
    requires
        from < text@.len(),
    ensures
        from <= bounds.0 <= bounds.1 <= text@.len(),
        from < bounds.1,
        lines_from(text@, from as int) == seq![text@.subrange(from as int, bounds.0 as int)]
            + lines_from(text@, bounds.1 as int),
{
    let n: usize = text.len();
    let mut end: usize = from;
    while end < n && text[end] != '\n'
        invariant
            from <= end <= n,
            n == text@.len(),
            line_end(text@, from as int) == line_end(text@, end as int),
        decreases n - end,
    {
        end += 1;
    }
    if end < n {
        let ghost raw = text@.subrange(from as int, end as int);
        if end > from && text[end - 1] == '\r' {
            proof {
                assert(raw.take(raw.len() - 1) == text@.subrange(from as int, end - 1));
            }
            (end - 1, end + 1)
        } else {
            (end, end + 1)
        }
    } else {
        proof {
            assert(lines_from(text@, n as int) == Seq::<Seq<char>>::empty());
            assert(seq![text@.subrange(from as int, n as int)] + Seq::<Seq<char>>::empty()
                == seq![text@.subrange(from as int, n as int)]);
        }
        (end, end)
    }
}

/// Counts the lines of the file at `path`, whose decoded text is `content`,
/// as lines of `language`, or as lines of unknown language where there is
/// none.
pub fn count_lines(
    path: &str,
    content: &str,
    language: Option<&Language>,
    ignore_preprocessor: bool,
) -> (stats: FileStats)
    ensures
        stats@ == file_stats(path@, language_view(language), ignore_preprocessor, content@),
        stats.total_lines == stats.logical_lines + stats.comment_lines + stats.empty_lines,
        stats.total_lines == split_lines(content@).len(),
{
    let chars = chars_of(content);
    let text = chars.as_slice();
    let n: usize = text.len();
    let mut total: usize = 0;
    let mut logical: usize = 0;
    let mut comment: usize = 0;
    let mut empty: usize = 0;
    let mut pos: usize = 0;
    let ghost mut done: Seq<Seq<char>> = Seq::empty();
    let name: String;
    match language {
        Some(lang) => {
            let tokens = Tokens::compile(lang);
            let mut in_comment: bool = false;
            let mut depth: usize = 0;
            while pos < n
                invariant
                    pos <= n,
                    n == text@.len(),
                    text@ == content@,
                    tokens@ == lang@.grammar,
                    split_lines(content@) == done + lines_from(text@, pos as int),
                    tally_lines(lang@.grammar, ignore_preprocessor, done) == (Progress {
                        tally: Tally {
                            total: total as nat,
                            logical: logical as nat,
                            comment: comment as nat,
                            empty: empty as nat,
                        },
                        state: ScanState { in_comment, depth: depth as int },
                    }),
                    total == logical + comment + empty,
                    total == done.len(),
                    total <= pos,
                    depth <= pos,
                decreases n - pos,
            {
                let (stop, next) = next_line(text, pos);
                let line = slice_subrange(text, pos, stop);
                let inside = tokens.advance(line, &mut in_comment, &mut depth);
                let kind = if inside {
                    if blank(line) {
                        LineType::Empty
                    } else {
                        LineType::Comment
                    }
                } else {
                    tokens.classify(ignore_preprocessor, line)
                };
                total += 1;
                match kind {
                    LineType::Empty => {
                        empty += 1;
                    },
                    LineType::Comment => {
                        comment += 1;
                    },
                    LineType::Logical => {
                        logical += 1;
                    },
                    LineType::Mixed => {
                        logical += 1;
                    },
                }
                proof {
                    let longer = done.push(line@);
                    assert(longer.drop_last() == done);
                    assert(done + (seq![line@] + lines_from(text@, next as int)) == longer
                        + lines_from(text@, next as int));
                    done = longer;
                }
                pos = next;
            }
            name = lang.name.clone();
        },
        None => {
            while pos < n
                invariant
                    pos <= n,
                    n == text@.len(),
                    text@ == content@,
                    split_lines(content@) == done + lines_from(text@, pos as int),
                    tally_unknown(done) == (Tally {
                        total: total as nat,
                        logical: logical as nat,
                        comment: comment as nat,
                        empty: empty as nat,
                    }),
                    total == logical + comment + empty,
                    total == done.len(),
                    total <= pos,
                decreases n - pos,
            {
                let (stop, next) = next_line(text, pos);
                let line = slice_subrange(text, pos, stop);
                total += 1;
                if blank(line) {
                    empty += 1;
                } else {
                    logical += 1;
                }
                proof {
                    let longer = done.push(line@);
                    assert(longer.drop_last() == done);
                    assert(done + (seq![line@] + lines_from(text@, next as int)) == longer
                        + lines_from(text@, next as int));
                    done = longer;
                }
                pos = next;
            }
            name = "Unknown".to_owned();
        },
    }
    proof {
        assert(lines_from(text@, n as int) == Seq::<Seq<char>>::empty());
        assert(done + Seq::<Seq<char>>::empty() == done);
    }
    FileStats {
        path: path.to_owned(),
        language: name,
        total_lines: total,
        logical_lines: logical,
        comment_lines: comment,
        empty_lines: empty,
    }
}

/// Counts the lines of the file at `path`, whose decoded text is `content`,
/// as lines of the language that `detector` finds for the path. Of a
/// relative path without backslash and colon the language is that of the
/// extension of the final component; of any other path it is that of some
/// extension that the path can have, or none.
pub fn count_file(
    path: &str,
    content: &str,
    detector: &LanguageDetector,
    ignore_preprocessor: bool,
) -> (stats: FileStats)
    ensures
        exists|extension: Option<Seq<char>>|
            extension_of(path@, extension) && stats@ == #[trigger] file_stats(
                path@,
                detector@.resolve_optional(extension),
                ignore_preprocessor,
                content@,
            ),
        reads_alike(path@) ==> stats@ == file_stats(
            path@,
            detector@.resolve_optional(component_extension(path@)),
            ignore_preprocessor,
            content@,
        ),
        stats.total_lines == stats.logical_lines + stats.comment_lines + stats.empty_lines,
        stats.total_lines == split_lines(content@).len(),
{
    let language = detector.detect(path);
    let stats = count_lines(path, content, language, ignore_preprocessor);
    proof {
        let extension = choose|extension: Option<Seq<char>>|
            extension_of(path@, extension) && language_view(language)
                == #[trigger] detector@.resolve_optional(extension);
        assert(stats@ == file_stats(
            path@,
            detector@.resolve_optional(extension),
            ignore_preprocessor,
            content@,
        ));
    }
    stats
}

/// What became of one file of a scan.
#[derive(Debug)]
pub enum FileOutcome {
    /// The file was read and counted.
    Counted(FileStats),
    /// The file at this path could not be read.
    Unreadable(String),
}

/// The name that stands for the language of a file whose language was not
/// detected.
pub open spec fn unknown_language() -> Seq<char> {
    "Unknown"@
}

/// The statistics of those of the first `k` outcomes that were counted as
/// files of a known language, in their order.
pub open spec fn supported(outcomes: Seq<FileOutcome>, k: int) -> Seq<FileStatsView>
    decreases k,
{
    if k <= 0 {
        Seq::empty()
    } else {
        let rest = supported(outcomes, k - 1);
        match outcomes[k - 1] {
            FileOutcome::Counted(stats) => if stats@.language == unknown_language() {
                rest
            } else {
                rest.push(stats@)
            },
            FileOutcome::Unreadable(_) => rest,
        }
    }
}

/// The paths of those of the first `k` outcomes that are left out of the
/// statistics, in their order: files of unknown language and files that
/// could not be read.
pub open spec fn unsupported(outcomes: Seq<FileOutcome>, k: int) -> Seq<Seq<char>>
    decreases k,
{
    if k <= 0 {
        Seq::empty()
    } else {
        let rest = unsupported(outcomes, k - 1);
        match outcomes[k - 1] {
            FileOutcome::Counted(stats) => if stats@.language == unknown_language() {
                rest.push(stats@.path)
            } else {
                rest
            },
            FileOutcome::Unreadable(path) => rest.push(path@),
        }
    }
}

/// Parts the outcomes of a scan into the statistics that a report is made
/// of and the paths of the unsupported files.
pub fn partition_results(outcomes: &Vec<FileOutcome>) -> (parts: (Vec<FileStats>, Vec<String>))
    ensures
        file_views(parts.0@) == supported(outcomes@, outcomes@.len() as int),
        texts(parts.1@) == unsupported(outcomes@, outcomes@.len() as int),
{
    let n: usize = outcomes.len();
    let mut counted: Vec<FileStats> = Vec::new();
    let mut left_out: Vec<String> = Vec::new();
    let mut k: usize = 0;
    proof {
        assert(file_views(counted@) =~= supported(outcomes@, 0));
        assert(texts(left_out@) =~= unsupported(outcomes@, 0));
    }
    while k < n
        invariant
            k <= n,
            n == outcomes@.len(),
            file_views(counted@) == supported(outcomes@, k as int),
            texts(left_out@) == unsupported(outcomes@, k as int),
        decreases n - k,
    {
        let ghost files = file_views(counted@);
        let ghost paths = texts(left_out@);
        match &outcomes[k] {
            FileOutcome::Counted(stats) => {
                if str_eq(stats.language.as_str(), "Unknown") {
                    left_out.push(stats.path.clone());
                    proof {
                        assert(texts(left_out@) =~= paths.push(stats@.path));
                    }
                } else {
                    counted.push(copy_file(stats));
                    proof {
                        assert(file_views(counted@) =~= files.push(stats@));
                    }
                }
            },
            FileOutcome::Unreadable(path) => {
                left_out.push(path.clone());
                proof {
                    assert(texts(left_out@) =~= paths.push(path@));
                }
            },
        }
        k += 1;
    }
    (counted, left_out)
}

} // verus!
