//! The counts that a report is made of: per file, per language and over
//! all files.

use vstd::prelude::*;

verus! {

/// The mathematical value of a [`FileStats`].
pub struct FileStatsView {
    pub path: Seq<char>,
    pub language: Seq<char>,
    pub total_lines: nat,
    pub logical_lines: nat,
    pub comment_lines: nat,
    pub empty_lines: nat,
}

/// The line counts of one file.
#[derive(Debug, Clone)]
pub struct FileStats {
    pub path: String,
    pub language: String,
    pub total_lines: usize,
    pub logical_lines: usize,
    pub comment_lines: usize,
    pub empty_lines: usize,
}

impl View for FileStats {
    type V = FileStatsView;

    open spec fn view(&self) -> FileStatsView {
        FileStatsView {
            path: self.path@,
            language: self.language@,
            total_lines: self.total_lines as nat,
            logical_lines: self.logical_lines as nat,
            comment_lines: self.comment_lines as nat,
            empty_lines: self.empty_lines as nat,
        }
    }
}

/// The views of a list of file statistics.
pub open spec fn file_views(files: Seq<FileStats>) -> Seq<FileStatsView> {
    Seq::new(files.len(), |i: int| files[i]@)
}

/// The mathematical value of a [`LanguageStats`].
pub struct LanguageStatsView {
    pub language: Seq<char>,
    pub file_count: nat,
    pub total_lines: nat,
    pub logical_lines: nat,
    pub comment_lines: nat,
    pub empty_lines: nat,
}

/// The line counts of all files of one language.
#[derive(Debug, Clone)]
pub struct LanguageStats {
    pub language: String,
    pub file_count: usize,
    pub total_lines: usize,
    pub logical_lines: usize,
    pub comment_lines: usize,
    pub empty_lines: usize,
}

impl View for LanguageStats {
    type V = LanguageStatsView;

    open spec fn view(&self) -> LanguageStatsView {
        LanguageStatsView {
            language: self.language@,
            file_count: self.file_count as nat,
            total_lines: self.total_lines as nat,
            logical_lines: self.logical_lines as nat,
            comment_lines: self.comment_lines as nat,
            empty_lines: self.empty_lines as nat,
        }
    }
}

/// The views of a list of language statistics.
pub open spec fn language_views(languages: Seq<LanguageStats>) -> Seq<LanguageStatsView> {
    Seq::new(languages.len(), |i: int| languages[i]@)
}

/// The line counts over all files of a report.
#[derive(Debug, Clone, Copy, PartialEq, Eq, Structural)]
pub struct GlobalSummary {
    pub total_files: usize,
    pub total_lines: usize,
    pub logical_lines: usize,
    pub comment_lines: usize,
    pub empty_lines: usize,
    pub languages_count: usize,
    pub unsupported_files: usize,
}

} // verus!
