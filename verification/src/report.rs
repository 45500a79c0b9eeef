//! The report: file statistics with their aggregation, the time at which
//! the report was made, and an optional content checksum.

use vstd::prelude::*;
use crate::aggregate::{
    calculate_language_stats, calculate_summary, is_aggregate, lemma_aggregate_unique, summary_of,
    totals,
};
use crate::checksum::{
    checksum, checksum_bytes, checksum_input, checksum_of, hex_encode, hex_lower, is_hex_text,
    lemma_hex_lower,
};
use crate::stats::{file_views, language_views, FileStats, GlobalSummary, LanguageStats};

verus! {

/// The version of the report format.
pub const REPORT_FORMAT_VERSION: &'static str = "1.0.0";

/// A point in time: seconds and nanoseconds since the Unix epoch, in UTC.
/// During a leap second the nanoseconds run on to below two billion.
#[derive(Debug, Clone, Copy, PartialEq, Eq, Structural)]
pub struct Timestamp {
    pub seconds: i64,
    pub nanoseconds: u32,
}

/// The RFC 3339 text of the time that is `seconds` and `nanoseconds` after
/// the Unix epoch, or `None` where the time is out of the range of dates
/// that can be told.
pub uninterp spec fn rfc3339_text(seconds: int, nanoseconds: int) -> Option<Seq<char>>;

/// The RFC 3339 text of `time`, by `chrono::DateTime::to_rfc3339` on the
/// time that `chrono::DateTime::from_timestamp` makes of the seconds and
/// nanoseconds; `None` where the latter gives none. The contract names the
/// text.
#[verifier::external_body]
pub(crate) fn rfc3339(time: Timestamp) -> (text: Option<String>)
    ensures
        match text {
            Some(t) => rfc3339_text(time.seconds as int, time.nanoseconds as int) == Some(t@),
            None => rfc3339_text(time.seconds as int, time.nanoseconds as int) is None,
        },
{
    let time = chrono::DateTime::from_timestamp(time.seconds, time.nanoseconds)?;
    Some(time.to_rfc3339())
}

/// A report.
#[derive(Debug, Clone)]
pub struct Report {
    pub report_format_version: String,
    pub generated_at: Timestamp,
    pub files: Vec<FileStats>,
    pub languages: Vec<LanguageStats>,
    pub summary: GlobalSummary,
    /// The paths of the files that were left out of the statistics.
    pub unsupported_files: Vec<String>,
    pub checksum: Option<String>,
}

impl Report {
    /// Whether this report is what `new` makes of the given
    /// files, unsupported files and time.
    pub open spec fn is_made_of(
        &self,
        files: Seq<FileStats>,
        unsupported_files: Seq<String>,
        generated_at: Timestamp,
    ) -> bool {
        &&& self.report_format_version@ == REPORT_FORMAT_VERSION@
        &&& self.generated_at == generated_at
        &&& self.files@ == files
        &&& is_aggregate(file_views(files), language_views(self.languages@))
        &&& self.summary == summary_of(
            file_views(files),
            self.languages@.len(),
            unsupported_files.len(),
        )
        &&& self.unsupported_files@ == unsupported_files
        &&& self.checksum is None
    }

    /// Whether the languages and the summary of this report are those that
    /// its files give. A report that `new` made stays so when a checksum is
    /// attached.
    pub open spec fn is_derived(&self) -> bool {
        &&& is_aggregate(file_views(self.files@), language_views(self.languages@))
        &&& self.summary == summary_of(
            file_views(self.files@),
            self.languages@.len(),
            self.summary.unsupported_files as nat,
        )
    }

    /// The report of `files` and `unsupported_files`, made at `generated_at`:
    /// the time at which the caller read the clock.
    pub fn new(
        files: Vec<FileStats>,
        unsupported_files: Vec<String>,
        generated_at: Timestamp,
    ) -> (report: Self)
        requires
            totals(file_views(files@)).fits(),
        ensures
            report.is_made_of(files@, unsupported_files@, generated_at),
            report.is_derived(),
    {
        let languages = calculate_language_stats(&files);
        let counted = calculate_summary(&files, &languages);
        let summary = GlobalSummary {
            total_files: counted.total_files,
            total_lines: counted.total_lines,
            logical_lines: counted.logical_lines,
            comment_lines: counted.comment_lines,
            empty_lines: counted.empty_lines,
            languages_count: counted.languages_count,
            unsupported_files: unsupported_files.len(),
        };
        Report {
            report_format_version: REPORT_FORMAT_VERSION.to_owned(),
            generated_at,
            files,
            languages,
            summary,
            unsupported_files,
            checksum: None,
        }
    }

    /// The bytes that the checksum's digest is taken of.
    pub fn checksum_input(&self) -> (bytes: Vec<u8>)
        ensures
            bytes@ == checksum_input(file_views(self.files@)),
    {
        checksum_bytes(&self.files)
    }

    /// Attaches the checksum that belongs to `digest`.
    pub fn attach_digest(&mut self, digest: &[u8])
        ensures
            final(self).checksum matches Some(text) && text@ == hex_lower(digest@) && text@.len()
                == 2 * digest@.len() && is_hex_text(text@),
            final(self).report_format_version == old(self).report_format_version,
            final(self).generated_at == old(self).generated_at,
            final(self).files == old(self).files,
            final(self).languages == old(self).languages,
            final(self).summary == old(self).summary,
            final(self).unsupported_files == old(self).unsupported_files,
    {
        proof {
            lemma_hex_lower(digest@);
        }
        self.checksum = Some(hex_encode(digest));
    }

    /// Computes the checksum of the files and attaches it. Nothing else
    /// changes.
    pub fn calculate_checksum(&mut self)
        ensures
            final(self).checksum matches Some(text) && text@ == checksum_of(
                file_views(old(self).files@),
            ) && text@.len() == 64 && is_hex_text(text@),
            final(self).report_format_version == old(self).report_format_version,
            final(self).generated_at == old(self).generated_at,
            final(self).files == old(self).files,
            final(self).languages == old(self).languages,
            final(self).summary == old(self).summary,
            final(self).unsupported_files == old(self).unsupported_files,
    {
        self.checksum = Some(checksum(&self.files));
    }
}

/// What a report derives from its files survives when a report is made
/// anew of the same files: the languages are the same, and so is the summary
/// but for the number of unsupported files, which is that of the new report.
pub proof fn lemma_rederived(
    first: Report,
    second: Report,
    files: Seq<FileStats>,
    unsupported: Seq<String>,
    time: Timestamp,
)
    requires
        first.is_derived(),
        second.is_made_of(files, unsupported, time),
        file_views(files) == file_views(first.files@),
    ensures
        file_views(second.files@) == file_views(first.files@),
        language_views(second.languages@) == language_views(first.languages@),
        second.summary == (GlobalSummary {
            unsupported_files: unsupported.len() as usize,
            ..first.summary
        }),
{
    lemma_aggregate_unique(
        file_views(files),
        language_views(first.languages@),
        language_views(second.languages@),
    );
}

/// Unsupported files are listed and counted, and nothing else: two reports
/// of the same files hold the same languages whatever their unsupported
/// files are, each holds its own list unchanged, and their summaries differ
/// in the number of unsupported files alone, which is the length of the
/// list.
pub proof fn lemma_unsupported_files_only_listed(
    first: Report,
    second: Report,
    files: Seq<FileStats>,
    unsupported1: Seq<String>,
    unsupported2: Seq<String>,
    time1: Timestamp,
    time2: Timestamp,
)
    requires
        first.is_made_of(files, unsupported1, time1),
        second.is_made_of(files, unsupported2, time2),
    ensures
        first.files@ == second.files@,
        language_views(first.languages@) == language_views(second.languages@),
        first.unsupported_files@ == unsupported1,
        second.unsupported_files@ == unsupported2,
        first.summary.unsupported_files == unsupported1.len(),
        second.summary.unsupported_files == unsupported2.len(),
        second.summary == (GlobalSummary {
            unsupported_files: second.summary.unsupported_files,
            ..first.summary
        }),
{
    assert(first.unsupported_files.len() == first.unsupported_files@.len());
    assert(second.unsupported_files.len() == second.unsupported_files@.len());
    lemma_rederived(first, second, files, unsupported2, time2);
}

} // verus!
