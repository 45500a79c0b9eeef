//! Report output: the XML document and the CSV records of a report, the
//! CSV records of a comparison, and the order of console listings.

use vstd::prelude::*;
use vstd::string::StringExecFns;
use crate::cli::SortMetric;
use crate::compare::{language_delta_views, ComparisonResult, LanguageDeltaView};
use crate::language::texts;
use crate::report::{rfc3339, rfc3339_text, Report};
use crate::sorting::{copy_file, file_le, language_le, sort_by, sorted_files, sorted_languages};
use crate::stats::{
    file_views, language_views, FileStats, FileStatsView, GlobalSummary, LanguageStats,
    LanguageStatsView,
};
use crate::text::{chars_of, digits, push_number, push_signed, signed_digits};

verus! {

/// What stands for a character in XML text.
pub open spec fn xml_escaped_char(ch: char) -> Seq<char> {
    if ch == '&' {
        "&amp;"@
    } else if ch == '<' {
        "&lt;"@
    } else if ch == '>' {
        "&gt;"@
    } else if ch == '"' {
        "&quot;"@
    } else if ch == '\'' {
        "&apos;"@
    } else {
        seq![ch]
    }
}

/// `text` with the five special characters of XML replaced by their
/// entities.
pub open spec fn xml_escaped(text: Seq<char>) -> Seq<char>
    decreases text.len(),
{
    if text.len() == 0 {
        Seq::empty()
    } else {
        xml_escaped(text.drop_last()) + xml_escaped_char(text.last())
    }
}

/// `items` with a line feed between each two.
pub open spec fn joined(items: Seq<Seq<char>>) -> Seq<char>
    decreases items.len(),
{
    if items.len() == 0 {
        Seq::empty()
    } else if items.len() == 1 {
        items[0]
    } else {
        joined(items.drop_last()) + seq!['\n'] + items.last()
    }
}

/// The XML element of a file.
pub open spec fn file_xml(f: FileStatsView) -> Seq<char> {
    "    <file>\n      <path>"@ + xml_escaped(f.path) + "</path>\n      <language>"@ + xml_escaped(
        f.language,
    ) + "</language>\n      <totalLines>"@ + digits(f.total_lines)
        + "</totalLines>\n      <logicalLines>"@ + digits(f.logical_lines)
        + "</logicalLines>\n      <commentLines>"@ + digits(f.comment_lines)
        + "</commentLines>\n      <emptyLines>"@ + digits(f.empty_lines)
        + "</emptyLines>\n    </file>"@
}

/// The XML element of a language.
pub open spec fn language_xml(l: LanguageStatsView) -> Seq<char> {
    "    <language>\n      <language>"@ + xml_escaped(l.language) + "</language>\n      <fileCount>"@
        + digits(l.file_count) + "</fileCount>\n      <totalLines>"@ + digits(l.total_lines)
        + "</totalLines>\n      <logicalLines>"@ + digits(l.logical_lines)
        + "</logicalLines>\n      <commentLines>"@ + digits(l.comment_lines)
        + "</commentLines>\n      <emptyLines>"@ + digits(l.empty_lines)
        + "</emptyLines>\n    </language>"@
}

/// The XML element of an unsupported file.
pub open spec fn unsupported_xml(path: Seq<char>) -> Seq<char> {
    "    <unsupportedFile>"@ + xml_escaped(path) + "</unsupportedFile>"@
}

/// The XML elements of a list of files, one below the other.
pub open spec fn files_xml(files: Seq<FileStatsView>) -> Seq<char> {
    joined(Seq::new(files.len(), |i: int| file_xml(files[i])))
}

/// The XML elements of a list of languages, one below the other.
pub open spec fn languages_xml(languages: Seq<LanguageStatsView>) -> Seq<char> {
    joined(Seq::new(languages.len(), |i: int| language_xml(languages[i])))
}

/// The XML elements of a list of unsupported files, one below the other.
pub open spec fn unsupported_files_xml(paths: Seq<Seq<char>>) -> Seq<char> {
    joined(Seq::new(paths.len(), |i: int| unsupported_xml(paths[i])))
}

/// The XML element of a checksum on a line of its own, or nothing.
pub open spec fn checksum_xml(checksum: Option<Seq<char>>) -> Seq<char> {
    match checksum {
        Some(text) => "\n  <checksum>"@ + xml_escaped(text) + "</checksum>"@,
        None => Seq::empty(),
    }
}

/// The XML element of a summary.
pub open spec fn summary_xml(s: GlobalSummary) -> Seq<char> {
    "  <summary>\n    <totalFiles>"@ + digits(s.total_files as nat)
        + "</totalFiles>\n    <totalLines>"@ + digits(s.total_lines as nat)
        + "</totalLines>\n    <logicalLines>"@ + digits(s.logical_lines as nat)
        + "</logicalLines>\n    <commentLines>"@ + digits(s.comment_lines as nat)
        + "</commentLines>\n    <emptyLines>"@ + digits(s.empty_lines as nat)
        + "</emptyLines>\n    <languagesCount>"@ + digits(s.languages_count as nat)
        + "</languagesCount>\n    <unsupportedFiles>"@ + digits(s.unsupported_files as nat)
        + "</unsupportedFiles>\n  </summary>\n"@
}

/// The text of an optional string.
pub open spec fn text_option(o: Option<String>) -> Option<Seq<char>> {
    match o {
        Some(s) => Some(s@),
        None => None,
    }
}

/// The XML document of a report whose time of generation has the given
/// text. The format version and the time are written as they are; paths,
/// language names and the checksum are escaped.
pub open spec fn xml_document(report: &Report, generated_at: Seq<char>) -> Seq<char> {
    "<?xml version=\"1.0\" encoding=\"UTF-8\"?>\n<report>\n  <reportFormatVersion>"@
        + report.report_format_version@ + "</reportFormatVersion>\n  <generatedAt>"@ + generated_at
        + "</generatedAt>\n"@ + summary_xml(report.summary) + "  <files>\n"@ + files_xml(
        file_views(report.files@),
    ) + "</files>\n  <languages>\n"@ + languages_xml(language_views(report.languages@))
        + "</languages>\n  <unsupportedFiles>\n"@ + unsupported_files_xml(
        texts(report.unsupported_files@),
    ) + "</unsupportedFiles>\n"@ + checksum_xml(text_option(report.checksum)) + "</report>"@
}

/// The views of a list of records.
pub open spec fn records_view(records: Seq<Vec<String>>) -> Seq<Seq<Seq<char>>> {
    Seq::new(records.len(), |i: int| texts(records[i]@))
}

/// The CSV record of a file.
pub open spec fn file_record(f: FileStatsView) -> Seq<Seq<char>> {
    seq![
        f.path,
        f.language,
        digits(f.total_lines),
        digits(f.logical_lines),
        digits(f.comment_lines),
        digits(f.empty_lines),
    ]
}

/// The CSV records of a report: the header, one record for each file, and,
/// where there are unsupported files, a record that announces them and one
/// record for each.
pub open spec fn csv_records(report: &Report) -> Seq<Seq<Seq<char>>> {
    let files = file_views(report.files@);
    let unsupported = texts(report.unsupported_files@);
    let table = seq![
        seq![
            "Path"@,
            "Language"@,
            "Total Lines"@,
            "Logical Lines"@,
            "Comment Lines"@,
            "Empty Lines"@,
        ],
    ] + Seq::new(files.len(), |i: int| file_record(files[i]));
    if unsupported.len() == 0 {
        table
    } else {
        table + seq![seq!["--- Unsupported Files (not counted) ---"@]] + Seq::new(
            unsupported.len(),
            |i: int| seq![unsupported[i]],
        )
    }
}

/// The CSV record of a language delta.
pub open spec fn delta_record(d: LanguageDeltaView) -> Seq<Seq<char>> {
    seq![
        "Language"@,
        d.language,
        signed_digits(d.files_delta),
        signed_digits(d.total_lines_delta),
        signed_digits(d.logical_lines_delta),
        signed_digits(d.empty_lines_delta),
    ]
}

/// The CSV records of a comparison: the header, the global delta, and one
/// record for each language delta.
pub open spec fn comparison_records(comparison: &ComparisonResult) -> Seq<Seq<Seq<char>>> {
    let deltas = language_delta_views(comparison.language_deltas@);
    seq![
        seq![
            "Type"@,
            "Name"@,
            "Files Delta"@,
            "Total Delta"@,
            "Logical Delta"@,
            "Empty Delta"@,
        ],
        seq![
            "Global"@,
            "Summary"@,
            signed_digits(comparison.global_delta.files_delta as int),
            signed_digits(comparison.global_delta.total_lines_delta as int),
            signed_digits(comparison.global_delta.logical_lines_delta as int),
            signed_digits(comparison.global_delta.empty_lines_delta as int),
        ],
    ] + Seq::new(deltas.len(), |i: int| delta_record(deltas[i]))
}

/// Appends `text` to `out`, escaped for XML.
fn push_escaped(out: &mut String, text: &str)
    ensures
        final(out)@ == old(out)@ + xml_escaped(text@),
{
    let chars = chars_of(text);
    let n: usize = chars.len();
    let mut i: usize = 0;
    proof {
        assert(chars@.take(0) =~= Seq::empty());
        assert(out@ =~= old(out)@ + xml_escaped(chars@.take(0)));
    }
    while i < n
        invariant
            i <= n,
            n == chars@.len(),
            chars@ == text@,
            out@ == old(out)@ + xml_escaped(chars@.take(i as int)),
        decreases n - i,
    {
        let ch: char = chars[i];
        let ghost before = out@;
        proof {
            assert(chars@.take(i + 1).drop_last() == chars@.take(i as int));
            assert(chars@.take(i + 1).last() == ch);
        }
        if ch == '&' {
            out.append("&amp;");
        } else if ch == '<' {
            out.append("&lt;");
        } else if ch == '>' {
            out.append("&gt;");
        } else if ch == '"' {
            out.append("&quot;");
        } else if ch == '\'' {
            out.append("&apos;");
        } else {
            out.push(ch);
            proof {
                assert(out@ =~= before + seq![ch]);
            }
        }
        proof {
            assert(out@ =~= old(out)@ + xml_escaped(chars@.take(i + 1)));
        }
        i += 1;
    }
    proof {
        assert(chars@.take(n as int) == chars@);
    }
}

/// Appends the XML element of `f` to `out`.
fn push_file_xml(out: &mut String, f: &FileStats)
    ensures
        final(out)@ == old(out)@ + file_xml(f@),
{
    out.append("    <file>\n      <path>");
    push_escaped(out, f.path.as_str());
    out.append("</path>\n      <language>");
    push_escaped(out, f.language.as_str());
    out.append("</language>\n      <totalLines>");
    push_number(out, f.total_lines);
    out.append("</totalLines>\n      <logicalLines>");
    push_number(out, f.logical_lines);
    out.append("</logicalLines>\n      <commentLines>");
    push_number(out, f.comment_lines);
    out.append("</commentLines>\n      <emptyLines>");
    push_number(out, f.empty_lines);
    out.append("</emptyLines>\n    </file>");
    proof {
        assert(out@ =~= old(out)@ + file_xml(f@));
    }
}

/// Appends the XML element of `l` to `out`.
fn push_language_xml(out: &mut String, l: &LanguageStats)
    ensures
        final(out)@ == old(out)@ + language_xml(l@),
{
    out.append("    <language>\n      <language>");
    push_escaped(out, l.language.as_str());
    out.append("</language>\n      <fileCount>");
    push_number(out, l.file_count);
    out.append("</fileCount>\n      <totalLines>");
    push_number(out, l.total_lines);
    out.append("</totalLines>\n      <logicalLines>");
    push_number(out, l.logical_lines);
    out.append("</logicalLines>\n      <commentLines>");
    push_number(out, l.comment_lines);
    out.append("</commentLines>\n      <emptyLines>");
    push_number(out, l.empty_lines);
    out.append("</emptyLines>\n    </language>");
    proof {
        assert(out@ =~= old(out)@ + language_xml(l@));
    }
}

/// Appends the XML element of a summary to `out`.
fn push_summary_xml(out: &mut String, s: &GlobalSummary)
    ensures
        final(out)@ == old(out)@ + summary_xml(*s),
{
    out.append("  <summary>\n    <totalFiles>");
    push_number(out, s.total_files);
    out.append("</totalFiles>\n    <totalLines>");
    push_number(out, s.total_lines);
    out.append("</totalLines>\n    <logicalLines>");
    push_number(out, s.logical_lines);
    out.append("</logicalLines>\n    <commentLines>");
    push_number(out, s.comment_lines);
    out.append("</commentLines>\n    <emptyLines>");
    push_number(out, s.empty_lines);
    out.append("</emptyLines>\n    <languagesCount>");
    push_number(out, s.languages_count);
    out.append("</languagesCount>\n    <unsupportedFiles>");
    push_number(out, s.unsupported_files);
    out.append("</unsupportedFiles>\n  </summary>\n");
    proof {
        assert(out@ =~= old(out)@ + summary_xml(*s));
    }
}

/// The decimal text of `n`.
fn number_text(n: usize) -> (text: String)
    ensures
        text@ == digits(n as nat),
{
    let mut text = String::new();
    push_number(&mut text, n);
    proof {
        assert(text@ =~= digits(n as nat));
    }
    text
}

/// The decimal text of `i`.
fn signed_text(i: i64) -> (text: String)
    ensures
        text@ == signed_digits(i as int),
{
    let mut text = String::new();
    push_signed(&mut text, i);
    proof {
        assert(text@ =~= signed_digits(i as int));
    }
    text
}

/// Writes reports and comparisons in their file formats.
pub struct ReportExporter;

impl ReportExporter {
    /// An exporter.
    pub fn new() -> (exporter: Self) {
        ReportExporter
    }

    /// `text` with the special characters of XML replaced by their
    /// entities.
    pub fn escape_xml(&self, text: &str) -> (escaped: String)
        ensures
            escaped@ == xml_escaped(text@),
    {
        let mut out = String::new();
        push_escaped(&mut out, text);
        proof {
            assert(out@ =~= xml_escaped(text@));
        }
        out
    }

    /// The XML elements of `files`, one below the other.
    pub fn format_files_xml(&self, files: &[FileStats]) -> (xml: String)
        ensures
            xml@ == files_xml(file_views(files@)),
    {
        let n: usize = files.len();
        let ghost items = Seq::new(files@.len(), |i: int| file_xml(file_views(files@)[i]));
        let mut out = String::new();
        let mut i: usize = 0;
        proof {
            assert(items.take(0) =~= Seq::empty());
        }
        while i < n
            invariant
                i <= n,
                n == files@.len(),
                items == Seq::new(files@.len(), |i: int| file_xml(file_views(files@)[i])),
                out@ == joined(items.take(i as int)),
            decreases n - i,
        {
            let ghost before = out@;
            if i > 0 {
                out.push('\n');
            }
            push_file_xml(&mut out, &files[i]);
            proof {
                assert(items.take(i + 1).drop_last() == items.take(i as int));
                assert(items.take(i + 1).last() == file_xml(files@[i as int]@));
                if i == 0 {
                    assert(out@ =~= file_xml(files@[i as int]@));
                } else {
                    assert(out@ =~= before + seq!['\n'] + file_xml(files@[i as int]@));
                }
            }
            i += 1;
        }
        proof {
            assert(items.take(n as int) == items);
        }
        out
    }

    /// The XML elements of `languages`, one below the other.
    pub fn format_languages_xml(&self, languages: &[LanguageStats]) -> (xml: String)
        ensures
            xml@ == languages_xml(language_views(languages@)),
    {
        let n: usize = languages.len();
        let ghost items = Seq::new(
            languages@.len(),
            |i: int| language_xml(language_views(languages@)[i]),
        );
        let mut out = String::new();
        let mut i: usize = 0;
        proof {
            assert(items.take(0) =~= Seq::empty());
        }
        while i < n
            invariant
                i <= n,
                n == languages@.len(),
                items == Seq::new(
                    languages@.len(),
                    |i: int| language_xml(language_views(languages@)[i]),
                ),
                out@ == joined(items.take(i as int)),
            decreases n - i,
        {
            let ghost before = out@;
            if i > 0 {
                out.push('\n');
            }
            push_language_xml(&mut out, &languages[i]);
            proof {
                assert(items.take(i + 1).drop_last() == items.take(i as int));
                assert(items.take(i + 1).last() == language_xml(languages@[i as int]@));
                if i == 0 {
                    assert(out@ =~= language_xml(languages@[i as int]@));
                } else {
                    assert(out@ =~= before + seq!['\n'] + language_xml(languages@[i as int]@));
                }
            }
            i += 1;
        }
        proof {
            assert(items.take(n as int) == items);
        }
        out
    }

    /// The XML elements of the unsupported files, one below the other.
    pub fn format_unsupported_files_xml(&self, unsupported_files: &[String]) -> (xml: String)
        ensures
            xml@ == unsupported_files_xml(texts(unsupported_files@)),
    {
        let n: usize = unsupported_files.len();
        let ghost items = Seq::new(
            unsupported_files@.len(),
            |i: int| unsupported_xml(texts(unsupported_files@)[i]),
        );
        let mut out = String::new();
        let mut i: usize = 0;
        proof {
            assert(items.take(0) =~= Seq::empty());
        }
        while i < n
            invariant
                i <= n,
                n == unsupported_files@.len(),
                items == Seq::new(
                    unsupported_files@.len(),
                    |i: int| unsupported_xml(texts(unsupported_files@)[i]),
                ),
                out@ == joined(items.take(i as int)),
            decreases n - i,
        {
            let ghost before = out@;
            let ghost item = unsupported_xml(unsupported_files@[i as int]@);
            if i > 0 {
                out.push('\n');
            }
            out.append("    <unsupportedFile>");
            push_escaped(&mut out, unsupported_files[i].as_str());
            out.append("</unsupportedFile>");
            proof {
                assert(items.take(i + 1).drop_last() == items.take(i as int));
                assert(items.take(i + 1).last() == item);
                if i == 0 {
                    assert(out@ =~= item);
                } else {
                    assert(out@ =~= before + seq!['\n'] + item);
                }
            }
            i += 1;
        }
        proof {
            assert(items.take(n as int) == items);
        }
        out
    }

    /// The XML element of the checksum on a line of its own, or nothing
    /// where there is no checksum.
    pub fn format_checksum_xml(&self, checksum: &Option<String>) -> (xml: String)
        ensures
            xml@ == checksum_xml(text_option(*checksum)),
    {
        match checksum {
            Some(text) => {
                let mut out = "\n  <checksum>".to_owned();
                push_escaped(&mut out, text.as_str());
                out.append("</checksum>");
                out
            },
            None => String::new(),
        }
    }

    /// The XML document of `report`, with `generated_at` as the text of its
    /// time of generation.
    pub fn xml_document(&self, report: &Report, generated_at: &str) -> (xml: String)
        ensures
            xml@ == xml_document(report, generated_at@),
    {
        let mut out =
            "<?xml version=\"1.0\" encoding=\"UTF-8\"?>\n<report>\n  <reportFormatVersion>".to_owned();
        out.append(report.report_format_version.as_str());
        out.append("</reportFormatVersion>\n  <generatedAt>");
        out.append(generated_at);
        out.append("</generatedAt>\n");
        push_summary_xml(&mut out, &report.summary);
        out.append("  <files>\n");
        let files = self.format_files_xml(report.files.as_slice());
        out.append(files.as_str());
        out.append("</files>\n  <languages>\n");
        let languages = self.format_languages_xml(report.languages.as_slice());
        out.append(languages.as_str());
        out.append("</languages>\n  <unsupportedFiles>\n");
        let unsupported = self.format_unsupported_files_xml(report.unsupported_files.as_slice());
        out.append(unsupported.as_str());
        out.append("</unsupportedFiles>\n");
        let checksum = self.format_checksum_xml(&report.checksum);
        out.append(checksum.as_str());
        out.append("</report>");
        out
    }

    /// The XML document of `report`, or `None` where the time of generation
    /// has no RFC 3339 text.
    pub fn export_xml(&self, report: &Report) -> (xml: Option<String>)
        ensures
            text_option(xml) == match rfc3339_text(
                report.generated_at.seconds as int,
                report.generated_at.nanoseconds as int,
            ) {
                Some(time) => Some(xml_document(report, time)),
                None => None,
            },
    {
        match rfc3339(report.generated_at) {
            Some(time) => Some(self.xml_document(report, time.as_str())),
            None => None,
        }
    }

    /// The CSV records of `report`.
    pub fn export_csv(&self, report: &Report) -> (records: Vec<Vec<String>>)
        ensures
            records_view(records@) == csv_records(report),
    {
        let mut records: Vec<Vec<String>> = Vec::new();
        let header: Vec<String> = vec![
            "Path".to_owned(),
            "Language".to_owned(),
            "Total Lines".to_owned(),
            "Logical Lines".to_owned(),
            "Comment Lines".to_owned(),
            "Empty Lines".to_owned(),
        ];
        let ghost titles = texts(header@);
        records.push(header);
        let ghost files = file_views(report.files@);
        let ghost unsupported = texts(report.unsupported_files@);
        let ghost head = seq![
            seq![
                "Path"@,
                "Language"@,
                "Total Lines"@,
                "Logical Lines"@,
                "Comment Lines"@,
                "Empty Lines"@,
            ],
        ];
        let n: usize = report.files.len();
        let mut i: usize = 0;
        proof {
            assert(titles =~= head[0]);
            assert(records_view(records@) =~= head + Seq::new(0, |i: int| file_record(files[i])));
        }
        while i < n
            invariant
                i <= n,
                n == report.files@.len(),
                files == file_views(report.files@),
                records_view(records@) == head + Seq::new(i as nat, |i: int| file_record(files[i])),
            decreases n - i,
        {
            let f = &report.files[i];
            let ghost before = records_view(records@);
            let record: Vec<String> = vec![
                f.path.clone(),
                f.language.clone(),
                number_text(f.total_lines),
                number_text(f.logical_lines),
                number_text(f.comment_lines),
                number_text(f.empty_lines),
            ];
            proof {
                assert(texts(record@) =~= file_record(f@));
            }
            records.push(record);
            proof {
                assert(records_view(records@) =~= before.push(file_record(f@)));
                assert(records_view(records@) =~= head + Seq::new(
                    (i + 1) as nat,
                    |i: int| file_record(files[i]),
                ));
            }
            i += 1;
        }
        let m: usize = report.unsupported_files.len();
        if m > 0 {
            let ghost table = records_view(records@);
            let announce: Vec<String> = vec!["--- Unsupported Files (not counted) ---".to_owned()];
            proof {
                assert(texts(announce@) =~= seq!["--- Unsupported Files (not counted) ---"@]);
            }
            records.push(announce);
            let ghost mark = seq![seq!["--- Unsupported Files (not counted) ---"@]];
            let mut k: usize = 0;
            proof {
                assert(records_view(records@) =~= table + mark + Seq::new(
                    0,
                    |i: int| seq![unsupported[i]],
                ));
            }
            while k < m
                invariant
                    k <= m,
                    m == report.unsupported_files@.len(),
                    unsupported == texts(report.unsupported_files@),
                    records_view(records@) == table + mark + Seq::new(
                        k as nat,
                        |i: int| seq![unsupported[i]],
                    ),
                decreases m - k,
            {
                let ghost before = records_view(records@);
                let record: Vec<String> = vec![report.unsupported_files[k].clone()];
                proof {
                    assert(texts(record@) =~= seq![unsupported[k as int]]);
                }
                records.push(record);
                proof {
                    assert(records_view(records@) =~= before.push(seq![unsupported[k as int]]));
                    assert(records_view(records@) =~= table + mark + Seq::new(
                        (k + 1) as nat,
                        |i: int| seq![unsupported[i]],
                    ));
                }
                k += 1;
            }
        }
        records
    }

    /// The CSV records of `comparison`.
    pub fn comparison_csv(&self, comparison: &ComparisonResult) -> (records: Vec<Vec<String>>)
        ensures
            records_view(records@) == comparison_records(comparison),
    {
        let header: Vec<String> = vec![
            "Type".to_owned(),
            "Name".to_owned(),
            "Files Delta".to_owned(),
            "Total Delta".to_owned(),
            "Logical Delta".to_owned(),
            "Empty Delta".to_owned(),
        ];
        let g = &comparison.global_delta;
        let global: Vec<String> = vec![
            "Global".to_owned(),
            "Summary".to_owned(),
            signed_text(g.files_delta),
            signed_text(g.total_lines_delta),
            signed_text(g.logical_lines_delta),
            signed_text(g.empty_lines_delta),
        ];
        let ghost head = seq![
            seq![
                "Type"@,
                "Name"@,
                "Files Delta"@,
                "Total Delta"@,
                "Logical Delta"@,
                "Empty Delta"@,
            ],
            seq![
                "Global"@,
                "Summary"@,
                signed_digits(g.files_delta as int),
                signed_digits(g.total_lines_delta as int),
                signed_digits(g.logical_lines_delta as int),
                signed_digits(g.empty_lines_delta as int),
            ],
        ];
        proof {
            assert(texts(header@) =~= head[0]);
            assert(texts(global@) =~= head[1]);
        }
        let mut records: Vec<Vec<String>> = Vec::new();
        records.push(header);
        records.push(global);
        let ghost deltas = language_delta_views(comparison.language_deltas@);
        let n: usize = comparison.language_deltas.len();
        let mut i: usize = 0;
        proof {
            assert(records_view(records@) =~= head + Seq::new(0, |i: int| delta_record(deltas[i])));
        }
        while i < n
            invariant
                i <= n,
                n == comparison.language_deltas@.len(),
                deltas == language_delta_views(comparison.language_deltas@),
                records_view(records@) == head + Seq::new(
                    i as nat,
                    |i: int| delta_record(deltas[i]),
                ),
            decreases n - i,
        {
            let d = &comparison.language_deltas[i];
            let ghost before = records_view(records@);
            let record: Vec<String> = vec![
                "Language".to_owned(),
                d.language.clone(),
                signed_text(d.files_delta),
                signed_text(d.total_lines_delta),
                signed_text(d.logical_lines_delta),
                signed_text(d.empty_lines_delta),
            ];
            proof {
                assert(texts(record@) =~= delta_record(d@));
            }
            records.push(record);
            proof {
                assert(records_view(records@) =~= before.push(delta_record(d@)));
                assert(records_view(records@) =~= head + Seq::new(
                    (i + 1) as nat,
                    |i: int| delta_record(deltas[i]),
                ));
            }
            i += 1;
        }
        records
    }
}

/// Decides what the console shows and in what order.
pub struct ConsoleOutput {
    sort_metric: Option<SortMetric>,
    details: bool,
}

impl ConsoleOutput {
    /// The metric that listings are sorted by, if any.
    pub closed spec fn metric(&self) -> Option<SortMetric> {
        self.sort_metric
    }

    /// Whether files are listed.
    pub closed spec fn with_details(&self) -> bool {
        self.details
    }

    /// A console output that sorts by `sort_metric` and lists files if
    /// `details` is set.
    pub fn new(sort_metric: Option<SortMetric>, details: bool) -> (console: Self)
        ensures
            console.metric() == sort_metric,
            console.with_details() == details,
    {
        ConsoleOutput { sort_metric, details }
    }

    /// Whether files are listed.
    pub fn details(&self) -> (b: bool)
        ensures
            b == self.with_details(),
    {
        self.details
    }

    /// The languages of `report` in the order in which they are listed: by
    /// the metric, or by name where there is none.
    pub fn language_rows(&self, report: &Report) -> (rows: Vec<LanguageStats>)
        ensures
            language_views(rows@) == sort_by(
                language_views(report.languages@),
                language_le(
                    match self.metric() {
                        Some(m) => m,
                        None => SortMetric::Name,
                    },
                ),
            ),
    {
        let metric = match self.sort_metric {
            Some(m) => m,
            None => SortMetric::Name,
        };
        sorted_languages(&report.languages, metric)
    }

    /// The files of `report` in the order in which they are listed: by the
    /// metric, or as the report has them where there is none.
    pub fn file_rows(&self, report: &Report) -> (rows: Vec<FileStats>)
        ensures
            file_views(rows@) == match self.metric() {
                Some(m) => sort_by(file_views(report.files@), file_le(m)),
                None => file_views(report.files@),
            },
    {
        match self.sort_metric {
            Some(m) => sorted_files(&report.files, m),
            None => {
                let n: usize = report.files.len();
                let mut rows: Vec<FileStats> = Vec::new();
                let mut i: usize = 0;
                while i < n
                    invariant
                        i <= n,
                        n == report.files@.len(),
                        rows@.len() == i,
                        forall|q: int| 0 <= q < i ==> (#[trigger] rows@[q])@ == report.files@[q]@,
                    decreases n - i,
                {
                    rows.push(copy_file(&report.files[i]));
                    i += 1;
                }
                proof {
                    assert(file_views(rows@) =~= file_views(report.files@));
                }
                rows
            },
        }
    }

    /// Whether the file listing is shown: only with details, and only for
    /// reports of at most twenty files.
    pub fn lists_files(&self, report: &Report) -> (b: bool)
        ensures
            b == (self.with_details() && report.files@.len() <= 20),
    {
        self.details && report.files.len() <= 20
    }
}

} // verus!
