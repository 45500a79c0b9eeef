//! Reading the file table of a report back from its CSV records.
//!
//! The records of a report hold more than the table reads: the header is
//! checked, the file records are read up to the record that announces the
//! unsupported files, and what follows is left aside. Languages and summary
//! are derived anew from the files that were read.

use vstd::prelude::*;
use crate::error::SlocError;
use crate::language::{strs, texts};
use crate::order::str_eq;
use crate::output::{csv_records, file_record, records_view};
use crate::report::Report;
use crate::stats::{file_views, FileStats, FileStatsView};
use crate::text::{chars_of, digit, digits};

verus! {

/// Whether `c` is a decimal digit.
pub open spec fn is_digit(c: char) -> bool {
    48 <= c as u32 <= 57
}

/// Whether `s` holds decimal digits only.
pub open spec fn all_digits(s: Seq<char>) -> bool {
    forall|i: int| 0 <= i < s.len() ==> is_digit(#[trigger] s[i])
}

/// The value of a decimal digit, and zero of any other character.
pub open spec fn digit_value(c: char) -> nat {
    if is_digit(c) {
        (c as u32 - 48) as nat
    } else {
        0
    }
}

/// The number that the digits of `s` stand for.
pub open spec fn value_of(s: Seq<char>) -> nat
    decreases s.len(),
{
    if s.len() == 0 {
        0
    } else {
        value_of(s.drop_last()) * 10 + digit_value(s.last())
    }
}

/// The count that a text stands for: the text must hold decimal digits and
/// nothing else, at least one, and their number must fit a `usize`.
pub open spec fn number_of(s: Seq<char>) -> Option<nat> {
    if s.len() > 0 && all_digits(s) && value_of(s) <= usize::MAX {
        Some(value_of(s))
    } else {
        None
    }
}

/// The value of the first digits of a text is no greater than that of all.
proof fn lemma_value_grows(s: Seq<char>, k: int)
    requires
        0 <= k <= s.len(),
    ensures
        value_of(s.take(k)) <= value_of(s),
    decreases s.len() - k,
{
    if k < s.len() {
        lemma_value_grows(s, k + 1);
        assert(s.take(k + 1).drop_last() == s.take(k));
    } else {
        assert(s.take(k) == s);
    }
}

/// The decimal text of a number stands for the number.
pub proof fn lemma_digits_value(n: nat)
    ensures
        digits(n).len() > 0,
        all_digits(digits(n)),
        value_of(digits(n)) == n,
    decreases n,
{
    if n < 10 {
        let s = digits(n);
        assert(s.drop_last() =~= Seq::<char>::empty());
        assert(s.last() == digit(n));
        assert(digit(n) as u32 == 48 + n);
        assert(value_of(s.drop_last()) == 0);
    } else {
        lemma_digits_value(n / 10);
        let s = digits(n);
        let d = n % 10;
        assert(s.drop_last() =~= digits(n / 10));
        assert(s.last() == digit(d));
        assert(digit(d) as u32 == 48 + d);
        assert forall|i: int| 0 <= i < s.len() implies is_digit(#[trigger] s[i]) by {
            if i < s.len() - 1 {
                assert(s[i] == digits(n / 10)[i]);
            }
        }
    }
}

/// The count that `s` stands for, if it stands for one.
pub fn parse_number(s: &str) -> (r: Option<usize>)
    ensures
        match r {
            Some(n) => number_of(s@) == Some(n as nat),
            None => number_of(s@) is None,
        },
{
    let chars = chars_of(s);
    let n: usize = chars.len();
    if n == 0 {
        return None;
    }
    let mut value: usize = 0;
    let mut i: usize = 0;
    proof {
        assert(chars@.take(0) =~= Seq::<char>::empty());
    }
    while i < n
        invariant
            i <= n,
            n == chars@.len(),
            chars@ == s@,
            all_digits(chars@.take(i as int)),
            value == value_of(chars@.take(i as int)),
        decreases n - i,
    {
        let c: char = chars[i];
        let code: u32 = c as u32;
        proof {
            assert(chars@.take(i + 1).drop_last() == chars@.take(i as int));
            assert(chars@.take(i + 1).last() == c);
            lemma_value_grows(chars@, i + 1);
        }
        if code < 48 || code > 57 {
            proof {
                assert(!is_digit(chars@[i as int]));
            }
            return None;
        }
        let d: usize = (code - 48) as usize;
        let next = match value.checked_mul(10) {
            Some(v) => v.checked_add(d),
            None => None,
        };
        match next {
            Some(v) => {
                value = v;
            },
            None => {
                return None;
            },
        }
        proof {
            assert forall|j: int| 0 <= j < i + 1 implies is_digit(
                #[trigger] chars@.take(i + 1)[j],
            ) by {
                if j < i {
                    assert(chars@.take(i + 1)[j] == chars@.take(i as int)[j]);
                }
            }
        }
        i += 1;
    }
    proof {
        assert(chars@.take(n as int) == chars@);
    }
    Some(value)
}

/// The header of the file table.
pub open spec fn csv_header() -> Seq<Seq<char>> {
    seq![
        "Path"@,
        "Language"@,
        "Total Lines"@,
        "Logical Lines"@,
        "Comment Lines"@,
        "Empty Lines"@,
    ]
}

/// The header of a file table that names the fields of a file.
pub open spec fn field_header() -> Seq<Seq<char>> {
    seq![
        "path"@,
        "language"@,
        "total_lines"@,
        "logical_lines"@,
        "comment_lines"@,
        "empty_lines"@,
    ]
}

/// Whether `record` is a header of the file table: that of the records of
/// a report, or the one that names the fields.
pub open spec fn is_header(record: Seq<Seq<char>>) -> bool {
    record == csv_header() || record == field_header()
}

/// The record that announces the unsupported files.
pub open spec fn csv_trailer() -> Seq<Seq<char>> {
    seq!["--- Unsupported Files (not counted) ---"@]
}

/// The file that a record of the file table stands for: path, language and
/// the four counts.
pub open spec fn record_file(record: Seq<Seq<char>>) -> Option<FileStatsView> {
    if record.len() == 6 && number_of(record[2]) is Some && number_of(record[3]) is Some
        && number_of(record[4]) is Some && number_of(record[5]) is Some {
        Some(
            FileStatsView {
                path: record[0],
                language: record[1],
                total_lines: number_of(record[2])->0,
                logical_lines: number_of(record[3])->0,
                comment_lines: number_of(record[4])->0,
                empty_lines: number_of(record[5])->0,
            },
        )
    } else {
        None
    }
}

/// `files` before what `rest` holds, if it holds anything.
pub open spec fn before(files: Seq<FileStatsView>, rest: Option<Seq<FileStatsView>>) -> Option<
    Seq<FileStatsView>,
> {
    match rest {
        Some(more) => Some(files + more),
        None => None,
    }
}

/// The files of the records from index `from` up to the trailer or the end
/// of the records; none if one of these records stands for no file.
pub open spec fn files_from(records: Seq<Seq<Seq<char>>>, from: int) -> Option<Seq<FileStatsView>>
    decreases records.len() - from,
{
    if from < 0 || from >= records.len() || records[from] == csv_trailer() {
        Some(Seq::empty())
    } else {
        match record_file(records[from]) {
            Some(file) => before(seq![file], files_from(records, from + 1)),
            None => None,
        }
    }
}

/// The files of a file table. No record at all is a table without files;
/// otherwise the first record must be a header.
pub open spec fn csv_files(records: Seq<Seq<Seq<char>>>) -> Option<Seq<FileStatsView>> {
    if records.len() == 0 {
        Some(Seq::empty())
    } else if is_header(records[0]) {
        files_from(records, 1)
    } else {
        None
    }
}

/// Whether `record` holds exactly the texts of `expected`.
fn record_is(record: &Vec<String>, expected: &Vec<&str>) -> (r: bool)
    ensures
        r == (texts(record@) == strs(expected@)),
{
    let n: usize = record.len();
    if n != expected.len() {
        proof {
            assert(texts(record@).len() != strs(expected@).len());
        }
        return false;
    }
    let mut i: usize = 0;
    while i < n
        invariant
            i <= n,
            n == record@.len(),
            n == expected@.len(),
            forall|j: int| 0 <= j < i ==> (#[trigger] record@[j])@ == expected@[j]@,
        decreases n - i,
    {
        if !str_eq(record[i].as_str(), expected[i]) {
            proof {
                assert(texts(record@)[i as int] != strs(expected@)[i as int]);
            }
            return false;
        }
        i += 1;
    }
    proof {
        assert(texts(record@) =~= strs(expected@));
    }
    true
}

/// The file that `record` stands for, if it stands for one.
fn read_file(record: &Vec<String>) -> (r: Option<FileStats>)
    ensures
        match r {
            Some(file) => record_file(texts(record@)) == Some(file@),
            None => record_file(texts(record@)) is None,
        },
{
    if record.len() != 6 {
        return None;
    }
    proof {
        assert(texts(record@)[2] == record@[2]@);
        assert(texts(record@)[3] == record@[3]@);
        assert(texts(record@)[4] == record@[4]@);
        assert(texts(record@)[5] == record@[5]@);
        assert(texts(record@)[0] == record@[0]@);
        assert(texts(record@)[1] == record@[1]@);
    }
    let total = parse_number(record[2].as_str());
    let logical = parse_number(record[3].as_str());
    let comment = parse_number(record[4].as_str());
    let empty = parse_number(record[5].as_str());
    match (total, logical, comment, empty) {
        (Some(total_lines), Some(logical_lines), Some(comment_lines), Some(empty_lines)) => Some(
            FileStats {
                path: record[0].clone(),
                language: record[1].clone(),
                total_lines,
                logical_lines,
                comment_lines,
                empty_lines,
            },
        ),
        _ => None,
    }
}

/// The files of the file table in `records`, or an error of
/// deserialization where the first record is no header or a record of the
/// table stands for no file. Where there is no record there are no files.
pub fn import_csv(records: &Vec<Vec<String>>) -> (r: Result<Vec<FileStats>, SlocError>)
    ensures
        match r {
            Ok(files) => csv_files(records_view(records@)) == Some(file_views(files@)),
            Err(e) => csv_files(records_view(records@)) is None && e is Deserialization,
        },
{
    let n: usize = records.len();
    let ghost all = records_view(records@);
    let header: Vec<&str> = vec![
        "Path",
        "Language",
        "Total Lines",
        "Logical Lines",
        "Comment Lines",
        "Empty Lines",
    ];
    let fields: Vec<&str> = vec![
        "path",
        "language",
        "total_lines",
        "logical_lines",
        "comment_lines",
        "empty_lines",
    ];
    let trailer: Vec<&str> = vec!["--- Unsupported Files (not counted) ---"];
    proof {
        assert(strs(header@) =~= csv_header());
        assert(strs(fields@) =~= field_header());
        assert(strs(trailer@) =~= csv_trailer());
        if n > 0 {
            assert(all[0] == texts(records@[0]@));
        }
    }
    if n == 0 {
        let none: Vec<FileStats> = Vec::new();
        proof {
            assert(file_views(none@) =~= Seq::empty());
        }
        return Ok(none);
    }
    if !record_is(&records[0], &header) && !record_is(&records[0], &fields) {
        return Err(SlocError::Deserialization("the file table has no header".to_owned()));
    }
    let mut files: Vec<FileStats> = Vec::new();
    let mut i: usize = 1;
    proof {
        assert(file_views(files@) =~= Seq::empty());
        assert(before(Seq::empty(), files_from(all, 1)) == files_from(all, 1)) by {
            if let Some(more) = files_from(all, 1) {
                assert(Seq::<FileStatsView>::empty() + more =~= more);
            }
        }
    }
    while i < n
        invariant
            1 <= i <= n,
            n == records@.len(),
            all == records_view(records@),
            strs(trailer@) == csv_trailer(),
            csv_files(all) == before(file_views(files@), files_from(all, i as int)),
        decreases n - i,
    {
        proof {
            assert(all[i as int] == texts(records@[i as int]@));
        }
        if record_is(&records[i], &trailer) {
            proof {
                assert(file_views(files@) + Seq::<FileStatsView>::empty() =~= file_views(files@));
            }
            return Ok(files);
        }
        let ghost done = file_views(files@);
        match read_file(&records[i]) {
            Some(file) => {
                let ghost view = file@;
                files.push(file);
                proof {
                    assert(file_views(files@) =~= done.push(view));
                    if let Some(more) = files_from(all, i + 1) {
                        assert(done + (seq![view] + more) =~= done.push(view) + more);
                    }
                }
            },
            None => {
                return Err(
                    SlocError::Deserialization("a record of the file table is malformed".to_owned()),
                );
            },
        }
        i += 1;
    }
    proof {
        assert(file_views(files@) + Seq::<FileStatsView>::empty() =~= file_views(files@));
    }
    Ok(files)
}

proof fn lemma_record_round_trip(file: FileStats)
    ensures
        record_file(file_record(file@)) == Some(file@),
{
    lemma_digits_value(file.total_lines as nat);
    lemma_digits_value(file.logical_lines as nat);
    lemma_digits_value(file.comment_lines as nat);
    lemma_digits_value(file.empty_lines as nat);
}

proof fn lemma_table_round_trip(report: &Report, k: int)
    requires
        0 <= k <= report.files@.len(),
    ensures
        files_from(csv_records(report), 1 + k) == Some(file_views(report.files@).skip(k)),
    decreases report.files@.len() - k,
{
    let records = csv_records(report);
    let files = file_views(report.files@);
    let unsupported = texts(report.unsupported_files@);
    if k < files.len() {
        lemma_table_round_trip(report, k + 1);
        lemma_record_round_trip(report.files@[k]);
        assert(records[1 + k] == file_record(files[k]));
        assert(file_record(files[k]).len() == 6);
        assert(csv_trailer().len() == 1);
        assert(seq![files[k]] + files.skip(k + 1) =~= files.skip(k));
    } else {
        assert(files.skip(k) =~= Seq::<FileStatsView>::empty());
        if unsupported.len() > 0 {
            assert(records[1 + k] == csv_trailer());
        }
    }
}

/// The files of a report survive its CSV records: read back from the
/// records that `export_csv` makes of a report, the file table holds the
/// files of the report.
pub proof fn lemma_csv_round_trip(report: &Report)
    ensures
        csv_files(csv_records(report)) == Some(file_views(report.files@)),
{
    lemma_table_round_trip(report, 0);
    assert(file_views(report.files@).skip(0) =~= file_views(report.files@));
    assert(csv_records(report)[0] == csv_header());
}

/// A report survives its CSV records but for the unsupported files and the
/// checksum: a report that is made of the files read back from the records
/// of a report holds the same files, the same languages, and the same
/// summary with the number of unsupported files of the new report.
pub proof fn lemma_report_survives_csv(
    first: Report,
    second: Report,
    files: Seq<FileStats>,
    unsupported: Seq<String>,
    time: crate::report::Timestamp,
)
    requires
        first.is_derived(),
        csv_files(csv_records(&first)) == Some(file_views(files)),
        second.is_made_of(files, unsupported, time),
    ensures
        file_views(second.files@) == file_views(first.files@),
        crate::stats::language_views(second.languages@) == crate::stats::language_views(
            first.languages@,
        ),
        second.summary == (crate::stats::GlobalSummary {
            unsupported_files: unsupported.len() as usize,
            ..first.summary
        }),
{
    lemma_csv_round_trip(&first);
    crate::report::lemma_rederived(first, second, files, unsupported, time);
}

} // verus!
