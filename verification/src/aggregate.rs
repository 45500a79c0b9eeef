//! Aggregation of file statistics into per-language statistics and a
//! global summary.

use vstd::prelude::*;
use crate::order::{
    lemma_text_le_antisymmetric, lemma_text_le_reflexive, lemma_text_le_total,
    lemma_strictly_ascending_unique, lemma_text_le_transitive, str_le, strictly_ascending, text_lt,
};
use crate::stats::{
    file_views, language_views, FileStats, FileStatsView, GlobalSummary, LanguageStats,
    LanguageStatsView,
};

verus! {

/// Sums over a list of files.
pub struct Totals {
    pub files: nat,
    pub total: nat,
    pub logical: nat,
    pub comment: nat,
    pub empty: nat,
}

impl Totals {
    /// The sums over no file.
    pub open spec fn zero() -> Totals {
        Totals { files: 0, total: 0, logical: 0, comment: 0, empty: 0 }
    }

    /// The sums with one more file.
    pub open spec fn plus(self, f: FileStatsView) -> Totals {
        Totals {
            files: self.files + 1,
            total: self.total + f.total_lines,
            logical: self.logical + f.logical_lines,
            comment: self.comment + f.comment_lines,
            empty: self.empty + f.empty_lines,
        }
    }

    /// Whether every line sum can be held in a `usize`.
    pub open spec fn fits(self) -> bool {
        &&& self.total <= usize::MAX
        &&& self.logical <= usize::MAX
        &&& self.comment <= usize::MAX
        &&& self.empty <= usize::MAX
    }

    /// Whether no sum of `self` is greater than that of `other`.
    pub open spec fn within(self, other: Totals) -> bool {
        &&& self.files <= other.files
        &&& self.total <= other.total
        &&& self.logical <= other.logical
        &&& self.comment <= other.comment
        &&& self.empty <= other.empty
    }
}

/// The sums over all of `files`.
pub open spec fn totals(files: Seq<FileStatsView>) -> Totals
    decreases files.len(),
{
    if files.len() == 0 {
        Totals::zero()
    } else {
        totals(files.drop_last()).plus(files.last())
    }
}

/// The sums over the files of one language.
pub open spec fn language_totals(files: Seq<FileStatsView>, language: Seq<char>) -> Totals
    decreases files.len(),
{
    if files.len() == 0 {
        Totals::zero()
    } else if files.last().language == language {
        language_totals(files.drop_last(), language).plus(files.last())
    } else {
        language_totals(files.drop_last(), language)
    }
}

/// The statistics of one language over `files`.
pub open spec fn language_entry(files: Seq<FileStatsView>, language: Seq<char>) -> LanguageStatsView {
    let t = language_totals(files, language);
    LanguageStatsView {
        language,
        file_count: t.files,
        total_lines: t.total,
        logical_lines: t.logical,
        comment_lines: t.comment,
        empty_lines: t.empty,
    }
}

/// `languages` is the per-language aggregation of `files`: one entry for
/// each language that a file has, in strictly ascending order of the
/// language names, each holding the sums over the files of its language.
pub open spec fn is_aggregate(files: Seq<FileStatsView>, languages: Seq<LanguageStatsView>) -> bool {
    &&& forall|i: int, j: int|
        0 <= i < j < languages.len() ==> text_lt(
            (#[trigger] languages[i]).language,
            (#[trigger] languages[j]).language,
        )
    &&& forall|i: int|
        0 <= i < languages.len() ==> (#[trigger] languages[i]) == language_entry(
            files,
            languages[i].language,
        ) && languages[i].file_count > 0
    &&& forall|k: int|
        0 <= k < files.len() ==> exists|i: int|
            0 <= i < languages.len() && (#[trigger] languages[i]).language == (
            #[trigger] files[k]).language
}

/// The sums over the files of one language are no greater than the sums
/// over all files.
pub proof fn lemma_language_totals_within(files: Seq<FileStatsView>, language: Seq<char>)
    ensures
        language_totals(files, language).within(totals(files)),
    decreases files.len(),
{
    if files.len() > 0 {
        lemma_language_totals_within(files.drop_last(), language);
    }
}

/// The sums over the first `k` files are no greater than the sums over all
/// files.
pub proof fn lemma_totals_prefix(files: Seq<FileStatsView>, k: int)
    requires
        0 <= k <= files.len(),
    ensures
        totals(files.take(k)).within(totals(files)),
    decreases files.len() - k,
{
    if k < files.len() {
        lemma_totals_prefix(files, k + 1);
        assert(files.take(k + 1).drop_last() == files.take(k));
    } else {
        assert(files.take(k) == files);
    }
}

/// The sums over a list of files count the files.
pub proof fn lemma_totals_count(files: Seq<FileStatsView>)
    ensures
        totals(files).files == files.len(),
    decreases files.len(),
{
    if files.len() > 0 {
        lemma_totals_count(files.drop_last());
    }
}

/// There are no sums for a language that no file has.
pub proof fn lemma_language_absent(files: Seq<FileStatsView>, language: Seq<char>)
    requires
        forall|k: int| 0 <= k < files.len() ==> (#[trigger] files[k]).language != language,
    ensures
        language_totals(files, language) == Totals::zero(),
    decreases files.len(),
{
    if files.len() > 0 {
        assert(files.last() == files[files.len() - 1]);
        assert forall|k: int| 0 <= k < files.drop_last().len() implies (
        #[trigger] files.drop_last()[k]).language != language by {
            assert(files.drop_last()[k] == files[k]);
        }
        lemma_language_absent(files.drop_last(), language);
    }
}

/// The strict order of texts is transitive.
pub proof fn lemma_text_lt_transitive(a: Seq<char>, b: Seq<char>, c: Seq<char>)
    requires
        text_lt(a, b),
        text_lt(b, c),
    ensures
        text_lt(a, c),
{
    lemma_text_le_transitive(a, b, c);
    if a == c {
        lemma_text_le_antisymmetric(a, b);
    }
}

/// Whether the line sums over all of `files` can be held in a `usize`.
pub fn totals_fit(files: &Vec<FileStats>) -> (r: bool)
    ensures
        r == totals(file_views(files@)).fits(),
{
    let n: usize = files.len();
    let ghost views = file_views(files@);
    let mut total: usize = 0;
    let mut logical: usize = 0;
    let mut comment: usize = 0;
    let mut empty: usize = 0;
    let mut k: usize = 0;
    proof {
        assert(views.take(0) =~= Seq::empty());
    }
    while k < n
        invariant
            k <= n,
            n == files@.len(),
            views == file_views(files@),
            totals(views.take(k as int)) == (Totals {
                files: k as nat,
                total: total as nat,
                logical: logical as nat,
                comment: comment as nat,
                empty: empty as nat,
            }),
        decreases n - k,
    {
        proof {
            assert(views.take(k + 1).drop_last() == views.take(k as int));
            assert(views.take(k + 1).last() == files@[k as int]@);
            lemma_totals_prefix(views, k + 1);
        }
        let f = &files[k];
        let t = total.checked_add(f.total_lines);
        let l = logical.checked_add(f.logical_lines);
        let c = comment.checked_add(f.comment_lines);
        let e = empty.checked_add(f.empty_lines);
        match (t, l, c, e) {
            (Some(t), Some(l), Some(c), Some(e)) => {
                total = t;
                logical = l;
                comment = c;
                empty = e;
            },
            _ => {
                return false;
            },
        }
        k += 1;
    }
    proof {
        assert(views.take(n as int) == views);
    }
    true
}

/// The global summary of `files`, for a report of `languages` languages
/// and `unsupported` unsupported files.
pub open spec fn summary_of(files: Seq<FileStatsView>, languages: nat, unsupported: nat) -> GlobalSummary {
    let t = totals(files);
    GlobalSummary {
        total_files: t.files as usize,
        total_lines: t.total as usize,
        logical_lines: t.logical as usize,
        comment_lines: t.comment as usize,
        empty_lines: t.empty as usize,
        languages_count: languages as usize,
        unsupported_files: unsupported as usize,
    }
}

/// The sums over `files` with the number of languages; the number of
/// unsupported files is left at zero.
pub fn calculate_summary(files: &Vec<FileStats>, languages: &Vec<LanguageStats>) -> (summary:
    GlobalSummary)
    requires
        totals(file_views(files@)).fits(),
    ensures
        summary == summary_of(file_views(files@), languages@.len(), 0),
        totals(file_views(files@)).files == files@.len(),
{
    let n: usize = files.len();
    let ghost views = file_views(files@);
    let mut total: usize = 0;
    let mut logical: usize = 0;
    let mut comment: usize = 0;
    let mut empty: usize = 0;
    let mut k: usize = 0;
    proof {
        assert(views.take(0) =~= Seq::empty());
    }
    while k < n
        invariant
            k <= n,
            n == files@.len(),
            views == file_views(files@),
            totals(views).fits(),
            totals(views.take(k as int)) == (Totals {
                files: k as nat,
                total: total as nat,
                logical: logical as nat,
                comment: comment as nat,
                empty: empty as nat,
            }),
        decreases n - k,
    {
        proof {
            assert(views.take(k + 1).drop_last() == views.take(k as int));
            assert(views.take(k + 1).last() == files@[k as int]@);
            lemma_totals_prefix(views, k + 1);
        }
        let f = &files[k];
        total += f.total_lines;
        logical += f.logical_lines;
        comment += f.comment_lines;
        empty += f.empty_lines;
        k += 1;
    }
    proof {
        assert(views.take(n as int) == views);
    }
    GlobalSummary {
        total_files: n,
        total_lines: total,
        logical_lines: logical,
        comment_lines: comment,
        empty_lines: empty,
        languages_count: languages.len(),
        unsupported_files: 0,
    }
}

/// The statistics of each language that a file of `files` has, in
/// ascending order of the language names.
pub fn calculate_language_stats(files: &Vec<FileStats>) -> (languages: Vec<LanguageStats>)
    requires
        totals(file_views(files@)).fits(),
    ensures
        is_aggregate(file_views(files@), language_views(languages@)),
{
    let n: usize = files.len();
    let ghost views = file_views(files@);
    let mut languages: Vec<LanguageStats> = Vec::new();
    let mut k: usize = 0;
    proof {
        assert(views.take(0) =~= Seq::empty());
    }
    while k < n
        invariant
            k <= n,
            n == files@.len(),
            views == file_views(files@),
            totals(views).fits(),
            is_aggregate(views.take(k as int), language_views(languages@)),
        decreases n - k,
    {
        let f = &files[k];
        let ghost seen = views.take(k as int);
        let ghost more = views.take(k + 1);
        let ghost before = language_views(languages@);
        let ghost name = f.language@;
        proof {
            assert(more.drop_last() == seen);
            assert(more.last() == f@);
            lemma_totals_prefix(views, k + 1);
            lemma_language_totals_within(more, name);
            lemma_totals_count(more);
        }
        let m: usize = languages.len();
        let mut i: usize = 0;
        while i < m && !str_le(f.language.as_str(), languages[i].language.as_str())
            invariant
                i <= m,
                m == languages@.len(),
                before == language_views(languages@),
                name == f.language@,
                forall|j: int| 0 <= j < i ==> text_lt((#[trigger] before[j]).language, name),
            decreases m - i,
        {
            proof {
                let other = before[i as int].language;
                assert(other == languages@[i as int].language@);
                lemma_text_le_total(name, other);
                lemma_text_le_reflexive(name);
            }
            i += 1;
        }
        let same: bool = i < m && str_le(languages[i].language.as_str(), f.language.as_str());
        if same {
            proof {
                assert(before[i as int].language == languages@[i as int].language@);
                lemma_text_le_antisymmetric(name, before[i as int].language);
            }
            let old = &languages[i];
            let entry = LanguageStats {
                language: old.language.clone(),
                file_count: old.file_count + 1,
                total_lines: old.total_lines + f.total_lines,
                logical_lines: old.logical_lines + f.logical_lines,
                comment_lines: old.comment_lines + f.comment_lines,
                empty_lines: old.empty_lines + f.empty_lines,
            };
            languages.set(i, entry);
            proof {
                let after = language_views(languages@);
                assert(after =~= before.update(i as int, language_entry(more, name)));
                assert forall|j: int| 0 <= j < after.len() implies (#[trigger] after[j])
                    == language_entry(more, after[j].language) && after[j].file_count > 0 by {
                    if j != i {
                        assert(after[j] == before[j]);
                        if j < i {
                            assert(text_lt(before[j].language, before[i as int].language));
                        } else {
                            assert(text_lt(before[i as int].language, before[j].language));
                        }
                    }
                }
                assert forall|a: int, b: int| 0 <= a < b < after.len() implies text_lt(
                    (#[trigger] after[a]).language,
                    (#[trigger] after[b]).language,
                ) by {
                    assert(after[a].language == before[a].language);
                    assert(after[b].language == before[b].language);
                }
                assert forall|q: int| 0 <= q < more.len() implies exists|j: int|
                    0 <= j < after.len() && (#[trigger] after[j]).language == (
                    #[trigger] more[q]).language by {
                    if q < k {
                        assert(more[q] == seen[q]);
                        let j = choose|j: int|
                            0 <= j < before.len() && (#[trigger] before[j]).language
                                == seen[q].language;
                        assert(after[j].language == before[j].language);
                    } else {
                        assert(after[i as int].language == name);
                    }
                }
            }
        } else {
            proof {
                if i < m {
                    assert(before[i as int].language == languages@[i as int].language@);
                }
                assert forall|j: int| i <= j < m implies text_lt(name, (#[trigger] before[j]).language) by {
                    assert(text_lt(name, before[i as int].language));
                    if j > i {
                        lemma_text_lt_transitive(
                            name,
                            before[i as int].language,
                            before[j].language,
                        );
                    }
                }
                assert forall|q: int| 0 <= q < seen.len() implies (#[trigger] seen[q]).language
                    != name by {
                    let j = choose|j: int|
                        0 <= j < before.len() && (#[trigger] before[j]).language
                            == seen[q].language;
                    if j < i {
                        assert(text_lt(before[j].language, name));
                    } else {
                        assert(text_lt(name, before[j].language));
                    }
                }
                lemma_language_absent(seen, name);
            }
            let entry = LanguageStats {
                language: f.language.clone(),
                file_count: 1,
                total_lines: f.total_lines,
                logical_lines: f.logical_lines,
                comment_lines: f.comment_lines,
                empty_lines: f.empty_lines,
            };
            languages.insert(i, entry);
            proof {
                let after = language_views(languages@);
                assert(after =~= before.insert(i as int, language_entry(more, name)));
                assert forall|j: int| 0 <= j < after.len() implies (#[trigger] after[j])
                    == language_entry(more, after[j].language) && after[j].file_count > 0 by {
                    if j < i {
                        assert(after[j] == before[j]);
                        assert(text_lt(before[j].language, name));
                    } else if j > i {
                        assert(after[j] == before[j - 1]);
                        assert(text_lt(name, before[j - 1].language));
                    }
                }
                assert forall|a: int, b: int| 0 <= a < b < after.len() implies text_lt(
                    (#[trigger] after[a]).language,
                    (#[trigger] after[b]).language,
                ) by {
                    if a < i {
                        assert(after[a] == before[a]);
                        if b > i {
                            assert(after[b] == before[b - 1]);
                        }
                    } else if a == i {
                        assert(after[b] == before[b - 1]);
                    } else {
                        assert(after[a] == before[a - 1]);
                        assert(after[b] == before[b - 1]);
                    }
                }
                assert forall|q: int| 0 <= q < more.len() implies exists|j: int|
                    0 <= j < after.len() && (#[trigger] after[j]).language == (
                    #[trigger] more[q]).language by {
                    if q < k {
                        assert(more[q] == seen[q]);
                        let j = choose|j: int|
                            0 <= j < before.len() && (#[trigger] before[j]).language
                                == seen[q].language;
                        if j < i {
                            assert(after[j] == before[j]);
                        } else {
                            assert(after[j + 1] == before[j]);
                        }
                    } else {
                        assert(after[i as int].language == name);
                    }
                }
            }
        }
        k += 1;
    }
    proof {
        assert(views.take(n as int) == views);
    }
    languages
}

/// The language names of a list of language statistics.
pub open spec fn language_names(languages: Seq<LanguageStatsView>) -> Seq<Seq<char>> {
    Seq::new(languages.len(), |i: int| languages[i].language)
}

proof fn lemma_aggregate_names(
    files: Seq<FileStatsView>,
    languages: Seq<LanguageStatsView>,
    name: Seq<char>,
)
    requires
        is_aggregate(files, languages),
    ensures
        language_names(languages).contains(name) <==> exists|k: int|
            0 <= k < files.len() && (#[trigger] files[k]).language == name,
{
    let names = language_names(languages);
    if names.contains(name) {
        let i = choose|i: int| 0 <= i < names.len() && names[i] == name;
        assert(languages[i].language == name);
        if forall|k: int| 0 <= k < files.len() ==> (#[trigger] files[k]).language != name {
            lemma_language_absent(files, name);
        }
    }
    if exists|k: int| 0 <= k < files.len() && (#[trigger] files[k]).language == name {
        let k = choose|k: int| 0 <= k < files.len() && (#[trigger] files[k]).language == name;
        let i = choose|i: int|
            0 <= i < languages.len() && (#[trigger] languages[i]).language == files[k].language;
        assert(names[i] == name);
    }
}

/// The aggregation of a list of files is determined by the files: two
/// lists of language statistics that both are the aggregation are equal.
pub proof fn lemma_aggregate_unique(
    files: Seq<FileStatsView>,
    x: Seq<LanguageStatsView>,
    y: Seq<LanguageStatsView>,
)
    requires
        is_aggregate(files, x),
        is_aggregate(files, y),
    ensures
        x == y,
{
    let xn = language_names(x);
    let yn = language_names(y);
    assert forall|t: Seq<char>| xn.contains(t) <==> yn.contains(t) by {
        lemma_aggregate_names(files, x, t);
        lemma_aggregate_names(files, y, t);
    }
    assert(strictly_ascending(xn)) by {
        assert forall|i: int, j: int| 0 <= i < j < xn.len() implies text_lt(
            #[trigger] xn[i],
            #[trigger] xn[j],
        ) by {
            assert(text_lt(x[i].language, x[j].language));
        }
    }
    assert(strictly_ascending(yn)) by {
        assert forall|i: int, j: int| 0 <= i < j < yn.len() implies text_lt(
            #[trigger] yn[i],
            #[trigger] yn[j],
        ) by {
            assert(text_lt(y[i].language, y[j].language));
        }
    }
    lemma_strictly_ascending_unique(xn, yn);
    assert(xn.len() == x.len());
    assert(yn.len() == y.len());
    assert(x.len() == y.len());
    assert forall|i: int| 0 <= i < x.len() implies x[i] == y[i] by {
        assert(xn[i] == yn[i]);
        assert(x[i] == language_entry(files, x[i].language));
        assert(y[i] == language_entry(files, y[i].language));
    }
    assert(x =~= y);
}

} // verus!
