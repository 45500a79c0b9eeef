//! The difference between two reports.

use vstd::prelude::*;
use vstd::hash_map::StringHashMap;
use crate::aggregate::lemma_text_lt_transitive;
use crate::language::{strs, texts};
use crate::order::{
    lemma_strictly_ascending_unique, lemma_text_le_antisymmetric, lemma_text_le_reflexive,
    lemma_text_le_total, str_le, strictly_ascending, text_lt,
};
use crate::path::{key_text, path_key};
use crate::report::{Report, Timestamp};
use crate::stats::{
    file_views, language_views, FileStats, FileStatsView, GlobalSummary, LanguageStats,
    LanguageStatsView,
};

verus! {

/// The difference between the summaries of two reports.
#[derive(Debug, Clone, Copy, PartialEq, Eq, Structural)]
pub struct GlobalDelta {
    pub files_delta: i64,
    pub total_lines_delta: i64,
    pub logical_lines_delta: i64,
    pub empty_lines_delta: i64,
    pub languages_delta: i64,
}

/// The mathematical value of a [`LanguageDelta`].
pub struct LanguageDeltaView {
    pub language: Seq<char>,
    pub files_delta: int,
    pub total_lines_delta: int,
    pub logical_lines_delta: int,
    pub empty_lines_delta: int,
}

/// The difference between the statistics of one language in two reports.
#[derive(Debug)]
pub struct LanguageDelta {
    pub language: String,
    pub files_delta: i64,
    pub total_lines_delta: i64,
    pub logical_lines_delta: i64,
    pub empty_lines_delta: i64,
}

impl View for LanguageDelta {
    type V = LanguageDeltaView;

    open spec fn view(&self) -> LanguageDeltaView {
        LanguageDeltaView {
            language: self.language@,
            files_delta: self.files_delta as int,
            total_lines_delta: self.total_lines_delta as int,
            logical_lines_delta: self.logical_lines_delta as int,
            empty_lines_delta: self.empty_lines_delta as int,
        }
    }
}

/// The mathematical value of a [`FileDelta`].
pub struct FileDeltaView {
    pub path: Seq<char>,
    pub total_lines_delta: int,
    pub logical_lines_delta: int,
    pub empty_lines_delta: int,
}

/// The difference between the statistics of one file in two reports.
#[derive(Debug)]
pub struct FileDelta {
    pub path: String,
    pub total_lines_delta: i64,
    pub logical_lines_delta: i64,
    pub empty_lines_delta: i64,
}

impl View for FileDelta {
    type V = FileDeltaView;

    open spec fn view(&self) -> FileDeltaView {
        FileDeltaView {
            path: self.path@,
            total_lines_delta: self.total_lines_delta as int,
            logical_lines_delta: self.logical_lines_delta as int,
            empty_lines_delta: self.empty_lines_delta as int,
        }
    }
}

/// The views of a list of language deltas.
pub open spec fn language_delta_views(deltas: Seq<LanguageDelta>) -> Seq<LanguageDeltaView> {
    Seq::new(deltas.len(), |i: int| deltas[i]@)
}

/// The views of a list of file deltas.
pub open spec fn file_delta_views(deltas: Seq<FileDelta>) -> Seq<FileDeltaView> {
    Seq::new(deltas.len(), |i: int| deltas[i]@)
}

/// The difference between two reports, of the second relative to the first.
#[derive(Debug)]
pub struct ComparisonResult {
    pub report1_generated: Timestamp,
    pub report2_generated: Timestamp,
    pub global_delta: GlobalDelta,
    pub language_deltas: Vec<LanguageDelta>,
    pub new_files: Vec<String>,
    pub removed_files: Vec<String>,
    pub modified_files: Vec<FileDelta>,
}

/// The keys of the paths of a list of files: one key for every path,
/// however it is written.
pub open spec fn paths(files: Seq<FileStatsView>) -> Seq<Seq<char>> {
    Seq::new(files.len(), |i: int| path_key(files[i].path))
}

/// The language names of a list of language statistics.
pub open spec fn names(languages: Seq<LanguageStatsView>) -> Seq<Seq<char>> {
    Seq::new(languages.len(), |i: int| languages[i].language)
}

/// The index of the last occurrence of `key` in `keys`. Where a list holds
/// a key more than once, its last entry holds what counts for the key.
pub open spec fn last_index(keys: Seq<Seq<char>>, key: Seq<char>) -> Option<int>
    decreases keys.len(),
{
    if keys.len() == 0 {
        None
    } else if keys.last() == key {
        Some(keys.len() - 1)
    } else {
        last_index(keys.drop_last(), key)
    }
}

/// The index of the first occurrence of `key` in `keys` at or after `from`.
pub open spec fn first_index(keys: Seq<Seq<char>>, key: Seq<char>, from: int) -> Option<int>
    decreases keys.len() - from,
{
    if from < 0 || from >= keys.len() {
        None
    } else if keys[from] == key {
        Some(from)
    } else {
        first_index(keys, key, from + 1)
    }
}

/// Whether the entry at index `j` is the first of its key. Where a list
/// holds a path more than once, its first entry says how the path is
/// written.
pub open spec fn stands_for_key(keys: Seq<Seq<char>>, j: int) -> bool {
    first_index(keys, keys[j], 0) == Some(j)
}

/// The paths of the first `k` files of `files` that no file of `other`
/// has, each once and as it is first written, in the order of `files`.
pub open spec fn absent_paths(files: Seq<FileStatsView>, other: Seq<FileStatsView>, k: int) -> Seq<
    Seq<char>,
>
    decreases k,
{
    if k <= 0 {
        Seq::empty()
    } else {
        let rest = absent_paths(files, other, k - 1);
        if stands_for_key(paths(files), k - 1) && last_index(
            paths(other),
            paths(files)[k - 1],
        ) is None {
            rest.push(files[k - 1].path)
        } else {
            rest
        }
    }
}

/// Whether a file differs between two reports in one of the counts that the
/// comparison looks at.
pub open spec fn differs(a: FileStatsView, b: FileStatsView) -> bool {
    a.total_lines != b.total_lines || a.logical_lines != b.logical_lines || a.empty_lines
        != b.empty_lines
}

/// The difference `d` of two counts as a signed number of 64 bits: `d`
/// itself where it is in the range of such numbers, else the number of that
/// range that is two to the power of 64 away from it.
pub open spec fn wrapped(d: int) -> int {
    if d > i64::MAX {
        d - 0x1_0000_0000_0000_0000
    } else if d < i64::MIN {
        d + 0x1_0000_0000_0000_0000
    } else {
        d
    }
}

/// The difference of the counts of `b` relative to those of `a`, for the
/// file that is written `path`.
pub open spec fn file_delta(path: Seq<char>, a: FileStatsView, b: FileStatsView) -> FileDeltaView {
    FileDeltaView {
        path,
        total_lines_delta: wrapped(b.total_lines - a.total_lines),
        logical_lines_delta: wrapped(b.logical_lines - a.logical_lines),
        empty_lines_delta: wrapped(b.empty_lines - a.empty_lines),
    }
}

/// The differences of those of the first `k` files of `b` that `a` has
/// too, with other counts, each path once and as `b` first writes it, in
/// the order of `b`. The counts are those of the last entry of the path in
/// each list.
pub open spec fn modified(a: Seq<FileStatsView>, b: Seq<FileStatsView>, k: int) -> Seq<FileDeltaView>
    decreases k,
{
    if k <= 0 {
        Seq::empty()
    } else {
        let rest = modified(a, b, k - 1);
        let key = paths(b)[k - 1];
        match (last_index(paths(a), key), last_index(paths(b), key)) {
            (Some(i), Some(l)) => if stands_for_key(paths(b), k - 1) && differs(a[i], b[l]) {
                rest.push(file_delta(b[k - 1].path, a[i], b[l]))
            } else {
                rest
            },
            _ => rest,
        }
    }
}

/// The statistics of a language in a list, or zeros where the list does
/// not have the language.
pub open spec fn language_counts(languages: Seq<LanguageStatsView>, name: Seq<char>) -> (
    int,
    int,
    int,
    int,
) {
    match last_index(names(languages), name) {
        Some(i) => (
            languages[i].file_count as int,
            languages[i].total_lines as int,
            languages[i].logical_lines as int,
            languages[i].empty_lines as int,
        ),
        None => (0, 0, 0, 0),
    }
}

/// The difference of a language in `b` relative to `a`.
pub open spec fn language_delta(
    a: Seq<LanguageStatsView>,
    b: Seq<LanguageStatsView>,
    name: Seq<char>,
) -> LanguageDeltaView {
    let x = language_counts(a, name);
    let y = language_counts(b, name);
    LanguageDeltaView {
        language: name,
        files_delta: wrapped(y.0 - x.0),
        total_lines_delta: wrapped(y.1 - x.1),
        logical_lines_delta: wrapped(y.2 - x.2),
        empty_lines_delta: wrapped(y.3 - x.3),
    }
}

/// Whether a language delta is reported: its file count or its total lines
/// changed.
pub open spec fn reported(delta: LanguageDeltaView) -> bool {
    delta.files_delta != 0 || delta.total_lines_delta != 0
}

/// `deltas` holds the reported differences of the languages of `b`
/// relative to `a`: one entry for each language whose delta is reported,
/// in strictly ascending order of the language names.
pub open spec fn is_language_deltas(
    a: Seq<LanguageStatsView>,
    b: Seq<LanguageStatsView>,
    deltas: Seq<LanguageDeltaView>,
) -> bool {
    &&& forall|i: int, j: int|
        0 <= i < j < deltas.len() ==> text_lt(
            (#[trigger] deltas[i]).language,
            (#[trigger] deltas[j]).language,
        )
    &&& forall|i: int|
        0 <= i < deltas.len() ==> (#[trigger] deltas[i]) == language_delta(a, b, deltas[i].language)
            && reported(deltas[i])
    &&& forall|name: Seq<char>| #[trigger]
        reported(language_delta(a, b, name)) ==> exists|i: int|
            0 <= i < deltas.len() && (#[trigger] deltas[i]).language == name
}

/// The difference of summary `b` relative to `a`.
pub open spec fn global_delta(a: GlobalSummary, b: GlobalSummary) -> GlobalDelta {
    GlobalDelta {
        files_delta: wrapped(b.total_files - a.total_files) as i64,
        total_lines_delta: wrapped(b.total_lines - a.total_lines) as i64,
        logical_lines_delta: wrapped(b.logical_lines - a.logical_lines) as i64,
        empty_lines_delta: wrapped(b.empty_lines - a.empty_lines) as i64,
        languages_delta: wrapped(b.languages_count - a.languages_count) as i64,
    }
}

/// The last occurrence of a key is an index of the list and holds the key.
pub proof fn lemma_last_index(keys: Seq<Seq<char>>, key: Seq<char>)
    ensures
        match last_index(keys, key) {
            Some(i) => 0 <= i < keys.len() && keys[i] == key && forall|j: int|
                i < j < keys.len() ==> keys[j] != key,
            None => forall|j: int| 0 <= j < keys.len() ==> keys[j] != key,
        },
    decreases keys.len(),
{
    if keys.len() > 0 && keys.last() != key {
        lemma_last_index(keys.drop_last(), key);
        assert forall|j: int| 0 <= j < keys.drop_last().len() implies keys.drop_last()[j]
            == keys[j] by {}
    }
}

/// For each key its last index in `keys`.
fn index_keys(keys: &Vec<&str>) -> (index: StringHashMap<usize>)
    ensures
        forall|key: Seq<char>|
            (#[trigger] index@.contains_key(key)) == (last_index(strs(keys@), key)
                is Some),
        forall|key: Seq<char>| #[trigger]
            index@.contains_key(key) ==> last_index(strs(keys@), key) == Some(
                index@[key] as int,
            ),
{
    let n: usize = keys.len();
    let ghost all = strs(keys@);
    let mut index: StringHashMap<usize> = StringHashMap::new();
    let mut k: usize = 0;
    proof {
        assert(all.take(0) =~= Seq::empty());
    }
    while k < n
        invariant
            k <= n,
            n == keys@.len(),
            all == strs(keys@),
            forall|key: Seq<char>|
                (#[trigger] index@.contains_key(key)) == (last_index(all.take(k as int), key)
                    is Some),
            forall|key: Seq<char>| #[trigger]
                index@.contains_key(key) ==> last_index(all.take(k as int), key) == Some(
                    index@[key] as int,
                ),
        decreases n - k,
    {
        proof {
            assert(all.take(k + 1).drop_last() == all.take(k as int));
            assert(all.take(k + 1).last() == keys@[k as int]@);
        }
        index.insert(keys[k].to_owned(), k);
        k += 1;
    }
    proof {
        assert(all.take(n as int) == all);
    }
    index
}

/// For each key its first index in `keys`.
fn first_indices(keys: &Vec<&str>) -> (index: StringHashMap<usize>)
    ensures
        forall|key: Seq<char>|
            (#[trigger] index@.contains_key(key)) == (first_index(strs(keys@), key, 0) is Some),
        forall|key: Seq<char>| #[trigger]
            index@.contains_key(key) ==> first_index(strs(keys@), key, 0) == Some(
                index@[key] as int,
            ),
{
    let n: usize = keys.len();
    let ghost all = strs(keys@);
    let mut index: StringHashMap<usize> = StringHashMap::new();
    let mut k: usize = n;
    while k > 0
        invariant
            k <= n,
            n == keys@.len(),
            all == strs(keys@),
            forall|key: Seq<char>|
                (#[trigger] index@.contains_key(key)) == (first_index(all, key, k as int)
                    is Some),
            forall|key: Seq<char>| #[trigger]
                index@.contains_key(key) ==> first_index(all, key, k as int) == Some(
                    index@[key] as int,
                ),
        decreases k,
    {
        k -= 1;
        proof {
            assert(all[k as int] == keys@[k as int]@);
        }
        index.insert(keys[k].to_owned(), k);
    }
    index
}

/// The keys of the paths of `files`.
fn file_keys(files: &Vec<FileStats>) -> (keys: Vec<String>)
    ensures
        texts(keys@) == paths(file_views(files@)),
{
    let mut keys: Vec<String> = Vec::new();
    let mut i: usize = 0;
    while i < files.len()
        invariant
            i <= files@.len(),
            keys@.len() == i,
            forall|j: int| 0 <= j < i ==> (#[trigger] keys@[j])@ == path_key(files@[j].path@),
        decreases files@.len() - i,
    {
        keys.push(key_text(files[i].path.as_str()));
        i += 1;
    }
    proof {
        assert(texts(keys@) =~= paths(file_views(files@)));
    }
    keys
}

/// The texts of `keys` as slices.
fn as_strs(keys: &Vec<String>) -> (slices: Vec<&str>)
    ensures
        strs(slices@) == texts(keys@),
{
    let mut slices: Vec<&str> = Vec::new();
    let mut i: usize = 0;
    while i < keys.len()
        invariant
            i <= keys@.len(),
            slices@.len() == i,
            forall|j: int| 0 <= j < i ==> (#[trigger] slices@[j])@ == keys@[j]@,
        decreases keys@.len() - i,
    {
        slices.push(keys[i].as_str());
        i += 1;
    }
    proof {
        assert(strs(slices@) =~= texts(keys@));
    }
    slices
}

/// The language names of `languages`.
fn language_names(languages: &Vec<LanguageStats>) -> (keys: Vec<&str>)
    ensures
        strs(keys@) == names(language_views(languages@)),
{
    let mut keys: Vec<&str> = Vec::new();
    let mut i: usize = 0;
    while i < languages.len()
        invariant
            i <= languages@.len(),
            keys@.len() == i,
            forall|j: int| 0 <= j < i ==> (#[trigger] keys@[j])@ == languages@[j].language@,
        decreases languages@.len() - i,
    {
        keys.push(languages[i].language.as_str());
        i += 1;
    }
    proof {
        assert(strs(keys@) =~= names(language_views(languages@)));
    }
    keys
}

/// The paths of `files` that `other` does not have. `keys` holds the keys
/// of the paths of `files`, `own` the first index of each, and `others` the
/// keys of the paths of `other`.
fn absent(
    files: &Vec<FileStats>,
    keys: &Vec<&str>,
    own: &StringHashMap<usize>,
    others: &StringHashMap<usize>,
    Ghost(other): Ghost<Seq<FileStatsView>>,
) -> (found: Vec<String>)
    requires
        strs(keys@) == paths(file_views(files@)),
        forall|key: Seq<char>|
            (#[trigger] own@.contains_key(key)) == (first_index(strs(keys@), key, 0) is Some),
        forall|key: Seq<char>| #[trigger]
            own@.contains_key(key) ==> first_index(strs(keys@), key, 0) == Some(own@[key] as int),
        forall|key: Seq<char>|
            (#[trigger] others@.contains_key(key)) == (last_index(paths(other), key) is Some),
    ensures
        texts(found@) == absent_paths(file_views(files@), other, files@.len() as int),
{
    let n: usize = files.len();
    let ghost views = file_views(files@);
    let mut found: Vec<String> = Vec::new();
    let mut j: usize = 0;
    proof {
        assert(texts(found@) =~= Seq::empty());
        assert(keys@.len() == strs(keys@).len());
    }
    while j < n
        invariant
            j <= n,
            n == files@.len(),
            n == keys@.len(),
            views == file_views(files@),
            strs(keys@) == paths(views),
            forall|key: Seq<char>|
                (#[trigger] own@.contains_key(key)) == (first_index(paths(views), key, 0)
                    is Some),
            forall|key: Seq<char>| #[trigger]
                own@.contains_key(key) ==> first_index(paths(views), key, 0) == Some(
                    own@[key] as int,
                ),
            forall|key: Seq<char>|
                (#[trigger] others@.contains_key(key)) == (last_index(paths(other), key) is Some),
            texts(found@) == absent_paths(views, other, j as int),
        decreases n - j,
    {
        let key: &str = keys[j];
        let ghost before = texts(found@);
        proof {
            assert(strs(keys@)[j as int] == key@);
            assert(paths(views)[j as int] == key@);
        }
        let first: bool = match own.get(key) {
            Some(i) => *i == j,
            None => false,
        };
        if first && !others.contains_key(key) {
            found.push(files[j].path.clone());
            proof {
                assert(views[j as int].path == files@[j as int].path@);
                assert(texts(found@) =~= before.push(views[j as int].path));
            }
        }
        j += 1;
    }
    found
}

/// The difference of `b` relative to `a` as a signed number of 64 bits.
fn difference(b: usize, a: usize) -> (r: i64)
    ensures
        r == wrapped(b - a),
{
    if b >= a {
        let d: u64 = (b - a) as u64;
        if d <= 0x7fff_ffff_ffff_ffffu64 {
            d as i64
        } else {
            let rest: u64 = 0xffff_ffff_ffff_ffffu64 - d;
            -1i64 - (rest as i64)
        }
    } else {
        let d: u64 = (a - b) as u64;
        if d <= 0x7fff_ffff_ffff_ffffu64 {
            0i64 - (d as i64)
        } else if d == 0x8000_0000_0000_0000u64 {
            i64::MIN
        } else {
            let rest: u64 = 0xffff_ffff_ffff_ffffu64 - d;
            (rest as i64) + 1
        }
    }
}

/// The differences of the files that both lists have, with other counts.
/// `keys` holds the keys of the paths of `second`, `first_last` the last
/// index of each key of `first`, and `second_first` and `second_last` the
/// first and the last index of each key of `second`.
fn changed(
    first: &Vec<FileStats>,
    second: &Vec<FileStats>,
    keys: &Vec<&str>,
    first_last: &StringHashMap<usize>,
    second_first: &StringHashMap<usize>,
    second_last: &StringHashMap<usize>,
) -> (found: Vec<FileDelta>)
    requires
        strs(keys@) == paths(file_views(second@)),
        forall|key: Seq<char>|
            (#[trigger] first_last@.contains_key(key)) == (last_index(
                paths(file_views(first@)),
                key,
            ) is Some),
        forall|key: Seq<char>| #[trigger]
            first_last@.contains_key(key) ==> last_index(paths(file_views(first@)), key) == Some(
                first_last@[key] as int,
            ),
        forall|key: Seq<char>|
            (#[trigger] second_first@.contains_key(key)) == (first_index(strs(keys@), key, 0)
                is Some),
        forall|key: Seq<char>| #[trigger]
            second_first@.contains_key(key) ==> first_index(strs(keys@), key, 0) == Some(
                second_first@[key] as int,
            ),
        forall|key: Seq<char>|
            (#[trigger] second_last@.contains_key(key)) == (last_index(strs(keys@), key) is Some),
        forall|key: Seq<char>| #[trigger]
            second_last@.contains_key(key) ==> last_index(strs(keys@), key) == Some(
                second_last@[key] as int,
            ),
    ensures
        file_delta_views(found@) == modified(
            file_views(first@),
            file_views(second@),
            second@.len() as int,
        ),
{
    let n: usize = second.len();
    let ghost a = file_views(first@);
    let ghost b = file_views(second@);
    let mut found: Vec<FileDelta> = Vec::new();
    let mut j: usize = 0;
    proof {
        assert(file_delta_views(found@) =~= Seq::empty());
        assert(keys@.len() == strs(keys@).len());
    }
    while j < n
        invariant
            j <= n,
            n == second@.len(),
            n == keys@.len(),
            a == file_views(first@),
            b == file_views(second@),
            strs(keys@) == paths(b),
            forall|key: Seq<char>|
                (#[trigger] first_last@.contains_key(key)) == (last_index(paths(a), key) is Some),
            forall|key: Seq<char>| #[trigger]
                first_last@.contains_key(key) ==> last_index(paths(a), key) == Some(
                    first_last@[key] as int,
                ),
            forall|key: Seq<char>|
                (#[trigger] second_first@.contains_key(key)) == (first_index(paths(b), key, 0)
                    is Some),
            forall|key: Seq<char>| #[trigger]
                second_first@.contains_key(key) ==> first_index(paths(b), key, 0) == Some(
                    second_first@[key] as int,
                ),
            forall|key: Seq<char>|
                (#[trigger] second_last@.contains_key(key)) == (last_index(paths(b), key)
                    is Some),
            forall|key: Seq<char>| #[trigger]
                second_last@.contains_key(key) ==> last_index(paths(b), key) == Some(
                    second_last@[key] as int,
                ),
            file_delta_views(found@) == modified(a, b, j as int),
        decreases n - j,
    {
        let key: &str = keys[j];
        let ghost before = file_delta_views(found@);
        proof {
            assert(strs(keys@)[j as int] == key@);
            assert(paths(b)[j as int] == key@);
            lemma_last_index(paths(a), key@);
            lemma_last_index(paths(b), key@);
        }
        let is_first: bool = match second_first.get(key) {
            Some(i) => *i == j,
            None => false,
        };
        if let Some(i) = first_last.get(key) {
            if let Some(l) = second_last.get(key) {
                let old = &first[*i];
                let new = &second[*l];
                proof {
                    assert(a[*i as int] == old@);
                    assert(b[*l as int] == new@);
                }
                if is_first && (old.total_lines != new.total_lines || old.logical_lines
                    != new.logical_lines || old.empty_lines != new.empty_lines) {
                    let delta = FileDelta {
                        path: second[j].path.clone(),
                        total_lines_delta: difference(new.total_lines, old.total_lines),
                        logical_lines_delta: difference(new.logical_lines, old.logical_lines),
                        empty_lines_delta: difference(new.empty_lines, old.empty_lines),
                    };
                    found.push(delta);
                    proof {
                        assert(b[j as int].path == second@[j as int].path@);
                        assert(file_delta_views(found@) =~= before.push(
                            file_delta(b[j as int].path, old@, new@),
                        ));
                    }
                }
            }
        }
        j += 1;
    }
    found
}

/// The counts of the language `name` in `languages`, or zeros.
fn counts_of(languages: &Vec<LanguageStats>, index: &StringHashMap<usize>, name: &str) -> (counts: (
    usize,
    usize,
    usize,
    usize,
))
    requires
        forall|key: Seq<char>|
            (#[trigger] index@.contains_key(key)) == (last_index(
                names(language_views(languages@)),
                key,
            ) is Some),
        forall|key: Seq<char>| #[trigger]
            index@.contains_key(key) ==> last_index(names(language_views(languages@)), key)
                == Some(index@[key] as int),
    ensures
        (counts.0 as int, counts.1 as int, counts.2 as int, counts.3 as int) == language_counts(
            language_views(languages@),
            name@,
        ),
{
    proof {
        lemma_last_index(names(language_views(languages@)), name@);
    }
    match index.get(name) {
        Some(i) => {
            let l = &languages[*i];
            proof {
                assert(language_views(languages@)[*i as int] == l@);
            }
            (
                l.file_count,
                l.total_lines,
                l.logical_lines,
                l.empty_lines,
            )
        },
        None => (0, 0, 0, 0),
    }
}

/// Puts the delta of each of `keys` that is reported into `deltas`, at its
/// place in the order of the names, unless an entry of that name is there.
fn collect_deltas(
    deltas: &mut Vec<LanguageDelta>,
    keys: &Vec<&str>,
    first: &Vec<LanguageStats>,
    second: &Vec<LanguageStats>,
    first_index: &StringHashMap<usize>,
    second_index: &StringHashMap<usize>,
    Ghost(seen): Ghost<Set<Seq<char>>>,
)
    requires
        forall|key: Seq<char>|
            (#[trigger] first_index@.contains_key(key)) == (last_index(
                names(language_views(first@)),
                key,
            ) is Some),
        forall|key: Seq<char>| #[trigger]
            first_index@.contains_key(key) ==> last_index(names(language_views(first@)), key)
                == Some(first_index@[key] as int),
        forall|key: Seq<char>|
            (#[trigger] second_index@.contains_key(key)) == (last_index(
                names(language_views(second@)),
                key,
            ) is Some),
        forall|key: Seq<char>| #[trigger]
            second_index@.contains_key(key) ==> last_index(names(language_views(second@)), key)
                == Some(second_index@[key] as int),
        collected(
            language_views(first@),
            language_views(second@),
            language_delta_views(old(deltas)@),
            seen,
        ),
    ensures
        collected(
            language_views(first@),
            language_views(second@),
            language_delta_views(final(deltas)@),
            seen.union(strs(keys@).to_set()),
        ),
{
    let n: usize = keys.len();
    let ghost a = language_views(first@);
    let ghost b = language_views(second@);
    let ghost all = strs(keys@);
    let mut k: usize = 0;
    proof {
        assert(seen.union(all.take(0).to_set()) =~= seen);
    }
    while k < n
        invariant
            k <= n,
            n == keys@.len(),
            a == language_views(first@),
            b == language_views(second@),
            all == strs(keys@),
            forall|key: Seq<char>|
                (#[trigger] first_index@.contains_key(key)) == (last_index(names(a), key) is Some),
            forall|key: Seq<char>| #[trigger]
                first_index@.contains_key(key) ==> last_index(names(a), key) == Some(
                    first_index@[key] as int,
                ),
            forall|key: Seq<char>|
                (#[trigger] second_index@.contains_key(key)) == (last_index(names(b), key)
                    is Some),
            forall|key: Seq<char>| #[trigger]
                second_index@.contains_key(key) ==> last_index(names(b), key) == Some(
                    second_index@[key] as int,
                ),
            collected(a, b, language_delta_views(deltas@), seen.union(all.take(k as int).to_set())),
        decreases n - k,
    {
        let name: &str = keys[k];
        let ghost before = language_delta_views(deltas@);
        let ghost done = seen.union(all.take(k as int).to_set());
        let ghost more = seen.union(all.take(k + 1).to_set());
        proof {
            assert(all[k as int] == name@);
            assert(all.take(k + 1) =~= all.take(k as int).push(name@));
            assert(more =~= done.insert(name@)) by {
                assert forall|x: Seq<char>| more.contains(x) == done.insert(name@).contains(x) by {
                    if all.take(k + 1).contains(x) {
                        let q = choose|q: int| 0 <= q < k + 1 && #[trigger] all.take(k + 1)[q] == x;
                        if q < k {
                            assert(all.take(k as int)[q] == x);
                        }
                    }
                    if all.take(k as int).contains(x) {
                        let q = choose|q: int| 0 <= q < k && #[trigger] all.take(k as int)[q] == x;
                        assert(all.take(k + 1)[q] == x);
                    }
                    if x == name@ {
                        assert(all.take(k + 1)[k as int] == x);
                    }
                }
            }
        }
        let x = counts_of(first, first_index, name);
        let y = counts_of(second, second_index, name);
        let files_delta: i64 = difference(y.0, x.0);
        let total_lines_delta: i64 = difference(y.1, x.1);
        if files_delta != 0 || total_lines_delta != 0 {
            let m: usize = deltas.len();
            let mut i: usize = 0;
            while i < m && !str_le(name, deltas[i].language.as_str())
                invariant
                    i <= m,
                    m == deltas@.len(),
                    before == language_delta_views(deltas@),
                    forall|j: int| 0 <= j < i ==> text_lt((#[trigger] before[j]).language, name@),
                decreases m - i,
            {
                proof {
                    let other = before[i as int].language;
                    assert(other == deltas@[i as int].language@);
                    lemma_text_le_total(name@, other);
                    lemma_text_le_reflexive(name@);
                }
                i += 1;
            }
            let present: bool = i < m && str_le(deltas[i].language.as_str(), name);
            if present {
                proof {
                    assert(before[i as int].language == deltas@[i as int].language@);
                    lemma_text_le_antisymmetric(name@, before[i as int].language);
                }
            } else {
                proof {
                    if i < m {
                        assert(before[i as int].language == deltas@[i as int].language@);
                    }
                    assert forall|j: int| i <= j < m implies text_lt(
                        name@,
                        (#[trigger] before[j]).language,
                    ) by {
                        assert(text_lt(name@, before[i as int].language));
                        if j > i {
                            lemma_text_lt_transitive(
                                name@,
                                before[i as int].language,
                                before[j].language,
                            );
                        }
                    }
                }
                let delta = LanguageDelta {
                    language: name.to_owned(),
                    files_delta,
                    total_lines_delta,
                    logical_lines_delta: difference(y.2, x.2),
                    empty_lines_delta: difference(y.3, x.3),
                };
                deltas.insert(i, delta);
                proof {
                    let after = language_delta_views(deltas@);
                    let entry = language_delta(a, b, name@);
                    assert(after =~= before.insert(i as int, entry));
                    assert forall|p: int, q: int| 0 <= p < q < after.len() implies text_lt(
                        (#[trigger] after[p]).language,
                        (#[trigger] after[q]).language,
                    ) by {
                        if p < i {
                            assert(after[p] == before[p]);
                            if q > i {
                                assert(after[q] == before[q - 1]);
                            }
                        } else if p == i {
                            assert(after[q] == before[q - 1]);
                        } else {
                            assert(after[p] == before[p - 1]);
                            assert(after[q] == before[q - 1]);
                        }
                    }
                    assert forall|p: int| 0 <= p < after.len() implies (#[trigger] after[p])
                        == language_delta(a, b, after[p].language) && reported(after[p]) by {
                        if p < i {
                            assert(after[p] == before[p]);
                        } else if p > i {
                            assert(after[p] == before[p - 1]);
                        }
                    }
                    assert forall|key: Seq<char>|
                        more.contains(key) && #[trigger] reported(
                            language_delta(a, b, key),
                        ) implies exists|p: int|
                        0 <= p < after.len() && (#[trigger] after[p]).language == key by {
                        if key == name@ {
                            assert(after[i as int].language == key);
                        } else {
                            assert(done.contains(key));
                            let p = choose|p: int|
                                0 <= p < before.len() && (#[trigger] before[p]).language == key;
                            if p < i {
                                assert(after[p] == before[p]);
                            } else {
                                assert(after[p + 1] == before[p]);
                            }
                        }
                    }
                }
            }
        }
        k += 1;
    }
    proof {
        assert(all.take(n as int) == all);
    }
}

/// `deltas` holds the reported deltas of the languages in `seen`, in
/// strictly ascending order of the names.
pub open spec fn collected(
    a: Seq<LanguageStatsView>,
    b: Seq<LanguageStatsView>,
    deltas: Seq<LanguageDeltaView>,
    seen: Set<Seq<char>>,
) -> bool {
    &&& forall|i: int, j: int|
        0 <= i < j < deltas.len() ==> text_lt(
            (#[trigger] deltas[i]).language,
            (#[trigger] deltas[j]).language,
        )
    &&& forall|i: int|
        0 <= i < deltas.len() ==> (#[trigger] deltas[i]) == language_delta(a, b, deltas[i].language)
            && reported(deltas[i])
    &&& forall|name: Seq<char>|
        seen.contains(name) && #[trigger] reported(language_delta(a, b, name)) ==> exists|i: int|
            0 <= i < deltas.len() && (#[trigger] deltas[i]).language == name
}

impl ComparisonResult {
    /// The difference of `report2` relative to `report1`.
    ///
    /// Files are told apart as paths: two texts with the same components
    /// are the same file. Where a report lists a path more than once, its
    /// first entry says how the path is written and its last entry holds
    /// its counts; of a language that is listed more than once the last
    /// entry counts. A file of `report2` that `report1` does not have is
    /// new, one of `report1` that `report2` does not have is removed, and
    /// one that both have with other counts is modified. Every difference
    /// is a signed number of 64 bits: the second count less the first
    /// wherever that is in range, and else the number in range that is two
    /// to the power of 64 away from it. A report compared with itself shows
    /// no difference.
    pub fn compare(report1: &Report, report2: &Report) -> (result: Self)
        ensures
            result.report1_generated == report1.generated_at,
            result.report2_generated == report2.generated_at,
            result.global_delta == global_delta(report1.summary, report2.summary),
            texts(result.new_files@) == absent_paths(
                file_views(report2.files@),
                file_views(report1.files@),
                report2.files@.len() as int,
            ),
            texts(result.removed_files@) == absent_paths(
                file_views(report1.files@),
                file_views(report2.files@),
                report1.files@.len() as int,
            ),
            file_delta_views(result.modified_files@) == modified(
                file_views(report1.files@),
                file_views(report2.files@),
                report2.files@.len() as int,
            ),
            is_language_deltas(
                language_views(report1.languages@),
                language_views(report2.languages@),
                language_delta_views(result.language_deltas@),
            ),
            *report1 == *report2 ==> {
                &&& result.new_files@.len() == 0
                &&& result.removed_files@.len() == 0
                &&& result.modified_files@.len() == 0
                &&& result.language_deltas@.len() == 0
                &&& result.global_delta == GlobalDelta {
                    files_delta: 0,
                    total_lines_delta: 0,
                    logical_lines_delta: 0,
                    empty_lines_delta: 0,
                    languages_delta: 0,
                }
                &&& result.report1_generated == result.report2_generated
            },
    {
        let keys1 = file_keys(&report1.files);
        let keys2 = file_keys(&report2.files);
        let paths1 = as_strs(&keys1);
        let paths2 = as_strs(&keys2);
        let last1 = index_keys(&paths1);
        let last2 = index_keys(&paths2);
        let first1 = first_indices(&paths1);
        let first2 = first_indices(&paths2);
        let new_files = absent(
            &report2.files,
            &paths2,
            &first2,
            &last1,
            Ghost(file_views(report1.files@)),
        );
        let removed_files = absent(
            &report1.files,
            &paths1,
            &first1,
            &last2,
            Ghost(file_views(report2.files@)),
        );
        let modified_files = changed(
            &report1.files,
            &report2.files,
            &paths2,
            &last1,
            &first2,
            &last2,
        );
        let a = &report1.summary;
        let b = &report2.summary;
        let global_delta = GlobalDelta {
            files_delta: difference(b.total_files, a.total_files),
            total_lines_delta: difference(b.total_lines, a.total_lines),
            logical_lines_delta: difference(b.logical_lines, a.logical_lines),
            empty_lines_delta: difference(b.empty_lines, a.empty_lines),
            languages_delta: difference(b.languages_count, a.languages_count),
        };
        let names1 = language_names(&report1.languages);
        let names2 = language_names(&report2.languages);
        let languages1 = index_keys(&names1);
        let languages2 = index_keys(&names2);
        let mut language_deltas: Vec<LanguageDelta> = Vec::new();
        let ghost la = language_views(report1.languages@);
        let ghost lb = language_views(report2.languages@);
        proof {
            assert(language_delta_views(language_deltas@) =~= Seq::empty());
        }
        collect_deltas(
            &mut language_deltas,
            &names1,
            &report1.languages,
            &report2.languages,
            &languages1,
            &languages2,
            Ghost(Set::empty()),
        );
        collect_deltas(
            &mut language_deltas,
            &names2,
            &report1.languages,
            &report2.languages,
            &languages1,
            &languages2,
            Ghost(Set::<Seq<char>>::empty().union(names(la).to_set())),
        );
        proof {
            let deltas = language_delta_views(language_deltas@);
            let seen = Set::<Seq<char>>::empty().union(names(la).to_set()).union(
                names(lb).to_set(),
            );
            assert forall|name: Seq<char>| #[trigger]
                reported(language_delta(la, lb, name)) implies exists|i: int|
                0 <= i < deltas.len() && (#[trigger] deltas[i]).language == name by {
                lemma_last_index(names(la), name);
                lemma_last_index(names(lb), name);
                if let Some(i) = last_index(names(la), name) {
                    assert(names(la)[i] == name);
                    assert(names(la).contains(name));
                } else {
                    let i = last_index(names(lb), name)->0;
                    assert(names(lb)[i] == name);
                    assert(names(lb).contains(name));
                }
                assert(seen.contains(name));
            }
        }
        proof {
            if *report1 == *report2 {
                let files = file_views(report1.files@);
                lemma_compare_with_itself(files, la, report1.summary);
                lemma_language_deltas_unique(
                    la,
                    la,
                    language_delta_views(language_deltas@),
                    Seq::empty(),
                );
                assert(texts(new_files@).len() == 0);
                assert(texts(removed_files@).len() == 0);
                assert(file_delta_views(modified_files@).len() == 0);
                assert(language_delta_views(language_deltas@).len() == 0);
            }
        }
        ComparisonResult {
            report1_generated: report1.generated_at,
            report2_generated: report2.generated_at,
            global_delta,
            language_deltas,
            new_files,
            removed_files,
            modified_files,
        }
    }
}

proof fn lemma_nothing_absent(files: Seq<FileStatsView>, k: int)
    requires
        k <= files.len(),
    ensures
        absent_paths(files, files, k) == Seq::<Seq<char>>::empty(),
    decreases k,
{
    if k > 0 {
        lemma_nothing_absent(files, k - 1);
        lemma_last_index(paths(files), paths(files)[k - 1]);
    }
}

proof fn lemma_nothing_modified(files: Seq<FileStatsView>, k: int)
    requires
        k <= files.len(),
    ensures
        modified(files, files, k) == Seq::<FileDeltaView>::empty(),
    decreases k,
{
    if k > 0 {
        lemma_nothing_modified(files, k - 1);
    }
}

/// A report compared with itself shows no difference: no file is new,
/// removed or modified, the global delta is zero in every field, and no
/// language delta is reported.
pub proof fn lemma_compare_with_itself(
    files: Seq<FileStatsView>,
    languages: Seq<LanguageStatsView>,
    summary: GlobalSummary,
)
    ensures
        absent_paths(files, files, files.len() as int) == Seq::<Seq<char>>::empty(),
        modified(files, files, files.len() as int) == Seq::<FileDeltaView>::empty(),
        global_delta(summary, summary) == (GlobalDelta {
            files_delta: 0,
            total_lines_delta: 0,
            logical_lines_delta: 0,
            empty_lines_delta: 0,
            languages_delta: 0,
        }),
        is_language_deltas(languages, languages, Seq::empty()),
{
    lemma_nothing_absent(files, files.len() as int);
    lemma_nothing_modified(files, files.len() as int);
}

/// The language deltas of two reports are determined by the reports: two
/// lists that both hold the reported deltas are equal.
pub proof fn lemma_language_deltas_unique(
    a: Seq<LanguageStatsView>,
    b: Seq<LanguageStatsView>,
    x: Seq<LanguageDeltaView>,
    y: Seq<LanguageDeltaView>,
)
    requires
        is_language_deltas(a, b, x),
        is_language_deltas(a, b, y),
    ensures
        x == y,
{
    let xn = Seq::new(x.len(), |i: int| x[i].language);
    let yn = Seq::new(y.len(), |i: int| y[i].language);
    assert forall|t: Seq<char>| xn.contains(t) <==> yn.contains(t) by {
        if xn.contains(t) {
            let i = choose|i: int| 0 <= i < xn.len() && xn[i] == t;
            assert(x[i] == language_delta(a, b, x[i].language));
            assert(reported(language_delta(a, b, t)));
            let j = choose|j: int| 0 <= j < y.len() && (#[trigger] y[j]).language == t;
            assert(yn[j] == t);
        }
        if yn.contains(t) {
            let j = choose|j: int| 0 <= j < yn.len() && yn[j] == t;
            assert(y[j] == language_delta(a, b, y[j].language));
            assert(reported(language_delta(a, b, t)));
            let i = choose|i: int| 0 <= i < x.len() && (#[trigger] x[i]).language == t;
            assert(xn[i] == t);
        }
    }
    assert(strictly_ascending(xn)) by {
        assert forall|i: int, j: int| 0 <= i < j < xn.len() implies text_lt(
            #[trigger] xn[i],
            #[trigger] xn[j],
        ) by {
            assert(text_lt(x[i].language, x[j].language));
        }
    }
    assert(strictly_ascending(yn)) by {
        assert forall|i: int, j: int| 0 <= i < j < yn.len() implies text_lt(
            #[trigger] yn[i],
            #[trigger] yn[j],
        ) by {
            assert(text_lt(y[i].language, y[j].language));
        }
    }
    lemma_strictly_ascending_unique(xn, yn);
    assert(xn.len() == x.len());
    assert(yn.len() == y.len());
    assert(x.len() == y.len());
    assert forall|i: int| 0 <= i < x.len() implies x[i] == y[i] by {
        assert(xn[i] == yn[i]);
        assert(x[i] == language_delta(a, b, x[i].language));
        assert(y[i] == language_delta(a, b, y[i].language));
    }
    assert(x =~= y);
}

} // verus!
