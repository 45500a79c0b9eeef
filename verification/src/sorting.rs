//! Stable sorting of file and language statistics by a sort metric.

use vstd::prelude::*;
use crate::cli::SortMetric;
use crate::order::{str_le, text_le};
use crate::path::{path_le, paths_in_order};
use crate::stats::{
    file_views, language_views, FileStats, FileStatsView, LanguageStats, LanguageStatsView,
};

verus! {

/// `sorted` with `x` put behind the last item that is at or before `x`.
pub open spec fn insert_by<T>(sorted: Seq<T>, x: T, le: spec_fn(T, T) -> bool) -> Seq<T>
    decreases sorted.len(),
{
    if sorted.len() > 0 && !le(sorted.last(), x) {
        insert_by(sorted.drop_last(), x, le).push(sorted.last())
    } else {
        sorted.push(x)
    }
}

/// `items` in ascending order by `le`; items of which each is at or before
/// the other keep their order.
pub open spec fn sort_by<T>(items: Seq<T>, le: spec_fn(T, T) -> bool) -> Seq<T>
    decreases items.len(),
{
    if items.len() == 0 {
        Seq::empty()
    } else {
        insert_by(sort_by(items.drop_last(), le), items.last(), le)
    }
}

/// Whether each item of `items` is at or before every later one.
pub open spec fn ascending_by<T>(items: Seq<T>, le: spec_fn(T, T) -> bool) -> bool {
    forall|i: int, j: int| 0 <= i < j < items.len() ==> le(#[trigger] items[i], #[trigger] items[j])
}

/// The order of files by a metric: the counts descend, the paths ascend
/// component by component, and the language names ascend by their bytes.
pub open spec fn file_le(metric: SortMetric) -> spec_fn(FileStatsView, FileStatsView) -> bool {
    |a: FileStatsView, b: FileStatsView|
        match metric {
            SortMetric::Total => a.total_lines >= b.total_lines,
            SortMetric::Logical => a.logical_lines >= b.logical_lines,
            SortMetric::Empty => a.empty_lines >= b.empty_lines,
            SortMetric::Name => path_le(a.path, b.path),
            SortMetric::Language => text_le(a.language, b.language),
        }
}

/// The order of languages by a metric: the counts descend, the names
/// ascend. A language has no other name than that of the language.
pub open spec fn language_le(metric: SortMetric) -> spec_fn(
    LanguageStatsView,
    LanguageStatsView,
) -> bool {
    |a: LanguageStatsView, b: LanguageStatsView|
        match metric {
            SortMetric::Total => a.total_lines >= b.total_lines,
            SortMetric::Logical => a.logical_lines >= b.logical_lines,
            SortMetric::Empty => a.empty_lines >= b.empty_lines,
            SortMetric::Name => text_le(a.language, b.language),
            SortMetric::Language => text_le(a.language, b.language),
        }
}

/// Where `x` goes in `sorted`: behind everything at or before it.
pub proof fn lemma_insert_position<T>(sorted: Seq<T>, x: T, le: spec_fn(T, T) -> bool, j: int)
    requires
        0 <= j <= sorted.len(),
        forall|i: int| j <= i < sorted.len() ==> !le(#[trigger] sorted[i], x),
        j > 0 ==> le(sorted[j - 1], x),
    ensures
        insert_by(sorted, x, le) == sorted.take(j).push(x) + sorted.skip(j),
    decreases sorted.len(),
{
    if j < sorted.len() {
        let shorter = sorted.drop_last();
        assert(!le(sorted[sorted.len() - 1], x));
        assert forall|i: int| j <= i < shorter.len() implies !le(#[trigger] shorter[i], x) by {
            assert(shorter[i] == sorted[i]);
        }
        if j > 0 {
            assert(shorter[j - 1] == sorted[j - 1]);
        }
        lemma_insert_position(shorter, x, le, j);
        assert(shorter.take(j) == sorted.take(j));
        assert((shorter.take(j).push(x) + shorter.skip(j)).push(sorted.last()) =~= sorted.take(
            j,
        ).push(x) + sorted.skip(j));
    } else {
        assert(sorted.take(j) == sorted);
        assert(sorted.push(x) + sorted.skip(j) =~= sorted.push(x));
    }
}

/// The items of the list at the given indices.
pub open spec fn pick<T>(items: Seq<T>, order: Seq<usize>) -> Seq<T> {
    Seq::new(order.len(), |i: int| items[order[i] as int])
}

/// Whether file `a` is at or before file `b` by `metric`.
fn file_at_or_before(a: &FileStats, b: &FileStats, metric: SortMetric) -> (r: bool)
    ensures
        r == file_le(metric)(a@, b@),
{
    match metric {
        SortMetric::Total => a.total_lines >= b.total_lines,
        SortMetric::Logical => a.logical_lines >= b.logical_lines,
        SortMetric::Empty => a.empty_lines >= b.empty_lines,
        SortMetric::Name => paths_in_order(a.path.as_str(), b.path.as_str()),
        SortMetric::Language => str_le(a.language.as_str(), b.language.as_str()),
    }
}

/// Whether language `a` is at or before language `b` by `metric`.
fn language_at_or_before(a: &LanguageStats, b: &LanguageStats, metric: SortMetric) -> (r: bool)
    ensures
        r == language_le(metric)(a@, b@),
{
    match metric {
        SortMetric::Total => a.total_lines >= b.total_lines,
        SortMetric::Logical => a.logical_lines >= b.logical_lines,
        SortMetric::Empty => a.empty_lines >= b.empty_lines,
        SortMetric::Name => str_le(a.language.as_str(), b.language.as_str()),
        SortMetric::Language => str_le(a.language.as_str(), b.language.as_str()),
    }
}

/// The indices of `files` in the order of `metric`.
pub fn file_order(files: &Vec<FileStats>, metric: SortMetric) -> (order: Vec<usize>)
    ensures
        order@.len() == files@.len(),
        forall|i: int| 0 <= i < order@.len() ==> (#[trigger] order@[i]) < files@.len(),
        pick(file_views(files@), order@) == sort_by(file_views(files@), file_le(metric)),
{
    let n: usize = files.len();
    let ghost views = file_views(files@);
    let ghost le = file_le(metric);
    let mut order: Vec<usize> = Vec::new();
    let mut k: usize = 0;
    proof {
        assert(views.take(0) =~= Seq::empty());
        assert(pick(views, order@) =~= Seq::empty());
    }
    while k < n
        invariant
            k <= n,
            n == files@.len(),
            views == file_views(files@),
            le == file_le(metric),
            order@.len() == k,
            forall|i: int| 0 <= i < order@.len() ==> (#[trigger] order@[i]) < n,
            pick(views, order@) == sort_by(views.take(k as int), le),
        decreases n - k,
    {
        let ghost sorted = pick(views, order@);
        let ghost x = views[k as int];
        let mut j: usize = k;
        while j > 0 && !file_at_or_before(&files[order[j - 1]], &files[k], metric)
            invariant
                j <= k,
                k < n,
                n == files@.len(),
                views == file_views(files@),
                le == file_le(metric),
                order@.len() == k,
                forall|i: int| 0 <= i < order@.len() ==> (#[trigger] order@[i]) < n,
                sorted == pick(views, order@),
                x == views[k as int],
                forall|i: int| j <= i < k ==> !le(#[trigger] sorted[i], x),
            decreases j,
        {
            proof {
                assert(sorted[j - 1] == files@[order@[j - 1] as int]@);
            }
            j -= 1;
        }
        proof {
            if j > 0 {
                assert(sorted[j - 1] == files@[order@[j - 1] as int]@);
            }
            lemma_insert_position(sorted, x, le, j as int);
            assert(views.take(k + 1).drop_last() == views.take(k as int));
            assert(views.take(k + 1).last() == x);
        }
        order.insert(j, k);
        proof {
            assert(pick(views, order@) =~= sorted.take(j as int).push(x) + sorted.skip(j as int));
        }
        k += 1;
    }
    proof {
        assert(views.take(n as int) == views);
    }
    order
}

/// The indices of `languages` in the order of `metric`.
pub fn language_order(languages: &Vec<LanguageStats>, metric: SortMetric) -> (order: Vec<usize>)
    ensures
        order@.len() == languages@.len(),
        forall|i: int| 0 <= i < order@.len() ==> (#[trigger] order@[i]) < languages@.len(),
        pick(language_views(languages@), order@) == sort_by(
            language_views(languages@),
            language_le(metric),
        ),
{
    let n: usize = languages.len();
    let ghost views = language_views(languages@);
    let ghost le = language_le(metric);
    let mut order: Vec<usize> = Vec::new();
    let mut k: usize = 0;
    proof {
        assert(views.take(0) =~= Seq::empty());
        assert(pick(views, order@) =~= Seq::empty());
    }
    while k < n
        invariant
            k <= n,
            n == languages@.len(),
            views == language_views(languages@),
            le == language_le(metric),
            order@.len() == k,
            forall|i: int| 0 <= i < order@.len() ==> (#[trigger] order@[i]) < n,
            pick(views, order@) == sort_by(views.take(k as int), le),
        decreases n - k,
    {
        let ghost sorted = pick(views, order@);
        let ghost x = views[k as int];
        let mut j: usize = k;
        while j > 0 && !language_at_or_before(&languages[order[j - 1]], &languages[k], metric)
            invariant
                j <= k,
                k < n,
                n == languages@.len(),
                views == language_views(languages@),
                le == language_le(metric),
                order@.len() == k,
                forall|i: int| 0 <= i < order@.len() ==> (#[trigger] order@[i]) < n,
                sorted == pick(views, order@),
                x == views[k as int],
                forall|i: int| j <= i < k ==> !le(#[trigger] sorted[i], x),
            decreases j,
        {
            proof {
                assert(sorted[j - 1] == languages@[order@[j - 1] as int]@);
            }
            j -= 1;
        }
        proof {
            if j > 0 {
                assert(sorted[j - 1] == languages@[order@[j - 1] as int]@);
            }
            lemma_insert_position(sorted, x, le, j as int);
            assert(views.take(k + 1).drop_last() == views.take(k as int));
            assert(views.take(k + 1).last() == x);
        }
        order.insert(j, k);
        proof {
            assert(pick(views, order@) =~= sorted.take(j as int).push(x) + sorted.skip(j as int));
        }
        k += 1;
    }
    proof {
        assert(views.take(n as int) == views);
    }
    order
}

/// A copy of `file`.
pub fn copy_file(file: &FileStats) -> (copy: FileStats)
    ensures
        copy@ == file@,
{
    FileStats {
        path: file.path.clone(),
        language: file.language.clone(),
        total_lines: file.total_lines,
        logical_lines: file.logical_lines,
        comment_lines: file.comment_lines,
        empty_lines: file.empty_lines,
    }
}

/// A copy of `language`.
pub fn copy_language(language: &LanguageStats) -> (copy: LanguageStats)
    ensures
        copy@ == language@,
{
    LanguageStats {
        language: language.language.clone(),
        file_count: language.file_count,
        total_lines: language.total_lines,
        logical_lines: language.logical_lines,
        comment_lines: language.comment_lines,
        empty_lines: language.empty_lines,
    }
}

/// Copies of `files` in the order of `metric`.
pub fn sorted_files(files: &Vec<FileStats>, metric: SortMetric) -> (sorted: Vec<FileStats>)
    ensures
        file_views(sorted@) == sort_by(file_views(files@), file_le(metric)),
{
    let order = file_order(files, metric);
    let n: usize = order.len();
    let ghost target = sort_by(file_views(files@), file_le(metric));
    let mut sorted: Vec<FileStats> = Vec::new();
    let mut i: usize = 0;
    while i < n
        invariant
            i <= n,
            n == order@.len(),
            forall|q: int| 0 <= q < order@.len() ==> (#[trigger] order@[q]) < files@.len(),
            target == pick(file_views(files@), order@),
            sorted@.len() == i,
            forall|q: int| 0 <= q < i ==> (#[trigger] sorted@[q])@ == target[q],
        decreases n - i,
    {
        sorted.push(copy_file(&files[order[i]]));
        i += 1;
    }
    proof {
        assert(file_views(sorted@) =~= target);
    }
    sorted
}

/// Copies of `languages` in the order of `metric`.
pub fn sorted_languages(languages: &Vec<LanguageStats>, metric: SortMetric) -> (sorted: Vec<
    LanguageStats,
>)
    ensures
        language_views(sorted@) == sort_by(language_views(languages@), language_le(metric)),
{
    let order = language_order(languages, metric);
    let n: usize = order.len();
    let ghost target = sort_by(language_views(languages@), language_le(metric));
    let mut sorted: Vec<LanguageStats> = Vec::new();
    let mut i: usize = 0;
    while i < n
        invariant
            i <= n,
            n == order@.len(),
            forall|q: int| 0 <= q < order@.len() ==> (#[trigger] order@[q]) < languages@.len(),
            target == pick(language_views(languages@), order@),
            sorted@.len() == i,
            forall|q: int| 0 <= q < i ==> (#[trigger] sorted@[q])@ == target[q],
        decreases n - i,
    {
        sorted.push(copy_language(&languages[order[i]]));
        i += 1;
    }
    proof {
        assert(language_views(sorted@) =~= target);
    }
    sorted
}

/// Of two items one is at or before the other.
pub open spec fn connected<T>(le: spec_fn(T, T) -> bool) -> bool {
    forall|x: T, y: T| #[trigger] le(x, y) || #[trigger] le(y, x)
}

/// What is at or before an item is at or before everything that the item
/// is at or before.
pub open spec fn chained<T>(le: spec_fn(T, T) -> bool) -> bool {
    forall|x: T, y: T, z: T| #[trigger] le(x, y) && #[trigger] le(y, z) ==> le(x, z)
}

/// The index at which `insert_by` puts `x`.
pub open spec fn insert_point<T>(sorted: Seq<T>, x: T, le: spec_fn(T, T) -> bool) -> int
    decreases sorted.len(),
{
    if sorted.len() > 0 && !le(sorted.last(), x) {
        insert_point(sorted.drop_last(), x, le)
    } else {
        sorted.len() as int
    }
}

proof fn lemma_insert_point<T>(sorted: Seq<T>, x: T, le: spec_fn(T, T) -> bool)
    ensures
        0 <= insert_point(sorted, x, le) <= sorted.len(),
        forall|i: int|
            insert_point(sorted, x, le) <= i < sorted.len() ==> !le(#[trigger] sorted[i], x),
        insert_point(sorted, x, le) > 0 ==> le(sorted[insert_point(sorted, x, le) - 1], x),
        insert_by(sorted, x, le) == sorted.take(insert_point(sorted, x, le)).push(x) + sorted.skip(
            insert_point(sorted, x, le),
        ),
    decreases sorted.len(),
{
    let j = insert_point(sorted, x, le);
    if sorted.len() > 0 && !le(sorted.last(), x) {
        let shorter = sorted.drop_last();
        lemma_insert_point(shorter, x, le);
        assert forall|i: int| j <= i < sorted.len() implies !le(#[trigger] sorted[i], x) by {
            if i < shorter.len() {
                assert(shorter[i] == sorted[i]);
            }
        }
        if j > 0 {
            assert(shorter[j - 1] == sorted[j - 1]);
        }
    }
    lemma_insert_position(sorted, x, le, j);
}

/// An ascending list stays ascending when an item is inserted.
pub proof fn lemma_insert_ascending<T>(sorted: Seq<T>, x: T, le: spec_fn(T, T) -> bool)
    requires
        ascending_by(sorted, le),
        connected(le),
        chained(le),
    ensures
        ascending_by(insert_by(sorted, x, le), le),
{
    let j = insert_point(sorted, x, le);
    lemma_insert_point(sorted, x, le);
    let after = insert_by(sorted, x, le);
    assert forall|p: int, q: int| 0 <= p < q < after.len() implies le(
        #[trigger] after[p],
        #[trigger] after[q],
    ) by {
        if q < j {
            assert(after[p] == sorted[p] && after[q] == sorted[q]);
        } else if q == j {
            assert(after[p] == sorted[p]);
            assert(after[q] == x);
            if p < j - 1 {
                assert(le(sorted[p], sorted[j - 1]));
                assert(le(sorted[j - 1], x));
            }
        } else if p < j {
            assert(after[p] == sorted[p] && after[q] == sorted[q - 1]);
        } else if p == j {
            assert(after[p] == x && after[q] == sorted[q - 1]);
            assert(!le(sorted[q - 1], x));
            assert(le(x, sorted[q - 1]) || le(sorted[q - 1], x));
        } else {
            assert(after[p] == sorted[p - 1] && after[q] == sorted[q - 1]);
        }
    }
}

/// Sorting gives an ascending list.
pub proof fn lemma_sort_ascending<T>(items: Seq<T>, le: spec_fn(T, T) -> bool)
    requires
        connected(le),
        chained(le),
    ensures
        ascending_by(sort_by(items, le), le),
    decreases items.len(),
{
    if items.len() > 0 {
        lemma_sort_ascending(items.drop_last(), le);
        lemma_insert_ascending(sort_by(items.drop_last(), le), items.last(), le);
    }
}

/// Inserting an item adds it to what the list holds, and nothing else.
pub proof fn lemma_insert_holds<T>(sorted: Seq<T>, x: T, le: spec_fn(T, T) -> bool)
    ensures
        insert_by(sorted, x, le).to_multiset() == sorted.to_multiset().insert(x),
    decreases sorted.len(),
{
    broadcast use vstd::multiset::group_multiset_axioms;

    if sorted.len() > 0 && !le(sorted.last(), x) {
        let shorter = sorted.drop_last();
        lemma_insert_holds(shorter, x, le);
        vstd::seq_lib::to_multiset_build(insert_by(shorter, x, le), sorted.last());
        vstd::seq_lib::to_multiset_build(shorter, sorted.last());
        assert(shorter.push(sorted.last()) == sorted);
        assert(shorter.to_multiset().insert(x).insert(sorted.last()) =~= shorter.to_multiset().insert(
            sorted.last(),
        ).insert(x));
    } else {
        vstd::seq_lib::to_multiset_build(sorted, x);
    }
}

/// Sorting keeps what the list holds.
pub proof fn lemma_sort_holds<T>(items: Seq<T>, le: spec_fn(T, T) -> bool)
    ensures
        sort_by(items, le).to_multiset() == items.to_multiset(),
    decreases items.len(),
{
    if items.len() > 0 {
        lemma_sort_holds(items.drop_last(), le);
        lemma_insert_holds(sort_by(items.drop_last(), le), items.last(), le);
        vstd::seq_lib::to_multiset_build(items.drop_last(), items.last());
        assert(items.drop_last().push(items.last()) == items);
    } else {
        assert(sort_by(items, le) == items);
    }
}

/// Two ascending lists that hold the same items are equal, if items of
/// which each is at or before the other are the same item.
pub proof fn lemma_ascending_unique<T>(x: Seq<T>, y: Seq<T>, le: spec_fn(T, T) -> bool)
    requires
        ascending_by(x, le),
        ascending_by(y, le),
        x.to_multiset() == y.to_multiset(),
        forall|i: int, j: int|
            0 <= i < x.len() && 0 <= j < x.len() && le(#[trigger] x[i], #[trigger] x[j]) && le(
                x[j],
                x[i],
            ) ==> x[i] == x[j],
    ensures
        x == y,
    decreases x.len(),
{
    broadcast use vstd::multiset::group_multiset_axioms;

    x.to_multiset_ensures();
    y.to_multiset_ensures();
    if x.len() > 0 {
        let n = x.len() as int;
        assert(y.len() == n);
        let xl = x[n - 1];
        let yl = y[n - 1];
        assert(x.contains(yl)) by {
            assert(y[n - 1] == yl);
            assert(y.contains(yl));
            assert(y.to_multiset().count(yl) > 0);
            assert(x.to_multiset().count(yl) > 0);
        }
        assert(y.contains(xl)) by {
            assert(x[n - 1] == xl);
            assert(x.contains(xl));
            assert(x.to_multiset().count(xl) > 0);
            assert(y.to_multiset().count(xl) > 0);
        }
        let i = choose|i: int| 0 <= i < n && x[i] == yl;
        let j = choose|j: int| 0 <= j < n && y[j] == xl;
        if i < n - 1 && j < n - 1 {
            assert(le(x[i], x[n - 1]));
            assert(le(y[j], y[n - 1]));
        }
        assert(xl == yl);
        let xs = x.drop_last();
        let ys = y.drop_last();
        assert(xs =~= x.remove(n - 1));
        assert(ys =~= y.remove(n - 1));
        assert(xs.to_multiset() == ys.to_multiset());
        assert forall|p: int, q: int|
            0 <= p < xs.len() && 0 <= q < xs.len() && le(#[trigger] xs[p], #[trigger] xs[q]) && le(
                xs[q],
                xs[p],
            ) implies xs[p] == xs[q] by {
            assert(xs[p] == x[p] && xs[q] == x[q]);
        }
        assert(ascending_by(xs, le)) by {
            assert forall|p: int, q: int| 0 <= p < q < xs.len() implies le(
                #[trigger] xs[p],
                #[trigger] xs[q],
            ) by {
                assert(xs[p] == x[p] && xs[q] == x[q]);
            }
        }
        assert(ascending_by(ys, le)) by {
            assert forall|p: int, q: int| 0 <= p < q < ys.len() implies le(
                #[trigger] ys[p],
                #[trigger] ys[q],
            ) by {
                assert(ys[p] == y[p] && ys[q] == y[q]);
            }
        }
        lemma_ascending_unique(xs, ys, le);
        assert(x =~= xs.push(xl));
        assert(y =~= ys.push(yl));
    } else {
        assert(y.len() == 0);
        assert(x =~= y);
    }
}

} // verus!
