//! The content checksum of a list of file statistics: a SHA-256 digest over
//! the files in the order of their paths, component by component, so that it
//! does not depend on the order in which the files were scanned.

use vstd::prelude::*;
use vstd::utf8::encode_utf8;
use sha2::Digest;
use crate::cli::SortMetric;
use crate::path::{
    lemma_path_le_antisymmetric, lemma_path_le_total, lemma_path_le_transitive, path_le, same_path,
};
use crate::sorting::{
    chained, connected, file_le, file_order, lemma_ascending_unique, lemma_sort_ascending,
    lemma_sort_holds, pick, sort_by,
};
use crate::stats::{file_views, FileStats, FileStatsView};

verus! {

/// The decimal digits of `n` in ASCII.
pub open spec fn decimal(n: nat) -> Seq<u8>
    decreases n,
{
    if n < 10 {
        seq![(48 + n) as u8]
    } else {
        decimal(n / 10).push((48 + n % 10) as u8)
    }
}

/// What one file gives to the digest: its path, its language and its four
/// counts as decimal text, with nothing between them.
pub open spec fn file_bytes(f: FileStatsView) -> Seq<u8> {
    encode_utf8(f.path) + encode_utf8(f.language) + decimal(f.total_lines) + decimal(
        f.logical_lines,
    ) + decimal(f.comment_lines) + decimal(f.empty_lines)
}

/// What a list of files gives to the digest, in the order of the list.
pub open spec fn files_bytes(files: Seq<FileStatsView>) -> Seq<u8>
    decreases files.len(),
{
    if files.len() == 0 {
        Seq::empty()
    } else {
        files_bytes(files.drop_last()) + file_bytes(files.last())
    }
}

/// `files` in ascending order of their paths, component by component; files
/// that are the same path keep their order.
pub open spec fn sort_by_path(files: Seq<FileStatsView>) -> Seq<FileStatsView> {
    sort_by(files, file_le(SortMetric::Name))
}

/// Whether the paths of `files` ascend.
pub open spec fn ascending(files: Seq<FileStatsView>) -> bool {
    forall|i: int, j: int|
        0 <= i < j < files.len() ==> path_le((#[trigger] files[i]).path, (#[trigger] files[j]).path)
}

/// The bytes that the digest of `files` is taken of.
pub open spec fn checksum_input(files: Seq<FileStatsView>) -> Seq<u8> {
    files_bytes(sort_by_path(files))
}

/// The hexadecimal digits.
pub open spec fn hex_digits() -> Seq<char> {
    "0123456789abcdef"@
}

/// `data` in lower-case hexadecimal, two digits for each byte.
pub open spec fn hex_lower(data: Seq<u8>) -> Seq<char>
    decreases data.len(),
{
    if data.len() == 0 {
        Seq::empty()
    } else {
        hex_lower(data.drop_last()).push(hex_digits()[data.last() as int / 16]).push(
            hex_digits()[data.last() as int % 16],
        )
    }
}

/// Whether every character of `text` is a hexadecimal digit in lower case.
pub open spec fn is_hex_text(text: Seq<char>) -> bool {
    forall|i: int| 0 <= i < text.len() ==> hex_digits().contains(#[trigger] text[i])
}

/// The hexadecimal text of `data` holds two digits for each byte.
pub proof fn lemma_hex_lower(data: Seq<u8>)
    ensures
        hex_lower(data).len() == 2 * data.len(),
        is_hex_text(hex_lower(data)),
    decreases data.len(),
{
    reveal_strlit("0123456789abcdef");
    if data.len() > 0 {
        lemma_hex_lower(data.drop_last());
        let before = hex_lower(data.drop_last());
        let high = data.last() as int / 16;
        let low = data.last() as int % 16;
        let text = hex_lower(data);
        assert(0 <= high < 16 && 0 <= low < 16);
        assert forall|i: int| 0 <= i < text.len() implies hex_digits().contains(
            #[trigger] text[i],
        ) by {
            if i < before.len() {
                assert(text[i] == before[i]);
            } else if i == before.len() {
                assert(text[i] == hex_digits()[high]);
            } else {
                assert(text[i] == hex_digits()[low]);
            }
        }
    }
}

/// The SHA-256 digest of `data`.
pub uninterp spec fn sha256_digest(data: Seq<u8>) -> Seq<u8>;

/// The checksum of `files`: the SHA-256 digest of their checksum input in
/// lower-case hexadecimal.
pub open spec fn checksum_of(files: Seq<FileStatsView>) -> Seq<char> {
    hex_lower(sha256_digest(checksum_input(files)))
}

/// The SHA-256 digest of `data`, computed by `sha2::Sha256::digest`. The
/// contract names the digest and claims its length of 32 bytes.
#[verifier::external_body]
fn sha256(data: &[u8]) -> (digest: Vec<u8>)
    ensures
        digest@ == sha256_digest(data@),
        digest@.len() == 32,
{
    sha2::Sha256::digest(data).to_vec()
}

/// `data` in lower-case hexadecimal, by `hex::encode`: two digits for each
/// byte, the high half first.
#[verifier::external_body]
pub(crate) fn hex_encode(data: &[u8]) -> (text: String)
    ensures
        text@ == hex_lower(data@),
{
    hex::encode(data)
}

/// Appends the decimal digits of `n` to `out`.
fn push_decimal(out: &mut Vec<u8>, n: usize)
    ensures
        final(out)@ == old(out)@ + decimal(n as nat),
    decreases n,
{
    if n >= 10 {
        push_decimal(out, n / 10);
    }
    let digit: u8 = (n % 10) as u8;
    out.push(48 + digit);
    proof {
        assert(out@ =~= old(out)@ + decimal(n as nat));
    }
}

/// Appends the UTF-8 bytes of `text` to `out`.
fn push_text(out: &mut Vec<u8>, text: &str)
    ensures
        final(out)@ == old(out)@ + encode_utf8(text@),
{
    let bytes = text.as_bytes();
    let n: usize = bytes.len();
    let mut i: usize = 0;
    while i < n
        invariant
            i <= n,
            n == bytes@.len(),
            bytes@ == encode_utf8(text@),
            out@ == old(out)@ + bytes@.take(i as int),
        decreases n - i,
    {
        out.push(bytes[i]);
        proof {
            assert(bytes@.take(i + 1) =~= bytes@.take(i as int).push(bytes@[i as int]));
        }
        i += 1;
    }
    proof {
        assert(bytes@.take(n as int) == bytes@);
    }
}

/// The bytes that the digest of `files` is taken of.
pub fn checksum_bytes(files: &Vec<FileStats>) -> (bytes: Vec<u8>)
    ensures
        bytes@ == checksum_input(file_views(files@)),
{
    let order = file_order(files, SortMetric::Name);
    let n: usize = order.len();
    let ghost sorted = sort_by_path(file_views(files@));
    let mut bytes: Vec<u8> = Vec::new();
    let mut i: usize = 0;
    proof {
        assert(sorted.take(0) =~= Seq::empty());
    }
    while i < n
        invariant
            i <= n,
            n == order@.len(),
            n == files@.len(),
            forall|q: int| 0 <= q < order@.len() ==> (#[trigger] order@[q]) < files@.len(),
            sorted == pick(file_views(files@), order@),
            bytes@ == files_bytes(sorted.take(i as int)),
        decreases n - i,
    {
        let f = &files[order[i]];
        let ghost start = bytes@;
        proof {
            assert(sorted.take(i + 1).drop_last() == sorted.take(i as int));
            assert(sorted.take(i + 1).last() == f@);
        }
        push_text(&mut bytes, f.path.as_str());
        push_text(&mut bytes, f.language.as_str());
        push_decimal(&mut bytes, f.total_lines);
        push_decimal(&mut bytes, f.logical_lines);
        push_decimal(&mut bytes, f.comment_lines);
        push_decimal(&mut bytes, f.empty_lines);
        proof {
            assert(bytes@ =~= start + file_bytes(f@));
        }
        i += 1;
    }
    proof {
        assert(sorted.take(n as int) == sorted);
    }
    bytes
}

/// The checksum of `files`: 64 hexadecimal digits.
pub fn checksum(files: &Vec<FileStats>) -> (text: String)
    ensures
        text@ == checksum_of(file_views(files@)),
        text@.len() == 64,
        is_hex_text(text@),
{
    let bytes = checksum_bytes(files);
    let digest = sha256(bytes.as_slice());
    proof {
        lemma_hex_lower(digest@);
    }
    hex_encode(digest.as_slice())
}

/// The order of files by path connects any two files and is transitive.
pub proof fn lemma_path_order()
    ensures
        connected(file_le(SortMetric::Name)),
        chained(file_le(SortMetric::Name)),
{
    let le = file_le(SortMetric::Name);
    assert forall|x: FileStatsView, y: FileStatsView| #[trigger] le(x, y) || #[trigger] le(y, x) by {
        lemma_path_le_total(x.path, y.path);
    }
    assert forall|x: FileStatsView, y: FileStatsView, z: FileStatsView| #[trigger]
        le(x, y) && #[trigger] le(y, z) implies le(x, z) by {
        lemma_path_le_transitive(x.path, y.path, z.path);
    }
}

/// Sorting by path gives the same files with ascending paths.
pub proof fn lemma_sort_by_path(files: Seq<FileStatsView>)
    ensures
        ascending(sort_by_path(files)),
        sort_by_path(files).to_multiset() == files.to_multiset(),
{
    lemma_path_order();
    lemma_sort_ascending(files, file_le(SortMetric::Name));
    lemma_sort_holds(files, file_le(SortMetric::Name));
    let sorted = sort_by_path(files);
    assert forall|i: int, j: int| 0 <= i < j < sorted.len() implies path_le(
        (#[trigger] sorted[i]).path,
        (#[trigger] sorted[j]).path,
    ) by {
        assert(file_le(SortMetric::Name)(sorted[i], sorted[j]));
    }
}

/// The checksum does not depend on the order of the files: two lists that
/// hold the same files have the same checksum, if any two entries of a list
/// that are the same path are the same entry.
pub proof fn lemma_checksum_ignores_order(a: Seq<FileStatsView>, b: Seq<FileStatsView>)
    requires
        a.to_multiset() == b.to_multiset(),
        forall|i: int, j: int|
            0 <= i < a.len() && 0 <= j < a.len() && same_path(
                (#[trigger] a[i]).path,
                (#[trigger] a[j]).path,
            ) ==> a[i] == a[j],
    ensures
        sort_by_path(a) == sort_by_path(b),
        checksum_input(a) == checksum_input(b),
        checksum_of(a) == checksum_of(b),
{
    broadcast use vstd::multiset::group_multiset_axioms;

    let le = file_le(SortMetric::Name);
    let x = sort_by_path(a);
    let y = sort_by_path(b);
    lemma_path_order();
    lemma_sort_ascending(a, le);
    lemma_sort_ascending(b, le);
    lemma_sort_holds(a, le);
    lemma_sort_holds(b, le);
    x.to_multiset_ensures();
    a.to_multiset_ensures();
    assert forall|i: int, j: int|
        0 <= i < x.len() && 0 <= j < x.len() && le(#[trigger] x[i], #[trigger] x[j]) && le(
            x[j],
            x[i],
        ) implies x[i] == x[j] by {
        lemma_path_le_antisymmetric(x[i].path, x[j].path);
        assert(x.contains(x[i]));
        assert(x.contains(x[j]));
        assert(x.to_multiset().count(x[i]) > 0);
        assert(x.to_multiset().count(x[j]) > 0);
        assert(a.to_multiset().count(x[i]) > 0);
        assert(a.to_multiset().count(x[j]) > 0);
        assert(a.contains(x[i]));
        assert(a.contains(x[j]));
        let p = choose|p: int| 0 <= p < a.len() && a[p] == x[i];
        let q = choose|q: int| 0 <= q < a.len() && a[q] == x[j];
        assert(same_path(a[p].path, a[q].path));
    }
    lemma_ascending_unique(x, y, le);
}

} // verus!
