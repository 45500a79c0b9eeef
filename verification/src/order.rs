//! The order of texts by which reports sort language names and the names
//! within paths: the lexicographic order of their UTF-8 bytes.

use vstd::prelude::*;
use vstd::utf8::{encode_utf8, encode_utf8_decode_utf8, decode_utf8};

verus! {

/// `a` comes before `b` or is equal to it, of what both hold from index
/// `from` on: at the first index at which they differ `a` holds the smaller
/// byte, or `a` ends before they differ.
pub open spec fn bytes_le_from(a: Seq<u8>, b: Seq<u8>, from: int) -> bool
    decreases a.len() - from,
{
    if from < 0 || from >= a.len() {
        true
    } else if from >= b.len() {
        false
    } else if a[from] != b[from] {
        a[from] < b[from]
    } else {
        bytes_le_from(a, b, from + 1)
    }
}

/// The lexicographic order of byte sequences.
pub open spec fn bytes_le(a: Seq<u8>, b: Seq<u8>) -> bool {
    bytes_le_from(a, b, 0)
}

/// The order of texts: by their UTF-8 bytes.
pub open spec fn text_le(a: Seq<char>, b: Seq<char>) -> bool {
    bytes_le(encode_utf8(a), encode_utf8(b))
}

/// `a` comes strictly before `b`.
pub open spec fn text_lt(a: Seq<char>, b: Seq<char>) -> bool {
    text_le(a, b) && a != b
}

proof fn lemma_bytes_total(a: Seq<u8>, b: Seq<u8>, from: int)
    requires
        0 <= from,
    ensures
        bytes_le_from(a, b, from) || bytes_le_from(b, a, from),
    decreases a.len() - from,
{
    if from < a.len() && from < b.len() && a[from] == b[from] {
        lemma_bytes_total(a, b, from + 1);
    }
}

proof fn lemma_bytes_transitive(a: Seq<u8>, b: Seq<u8>, c: Seq<u8>, from: int)
    requires
        0 <= from,
        bytes_le_from(a, b, from),
        bytes_le_from(b, c, from),
    ensures
        bytes_le_from(a, c, from),
    decreases a.len() - from,
{
    if from < a.len() && from < b.len() && from < c.len() && a[from] == b[from] && b[from]
        == c[from] {
        lemma_bytes_transitive(a, b, c, from + 1);
    }
}

proof fn lemma_bytes_antisymmetric(a: Seq<u8>, b: Seq<u8>, from: int)
    requires
        0 <= from <= a.len(),
        from <= b.len(),
        a.take(from) == b.take(from),
        bytes_le_from(a, b, from),
        bytes_le_from(b, a, from),
    ensures
        a == b,
    decreases a.len() - from,
{
    if from < a.len() {
        assert(a.take(from + 1) =~= a.take(from).push(a[from]));
        assert(b.take(from + 1) =~= b.take(from).push(b[from]));
        lemma_bytes_antisymmetric(a, b, from + 1);
    } else {
        assert(a.take(from) == a);
        assert(b.take(from) == b);
    }
}

/// Every text is at or before itself.
pub proof fn lemma_text_le_reflexive(a: Seq<char>)
    ensures
        text_le(a, a),
{
    lemma_bytes_reflexive(encode_utf8(a), 0);
}

proof fn lemma_bytes_reflexive(a: Seq<u8>, from: int)
    requires
        0 <= from,
    ensures
        bytes_le_from(a, a, from),
    decreases a.len() - from,
{
    if from < a.len() {
        lemma_bytes_reflexive(a, from + 1);
    }
}

/// Of two texts one is at or before the other.
pub proof fn lemma_text_le_total(a: Seq<char>, b: Seq<char>)
    ensures
        text_le(a, b) || text_le(b, a),
{
    lemma_bytes_total(encode_utf8(a), encode_utf8(b), 0);
}

/// The order of texts is transitive.
pub proof fn lemma_text_le_transitive(a: Seq<char>, b: Seq<char>, c: Seq<char>)
    requires
        text_le(a, b),
        text_le(b, c),
    ensures
        text_le(a, c),
{
    lemma_bytes_transitive(encode_utf8(a), encode_utf8(b), encode_utf8(c), 0);
}

/// Two texts that are each at or before the other are equal.
pub proof fn lemma_text_le_antisymmetric(a: Seq<char>, b: Seq<char>)
    requires
        text_le(a, b),
        text_le(b, a),
    ensures
        a == b,
{
    let x = encode_utf8(a);
    let y = encode_utf8(b);
    assert(x.take(0) =~= y.take(0));
    lemma_bytes_antisymmetric(x, y, 0);
    encode_utf8_decode_utf8(a);
    encode_utf8_decode_utf8(b);
    assert(decode_utf8(x) == a);
    assert(decode_utf8(y) == b);
}

/// Whether `a` is at or before `b` in the order of texts.
pub fn str_le(a: &str, b: &str) -> (r: bool)
    ensures
        r == text_le(a@, b@),
{
    let x = a.as_bytes();
    let y = b.as_bytes();
    let n: usize = x.len();
    let m: usize = y.len();
    let mut i: usize = 0;
    while i < n
        invariant
            i <= n,
            n == x@.len(),
            m == y@.len(),
            x@ == encode_utf8(a@),
            y@ == encode_utf8(b@),
            bytes_le(x@, y@) == bytes_le_from(x@, y@, i as int),
        decreases n - i,
    {
        if i >= m {
            return false;
        }
        if x[i] != y[i] {
            return x[i] < y[i];
        }
        i += 1;
    }
    true
}

/// Whether `a` and `b` are the same text.
pub fn str_eq(a: &str, b: &str) -> (r: bool)
    ensures
        r == (a@ == b@),
{
    let le = str_le(a, b);
    let ge = str_le(b, a);
    proof {
        if le && ge {
            lemma_text_le_antisymmetric(a@, b@);
        }
        if a@ == b@ {
            lemma_text_le_reflexive(a@);
        }
    }
    le && ge
}

/// Whether the texts of `list` ascend strictly.
pub open spec fn strictly_ascending(list: Seq<Seq<char>>) -> bool {
    forall|i: int, j: int| 0 <= i < j < list.len() ==> text_lt(#[trigger] list[i], #[trigger] list[j])
}

/// Two strictly ascending lists that hold the same texts are equal.
pub proof fn lemma_strictly_ascending_unique(x: Seq<Seq<char>>, y: Seq<Seq<char>>)
    requires
        strictly_ascending(x),
        strictly_ascending(y),
        forall|t: Seq<char>| x.contains(t) <==> y.contains(t),
    ensures
        x == y,
    decreases x.len(),
{
    if x.len() == 0 {
        if y.len() > 0 {
            assert(y.contains(y[0]));
        }
        assert(x =~= y);
    } else {
        let n = x.len() as int;
        let xl = x[n - 1];
        assert(x.contains(xl));
        let j = choose|j: int| 0 <= j < y.len() && y[j] == xl;
        let m = y.len() as int;
        let yl = y[m - 1];
        assert(y.contains(yl));
        let i = choose|i: int| 0 <= i < n && x[i] == yl;
        if j < m - 1 {
            assert(text_lt(y[j], y[m - 1]));
            if i < n - 1 {
                assert(text_lt(x[i], x[n - 1]));
                lemma_text_le_antisymmetric(xl, yl);
            }
        }
        assert(xl == yl);
        let xs = x.drop_last();
        let ys = y.drop_last();
        assert forall|t: Seq<char>| xs.contains(t) <==> ys.contains(t) by {
            if xs.contains(t) {
                let p = choose|p: int| 0 <= p < xs.len() && xs[p] == t;
                assert(x[p] == t);
                assert(text_lt(x[p], x[n - 1]));
                assert(x.contains(t));
                let q = choose|q: int| 0 <= q < y.len() && y[q] == t;
                assert(ys[q] == t);
            }
            if ys.contains(t) {
                let q = choose|q: int| 0 <= q < ys.len() && ys[q] == t;
                assert(y[q] == t);
                assert(text_lt(y[q], y[m - 1]));
                assert(y.contains(t));
                let p = choose|p: int| 0 <= p < x.len() && x[p] == t;
                assert(xs[p] == t);
            }
        }
        assert(strictly_ascending(xs)) by {
            assert forall|p: int, q: int| 0 <= p < q < xs.len() implies text_lt(
                #[trigger] xs[p],
                #[trigger] xs[q],
            ) by {
                assert(xs[p] == x[p] && xs[q] == x[q]);
            }
        }
        assert(strictly_ascending(ys)) by {
            assert forall|p: int, q: int| 0 <= p < q < ys.len() implies text_lt(
                #[trigger] ys[p],
                #[trigger] ys[q],
            ) by {
                assert(ys[p] == y[p] && ys[q] == y[q]);
            }
        }
        lemma_strictly_ascending_unique(xs, ys);
        assert(x =~= xs.push(xl));
        assert(y =~= ys.push(yl));
    }
}

} // verus!
