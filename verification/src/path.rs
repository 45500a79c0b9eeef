//! Paths as reports order them and tell them apart: by their components.
//!
//! A path is a text. Its components are the pieces between slashes: a
//! leading slash is the root, empty pieces and single dots between pieces
//! count for nothing, a leading single dot is the current directory, two
//! dots are the parent directory, and every other piece is a name. Paths are
//! ordered component by component, a name by its UTF-8 bytes, and two paths
//! with the same components are the same path, however they are written.

use vstd::prelude::*;
use vstd::slice::slice_subrange;
use vstd::string::StringExecFns;
use crate::order::{
    lemma_text_le_antisymmetric, lemma_text_le_reflexive, lemma_text_le_total,
    lemma_text_le_transitive, str_le, text_le,
};
use crate::text::{chars_of, text_of};

verus! {

/// A component of a path.
pub enum PathPart {
    /// The root directory, which only a leading slash gives.
    Root,
    /// The current directory, which only a leading single dot gives.
    Current,
    /// The parent directory.
    Parent,
    /// A file or directory name.
    Normal(Seq<char>),
}

/// The place of a kind of component in the order of components: the root
/// comes first, then the current directory, the parent directory, and names.
pub open spec fn rank(part: PathPart) -> int {
    match part {
        PathPart::Root => 0,
        PathPart::Current => 1,
        PathPart::Parent => 2,
        PathPart::Normal(_) => 3,
    }
}

/// The name of a component that is a name, else the empty text.
pub open spec fn name_of(part: PathPart) -> Seq<char> {
    match part {
        PathPart::Normal(name) => name,
        _ => Seq::empty(),
    }
}

/// The order of components: by kind, and names by their UTF-8 bytes.
pub open spec fn part_le(a: PathPart, b: PathPart) -> bool {
    rank(a) < rank(b) || (rank(a) == rank(b) && text_le(name_of(a), name_of(b)))
}

/// `a` comes before `b` or is equal to it, of what both hold from index
/// `from` on: at the first index at which they differ `a` holds the
/// component that comes first, or `a` ends before they differ.
pub open spec fn parts_le_from(a: Seq<PathPart>, b: Seq<PathPart>, from: int) -> bool
    decreases a.len() - from,
{
    if from < 0 || from >= a.len() {
        true
    } else if from >= b.len() {
        false
    } else if a[from] != b[from] {
        part_le(a[from], b[from])
    } else {
        parts_le_from(a, b, from + 1)
    }
}

/// The index of the first slash of `s` at or after `from`, or the length of
/// `s` if there is none.
pub open spec fn piece_end(s: Seq<char>, from: int) -> int
    decreases s.len() - from,
{
    if from < 0 || from >= s.len() {
        s.len() as int
    } else if s[from] == '/' {
        from
    } else {
        piece_end(s, from + 1)
    }
}

/// The component that a piece between slashes stands for, if any.
pub open spec fn part_of(piece: Seq<char>) -> Option<PathPart> {
    if piece.len() == 0 || piece == seq!['.'] {
        None
    } else if piece == seq!['.', '.'] {
        Some(PathPart::Parent)
    } else {
        Some(PathPart::Normal(piece))
    }
}

/// The components of the pieces of `s` from index `from` on.
pub open spec fn parts_from(s: Seq<char>, from: int) -> Seq<PathPart>
    decreases s.len() - from + 1,
{
    if from < 0 || from >= s.len() {
        Seq::empty()
    } else {
        let end = piece_end(s, from);
        if from <= end <= s.len() {
            match part_of(s.subrange(from, end)) {
                Some(part) => seq![part] + parts_from(s, end + 1),
                None => parts_from(s, end + 1),
            }
        } else {
            Seq::empty()
        }
    }
}

/// The component that the beginning of a path gives before its pieces: the
/// root for a leading slash, the current directory for a leading single dot.
pub open spec fn lead(s: Seq<char>) -> Seq<PathPart> {
    if s.len() > 0 && s[0] == '/' {
        seq![PathPart::Root]
    } else if s.len() > 0 && s[0] == '.' && (s.len() == 1 || s[1] == '/') {
        seq![PathPart::Current]
    } else {
        Seq::empty()
    }
}

/// The components of a path.
pub open spec fn components(path: Seq<char>) -> Seq<PathPart> {
    lead(path) + parts_from(path, 0)
}

/// The order of paths: component by component.
pub open spec fn path_le(a: Seq<char>, b: Seq<char>) -> bool {
    parts_le_from(components(a), components(b), 0)
}

/// Whether two texts are the same path: they have the same components.
pub open spec fn same_path(a: Seq<char>, b: Seq<char>) -> bool {
    components(a) == components(b)
}

proof fn lemma_part_le_total(a: PathPart, b: PathPart)
    ensures
        part_le(a, b) || part_le(b, a),
{
    lemma_text_le_total(name_of(a), name_of(b));
}

proof fn lemma_part_le_transitive(a: PathPart, b: PathPart, c: PathPart)
    requires
        part_le(a, b),
        part_le(b, c),
    ensures
        part_le(a, c),
{
    if rank(a) == rank(b) && rank(b) == rank(c) {
        lemma_text_le_transitive(name_of(a), name_of(b), name_of(c));
    }
}

proof fn lemma_part_le_antisymmetric(a: PathPart, b: PathPart)
    requires
        part_le(a, b),
        part_le(b, a),
    ensures
        a == b,
{
    lemma_text_le_antisymmetric(name_of(a), name_of(b));
}

proof fn lemma_parts_total(a: Seq<PathPart>, b: Seq<PathPart>, from: int)
    requires
        0 <= from,
    ensures
        parts_le_from(a, b, from) || parts_le_from(b, a, from),
    decreases a.len() - from,
{
    if from < a.len() && from < b.len() {
        if a[from] == b[from] {
            lemma_parts_total(a, b, from + 1);
        } else {
            lemma_part_le_total(a[from], b[from]);
        }
    }
}

proof fn lemma_parts_transitive(a: Seq<PathPart>, b: Seq<PathPart>, c: Seq<PathPart>, from: int)
    requires
        0 <= from,
        parts_le_from(a, b, from),
        parts_le_from(b, c, from),
    ensures
        parts_le_from(a, c, from),
    decreases a.len() - from,
{
    if from < a.len() && from < b.len() && from < c.len() {
        let x = a[from];
        let y = b[from];
        let z = c[from];
        if x == y && y == z {
            lemma_parts_transitive(a, b, c, from + 1);
        } else if x != y && y != z {
            lemma_part_le_transitive(x, y, z);
            if x == z {
                lemma_part_le_antisymmetric(x, y);
            }
        }
    }
}

proof fn lemma_parts_antisymmetric(a: Seq<PathPart>, b: Seq<PathPart>, from: int)
    requires
        0 <= from <= a.len(),
        from <= b.len(),
        a.take(from) == b.take(from),
        parts_le_from(a, b, from),
        parts_le_from(b, a, from),
    ensures
        a == b,
    decreases a.len() - from,
{
    if from < a.len() {
        if a[from] != b[from] {
            lemma_part_le_antisymmetric(a[from], b[from]);
        }
        assert(a.take(from + 1) =~= a.take(from).push(a[from]));
        assert(b.take(from + 1) =~= b.take(from).push(b[from]));
        lemma_parts_antisymmetric(a, b, from + 1);
    } else {
        assert(a.take(from) == a);
        assert(b.take(from) == b);
    }
}

proof fn lemma_parts_reflexive(a: Seq<PathPart>, from: int)
    requires
        0 <= from,
    ensures
        parts_le_from(a, a, from),
    decreases a.len() - from,
{
    if from < a.len() {
        lemma_parts_reflexive(a, from + 1);
    }
}

/// Every path is at or before itself.
pub proof fn lemma_path_le_reflexive(a: Seq<char>)
    ensures
        path_le(a, a),
{
    lemma_parts_reflexive(components(a), 0);
}

/// Of two paths one is at or before the other.
pub proof fn lemma_path_le_total(a: Seq<char>, b: Seq<char>)
    ensures
        path_le(a, b) || path_le(b, a),
{
    lemma_parts_total(components(a), components(b), 0);
}

/// The order of paths is transitive.
pub proof fn lemma_path_le_transitive(a: Seq<char>, b: Seq<char>, c: Seq<char>)
    requires
        path_le(a, b),
        path_le(b, c),
    ensures
        path_le(a, c),
{
    lemma_parts_transitive(components(a), components(b), components(c), 0);
}

/// Two paths that are each at or before the other are the same path.
pub proof fn lemma_path_le_antisymmetric(a: Seq<char>, b: Seq<char>)
    requires
        path_le(a, b),
        path_le(b, a),
    ensures
        same_path(a, b),
{
    let x = components(a);
    let y = components(b);
    assert(x.take(0) =~= y.take(0));
    lemma_parts_antisymmetric(x, y, 0);
}

/// A component of a path, for computing.
#[derive(Debug)]
pub enum Part {
    Root,
    Current,
    Parent,
    Normal(String),
}

impl View for Part {
    type V = PathPart;

    open spec fn view(&self) -> PathPart {
        match self {
            Part::Root => PathPart::Root,
            Part::Current => PathPart::Current,
            Part::Parent => PathPart::Parent,
            Part::Normal(name) => PathPart::Normal(name@),
        }
    }
}

/// The views of a list of components.
pub open spec fn part_views(parts: Seq<Part>) -> Seq<PathPart> {
    Seq::new(parts.len(), |i: int| parts[i]@)
}

/// The components of `path`.
pub fn path_parts(path: &str) -> (parts: Vec<Part>)
    ensures
        part_views(parts@) == components(path@),
{
    let chars = chars_of(path);
    let text = chars.as_slice();
    let n: usize = text.len();
    let mut parts: Vec<Part> = Vec::new();
    if n > 0 && text[0] == '/' {
        parts.push(Part::Root);
    } else if n > 0 && text[0] == '.' && (n == 1 || text[1] == '/') {
        parts.push(Part::Current);
    }
    proof {
        assert(part_views(parts@) =~= lead(text@));
    }
    let mut pos: usize = 0;
    while pos < n
        invariant
            pos <= n,
            n == text@.len(),
            text@ == path@,
            components(path@) == part_views(parts@) + parts_from(text@, pos as int),
        decreases n - pos,
    {
        let mut end: usize = pos;
        while end < n && text[end] != '/'
            invariant
                pos <= end <= n,
                n == text@.len(),
                piece_end(text@, pos as int) == piece_end(text@, end as int),
            decreases n - end,
        {
            end += 1;
        }
        let piece = slice_subrange(text, pos, end);
        let ghost before = part_views(parts@);
        let ghost rest = parts_from(text@, end + 1);
        let len: usize = end - pos;
        if len == 0 || (len == 1 && piece[0] == '.') {
            proof {
                if len == 1 {
                    assert(piece@ =~= seq!['.']);
                }
                assert(part_of(piece@) is None);
            }
        } else if len == 2 && piece[0] == '.' && piece[1] == '.' {
            proof {
                assert(piece@ =~= seq!['.', '.']);
            }
            parts.push(Part::Parent);
            proof {
                assert(part_views(parts@) =~= before.push(PathPart::Parent));
                assert(before + (seq![PathPart::Parent] + rest) =~= before.push(PathPart::Parent)
                    + rest);
            }
        } else {
            proof {
                if piece@ == seq!['.'] {
                    assert(piece@.len() == 1 && piece@[0] == '.');
                }
                if piece@ == seq!['.', '.'] {
                    assert(piece@.len() == 2 && piece@[0] == '.' && piece@[1] == '.');
                }
                assert(part_of(piece@) == Some(PathPart::Normal(piece@)));
            }
            parts.push(Part::Normal(text_of(piece)));
            proof {
                assert(part_views(parts@) =~= before.push(PathPart::Normal(piece@)));
                assert(before + (seq![PathPart::Normal(piece@)] + rest) =~= before.push(
                    PathPart::Normal(piece@),
                ) + rest);
            }
        }
        if end < n {
            pos = end + 1;
        } else {
            proof {
                assert(parts_from(text@, end + 1) == Seq::<PathPart>::empty());
            }
            pos = n;
        }
    }
    proof {
        assert(parts_from(text@, n as int) == Seq::<PathPart>::empty());
        assert(part_views(parts@) + Seq::<PathPart>::empty() =~= part_views(parts@));
    }
    parts
}

/// The place of the kind of `part` in the order of components.
fn rank_of(part: &Part) -> (r: u8)
    ensures
        r == rank(part@),
{
    match part {
        Part::Root => 0,
        Part::Current => 1,
        Part::Parent => 2,
        Part::Normal(_) => 3,
    }
}

/// Whether `a` is at or before `b` in the order of components.
fn part_at_or_before(a: &Part, b: &Part) -> (r: bool)
    ensures
        r == part_le(a@, b@),
{
    let x = rank_of(a);
    let y = rank_of(b);
    if x != y {
        x < y
    } else {
        match (a, b) {
            (Part::Normal(m), Part::Normal(n)) => str_le(m.as_str(), n.as_str()),
            _ => {
                proof {
                    lemma_text_le_reflexive(Seq::<char>::empty());
                }
                true
            },
        }
    }
}

/// Whether `a` and `b` are the same component.
fn part_same(a: &Part, b: &Part) -> (r: bool)
    ensures
        r == (a@ == b@),
{
    let le = part_at_or_before(a, b);
    let ge = part_at_or_before(b, a);
    proof {
        if le && ge {
            lemma_part_le_antisymmetric(a@, b@);
        }
        if a@ == b@ {
            lemma_text_le_reflexive(name_of(a@));
        }
    }
    le && ge
}

/// Whether the components `a` come at or before the components `b`.
pub fn parts_in_order(a: &Vec<Part>, b: &Vec<Part>) -> (r: bool)
    ensures
        r == parts_le_from(part_views(a@), part_views(b@), 0),
{
    let n: usize = a.len();
    let m: usize = b.len();
    let ghost x = part_views(a@);
    let ghost y = part_views(b@);
    let mut i: usize = 0;
    while i < n
        invariant
            i <= n,
            n == a@.len(),
            m == b@.len(),
            x == part_views(a@),
            y == part_views(b@),
            parts_le_from(x, y, 0) == parts_le_from(x, y, i as int),
        decreases n - i,
    {
        if i >= m {
            return false;
        }
        proof {
            assert(x[i as int] == a@[i as int]@);
            assert(y[i as int] == b@[i as int]@);
        }
        if !part_same(&a[i], &b[i]) {
            return part_at_or_before(&a[i], &b[i]);
        }
        i += 1;
    }
    true
}

/// Whether the path `a` comes at or before the path `b`.
pub fn paths_in_order(a: &str, b: &str) -> (r: bool)
    ensures
        r == path_le(a@, b@),
{
    let x = path_parts(a);
    let y = path_parts(b);
    parts_in_order(&x, &y)
}

/// Whether `a` and `b` are the same path.
pub fn paths_equal(a: &str, b: &str) -> (r: bool)
    ensures
        r == same_path(a@, b@),
{
    let x = path_parts(a);
    let y = path_parts(b);
    let le = parts_in_order(&x, &y);
    let ge = parts_in_order(&y, &x);
    proof {
        if le && ge {
            lemma_path_le_antisymmetric(a@, b@);
        }
        if same_path(a@, b@) {
            lemma_path_le_reflexive(a@);
        }
    }
    le && ge
}

/// The text of a component.
pub open spec fn part_text(part: PathPart) -> Seq<char> {
    match part {
        PathPart::Root => Seq::empty(),
        PathPart::Current => seq!['.'],
        PathPart::Parent => seq!['.', '.'],
        PathPart::Normal(name) => name,
    }
}

/// The key of a list of components: the text of each, with a slash behind
/// it. Two lists of components of paths have the same key only if they are
/// the same list.
pub open spec fn key_of(parts: Seq<PathPart>) -> Seq<char>
    decreases parts.len(),
{
    if parts.len() == 0 {
        Seq::empty()
    } else {
        part_text(parts[0]).push('/') + key_of(parts.skip(1))
    }
}

/// The key of a path: one text for every way of writing the same path.
pub open spec fn path_key(path: Seq<char>) -> Seq<char> {
    key_of(components(path))
}

/// Whether `name` can be the name of a component: it is not empty, holds
/// no slash, and is neither one dot nor two.
pub open spec fn is_name(name: Seq<char>) -> bool {
    &&& name.len() > 0
    &&& forall|i: int| 0 <= i < name.len() ==> name[i] != '/'
    &&& name != seq!['.']
    &&& name != seq!['.', '.']
}

/// Whether every name among `parts` can be the name of a component.
pub open spec fn valid_parts(parts: Seq<PathPart>) -> bool {
    forall|i: int| 0 <= i < parts.len() ==> is_name(part_text(#[trigger] parts[i])) || !(parts[i]
        is Normal)
}

proof fn lemma_piece_end(s: Seq<char>, from: int)
    requires
        0 <= from <= s.len(),
    ensures
        from <= piece_end(s, from) <= s.len(),
        forall|i: int| from <= i < piece_end(s, from) ==> s[i] != '/',
    decreases s.len() - from,
{
    if from < s.len() && s[from] != '/' {
        lemma_piece_end(s, from + 1);
    }
}

proof fn lemma_parts_from_valid(s: Seq<char>, from: int)
    requires
        0 <= from,
    ensures
        valid_parts(parts_from(s, from)),
    decreases s.len() - from + 1,
{
    if from < s.len() {
        lemma_piece_end(s, from);
        let end = piece_end(s, from);
        let piece = s.subrange(from, end);
        let rest = parts_from(s, end + 1);
        lemma_parts_from_valid(s, end + 1);
        let parts = parts_from(s, from);
        assert forall|i: int| 0 <= i < parts.len() implies is_name(part_text(#[trigger] parts[i]))
            || !(parts[i] is Normal) by {
            match part_of(piece) {
                Some(part) => {
                    if i == 0 {
                        assert(parts[0] == part);
                        if part is Normal {
                            assert forall|j: int| 0 <= j < piece.len() implies piece[j] != '/' by {
                                assert(piece[j] == s[from + j]);
                            }
                        }
                    } else {
                        assert(parts[i] == rest[i - 1]);
                    }
                },
                None => {},
            }
        }
    }
}

/// The names among the components of a path can be names.
pub proof fn lemma_components_valid(path: Seq<char>)
    ensures
        valid_parts(components(path)),
{
    lemma_parts_from_valid(path, 0);
    let head = lead(path);
    let tail = parts_from(path, 0);
    let parts = components(path);
    assert forall|i: int| 0 <= i < parts.len() implies is_name(part_text(#[trigger] parts[i]))
        || !(parts[i] is Normal) by {
        if i < head.len() {
            assert(parts[i] == head[i]);
        } else {
            assert(parts[i] == tail[i - head.len()]);
        }
    }
}

proof fn lemma_part_text_free_of_slash(part: PathPart)
    requires
        is_name(part_text(part)) || !(part is Normal),
    ensures
        forall|i: int| 0 <= i < part_text(part).len() ==> part_text(part)[i] != '/',
{
}

proof fn lemma_part_text_injective(a: PathPart, b: PathPart)
    requires
        is_name(part_text(a)) || !(a is Normal),
        is_name(part_text(b)) || !(b is Normal),
        part_text(a) == part_text(b),
    ensures
        a == b,
{
    let x = part_text(a);
    if a is Current || b is Current {
        assert(seq!['.'].len() == 1);
    }
    if a is Parent || b is Parent {
        assert(seq!['.', '.'].len() == 2);
    }
}

proof fn lemma_key_injective(p: Seq<PathPart>, q: Seq<PathPart>)
    requires
        valid_parts(p),
        valid_parts(q),
        key_of(p) == key_of(q),
    ensures
        p == q,
    decreases p.len(),
{
    if p.len() == 0 {
        if q.len() > 0 {
            assert(key_of(q).len() > 0);
        }
        assert(p =~= q);
    } else {
        if q.len() == 0 {
            assert(key_of(p).len() > 0);
        }
        let x = part_text(p[0]);
        let y = part_text(q[0]);
        let kp = key_of(p);
        let kq = key_of(q);
        lemma_part_text_free_of_slash(p[0]);
        lemma_part_text_free_of_slash(q[0]);
        if x.len() < y.len() {
            assert(kp[x.len() as int] == '/');
            assert(kq[x.len() as int] == y[x.len() as int]);
        }
        if y.len() < x.len() {
            assert(kq[y.len() as int] == '/');
            assert(kp[y.len() as int] == x[y.len() as int]);
        }
        assert(x =~= y) by {
            assert forall|i: int| 0 <= i < x.len() implies x[i] == y[i] by {
                assert(kp[i] == x[i]);
                assert(kq[i] == y[i]);
            }
        }
        lemma_part_text_injective(p[0], q[0]);
        let rp = key_of(p.skip(1));
        let rq = key_of(q.skip(1));
        assert(rp =~= rq) by {
            assert(rp =~= kp.skip(x.len() as int + 1));
            assert(rq =~= kq.skip(y.len() as int + 1));
        }
        assert(valid_parts(p.skip(1))) by {
            assert forall|i: int| 0 <= i < p.skip(1).len() implies is_name(
                part_text(#[trigger] p.skip(1)[i]),
            ) || !(p.skip(1)[i] is Normal) by {
                assert(p.skip(1)[i] == p[i + 1]);
            }
        }
        assert(valid_parts(q.skip(1))) by {
            assert forall|i: int| 0 <= i < q.skip(1).len() implies is_name(
                part_text(#[trigger] q.skip(1)[i]),
            ) || !(q.skip(1)[i] is Normal) by {
                assert(q.skip(1)[i] == q[i + 1]);
            }
        }
        lemma_key_injective(p.skip(1), q.skip(1));
        assert(p =~= seq![p[0]] + p.skip(1));
        assert(q =~= seq![q[0]] + q.skip(1));
    }
}

/// Two texts have the same key exactly when they are the same path.
pub proof fn lemma_path_key(a: Seq<char>, b: Seq<char>)
    ensures
        path_key(a) == path_key(b) <==> same_path(a, b),
{
    lemma_components_valid(a);
    lemma_components_valid(b);
    if path_key(a) == path_key(b) {
        lemma_key_injective(components(a), components(b));
    }
}

/// The key of `path`.
pub fn key_text(path: &str) -> (key: String)
    ensures
        key@ == path_key(path@),
{
    let parts = path_parts(path);
    let n: usize = parts.len();
    let ghost all = part_views(parts@);
    let mut key = String::new();
    let mut i: usize = 0;
    proof {
        assert(all.skip(0) == all);
        assert(key@ + key_of(all) =~= key_of(all));
    }
    while i < n
        invariant
            i <= n,
            n == parts@.len(),
            all == part_views(parts@),
            all == components(path@),
            key_of(all) == key@ + key_of(all.skip(i as int)),
        decreases n - i,
    {
        let ghost before = key@;
        let ghost part = all[i as int];
        proof {
            assert(all.skip(i as int)[0] == part);
            assert(all.skip(i as int).skip(1) == all.skip(i + 1));
            assert(part == parts@[i as int]@);
        }
        match &parts[i] {
            Part::Root => {},
            Part::Current => {
                key.push('.');
            },
            Part::Parent => {
                key.push('.');
                key.push('.');
            },
            Part::Normal(name) => {
                key.append(name.as_str());
            },
        }
        proof {
            assert(key@ =~= before + part_text(part));
        }
        key.push('/');
        proof {
            assert(key@ + key_of(all.skip(i + 1)) =~= before + (part_text(part).push('/') + key_of(
                all.skip(i + 1),
            )));
        }
        i += 1;
    }
    proof {
        assert(key_of(all.skip(n as int)) =~= Seq::<char>::empty());
        assert(key@ + Seq::<char>::empty() =~= key@);
    }
    key
}

} // verus!
