//! The line classifier: what kind of line a line of source text is, given
//! the comment grammar of its language and the block comment state that
//! earlier lines left behind.

use vstd::prelude::*;
use crate::language::{Grammar, Language, Tokens};
use crate::text::{
    blank, chars_of, contains, find, find_first, has_prefix, is_blank, lemma_find, matches_at,
    rest_from, starts_with, trim, trimmed,
};
use vstd::slice::slice_subrange;

verus! {

/// The kind of a line.
#[derive(Debug, Clone, Copy, PartialEq, Eq, Structural)]
pub enum LineType {
    Empty,
    Comment,
    Logical,
    /// Code followed by a single-line comment.
    Mixed,
}

/// The block comment state carried from one line to the next.
pub struct ScanState {
    pub in_comment: bool,
    pub depth: int,
}

/// The least index at or after `from` of a marker that `t` starts with.
pub open spec fn leading_marker(markers: Seq<Seq<char>>, t: Seq<char>, from: int) -> Option<int>
    decreases markers.len() - from,
{
    if from < 0 || from >= markers.len() {
        None
    } else if starts_with(t, markers[from]) {
        Some(from)
    } else {
        leading_marker(markers, t, from + 1)
    }
}

/// Some marker occurs somewhere in `line`, and the trimmed line `t` does not
/// start with it.
pub open spec fn marker_inside(markers: Seq<Seq<char>>, line: Seq<char>, t: Seq<char>) -> bool {
    exists|k: int|
        0 <= k < markers.len() && contains(line, #[trigger] markers[k]) && !starts_with(
            t,
            markers[k],
        )
}

/// The kind of `line` when it is not inside a block comment.
///
/// A preprocessor directive counts as empty where directives are ignored.
/// A line that starts with a single-line marker is a comment, or empty if
/// nothing but whitespace follows the marker; the first marker in declared
/// order that the line starts with decides. A line that holds a marker
/// further in is mixed. Every other non-blank line is logical.
pub open spec fn classify(g: Grammar, ignore_preprocessor: bool, line: Seq<char>) -> LineType {
    let t = trim(line);
    if ignore_preprocessor && g.preprocessor_prefix is Some && starts_with(
        t,
        g.preprocessor_prefix->0,
    ) {
        LineType::Empty
    } else if t.len() == 0 {
        LineType::Empty
    } else {
        match leading_marker(g.single_line, t, 0) {
            Some(k) => if is_blank(t.skip(g.single_line[k].len() as int)) {
                LineType::Empty
            } else {
                LineType::Comment
            },
            None => if marker_inside(g.single_line, line, t) {
                LineType::Mixed
            } else {
                LineType::Logical
            },
        }
    }
}

/// What one block comment pair makes of a line in a grammar without
/// nesting.
pub enum PairVerdict {
    /// The pair has nothing to say about the line.
    Untouched,
    /// The line is inside a comment of this pair, or opens or closes one
    /// and holds nothing else.
    Inside,
    /// A comment closes on the line and code stands beside it.
    Beside,
}

/// One block comment pair of a grammar without nesting, applied to a line.
/// Returns the verdict and whether a comment is open after the line.
pub open spec fn toggle_pair(line: Seq<char>, start: Seq<char>, end: Seq<char>, open: bool) -> (
    PairVerdict,
    bool,
) {
    if open {
        match find(line, end) {
            None => (PairVerdict::Inside, true),
            Some(p) => if is_blank(line.skip(p + end.len())) {
                (PairVerdict::Inside, false)
            } else {
                (PairVerdict::Beside, false)
            },
        }
    } else {
        match find(line, start) {
            None => (PairVerdict::Untouched, false),
            Some(s) => {
                let after = line.skip(s + start.len());
                match find(after, end) {
                    None => (PairVerdict::Inside, true),
                    Some(e) => if is_blank(line.take(s)) && is_blank(after.skip(e + end.len())) {
                        (PairVerdict::Inside, false)
                    } else {
                        (PairVerdict::Beside, false)
                    },
                }
            },
        }
    }
}

/// The pairs from index `from` on, applied in order to a line in a grammar
/// without nesting. `inside` is the answer so far and `open` whether a
/// comment is open. The first pair that finds code beside a closing comment
/// ends the scan with the answer `false`.
pub open spec fn toggle_scan(
    line: Seq<char>,
    pairs: Seq<(Seq<char>, Seq<char>)>,
    from: int,
    inside: bool,
    open: bool,
) -> (bool, bool)
    decreases pairs.len() - from,
{
    if from < 0 || from >= pairs.len() {
        (inside, open)
    } else {
        let (verdict, open_after) = toggle_pair(line, pairs[from].0, pairs[from].1, open);
        match verdict {
            PairVerdict::Beside => (false, open_after),
            PairVerdict::Inside => toggle_scan(line, pairs, from + 1, true, open_after),
            PairVerdict::Untouched => toggle_scan(line, pairs, from + 1, inside, open_after),
        }
    }
}

/// The state of a scan for nested comments: what is left of the line, the
/// depth, and whether the depth was above zero at any point so far.
pub struct NestedScan {
    pub rest: Seq<char>,
    pub depth: int,
    pub seen: bool,
}

/// One depth less, but not below zero.
pub open spec fn one_less(depth: int) -> int {
    if depth > 0 {
        depth - 1
    } else {
        depth
    }
}

/// A block comment token.
pub enum Token {
    Start,
    End,
}

/// The nearest token of a pair in `rest` and the index just behind it.
/// Where both tokens start at the same index the end token is taken.
pub open spec fn nearest_token(rest: Seq<char>, start: Seq<char>, end: Seq<char>) -> Option<
    (Token, int),
> {
    match (find(rest, start), find(rest, end)) {
        (Some(s), Some(e)) => if s < e {
            Some((Token::Start, s + start.len()))
        } else {
            Some((Token::End, e + end.len()))
        },
        (Some(s), None) => Some((Token::Start, s + start.len())),
        (None, Some(e)) => Some((Token::End, e + end.len())),
        (None, None) => None,
    }
}

/// The scan after a token was taken, with `behind` the index just behind
/// the token: the depth goes up on a start token and down on an end token.
pub open spec fn take_token(scan: NestedScan, token: Token, behind: int) -> NestedScan {
    match token {
        Token::Start => NestedScan { rest: scan.rest.skip(behind), depth: scan.depth + 1, seen: true },
        Token::End => NestedScan {
            rest: scan.rest.skip(behind),
            depth: one_less(scan.depth),
            seen: scan.seen,
        },
    }
}

/// One block comment pair of a nesting grammar, applied to what is left of a
/// line: the nearest token is taken and the scan goes on behind it, until
/// neither token occurs. (A token that would not shorten the rest, which
/// only an empty token can be, ends the scan too.)
pub open spec fn nested_pair(scan: NestedScan, start: Seq<char>, end: Seq<char>) -> NestedScan
    decreases scan.rest.len(),
{
    match nearest_token(scan.rest, start, end) {
        Some((token, behind)) => if 0 < behind <= scan.rest.len() {
            nested_pair(take_token(scan, token, behind), start, end)
        } else {
            scan
        },
        None => scan,
    }
}

/// The pairs from index `from` on, applied in order to a line in a nesting
/// grammar. Each pair goes on with what the pair before it left of the line.
pub open spec fn nested_scan(
    scan: NestedScan,
    pairs: Seq<(Seq<char>, Seq<char>)>,
    from: int,
) -> NestedScan
    decreases pairs.len() - from,
{
    if from < 0 || from >= pairs.len() {
        scan
    } else {
        nested_scan(nested_pair(scan, pairs[from].0, pairs[from].1), pairs, from + 1)
    }
}

/// Whether `line` counts as inside a block comment, and the state after it.
///
/// A grammar without block comments never says yes and leaves the state as
/// it is. A nesting grammar says yes if the depth is above zero before,
/// during or after the scan of the line, and leaves `in_comment` as it is.
/// A grammar without nesting toggles `in_comment` and leaves the depth as
/// it is.
pub open spec fn advance(g: Grammar, line: Seq<char>, state: ScanState) -> (bool, ScanState) {
    if g.multi_line.len() == 0 {
        (false, state)
    } else if g.nested {
        let scan = nested_scan(
            NestedScan { rest: line, depth: state.depth, seen: state.depth > 0 },
            g.multi_line,
            0,
        );
        (scan.seen, ScanState { in_comment: state.in_comment, depth: scan.depth })
    } else {
        let (inside, open) = toggle_scan(line, g.multi_line, 0, state.in_comment, state.in_comment);
        (inside, ScanState { in_comment: open, depth: state.depth })
    }
}

/// The kind of the next line of a file and the state after it: a line
/// inside a block comment is a comment, or empty if it is blank; every other
/// line is classified on its own.
pub open spec fn classify_next(
    g: Grammar,
    ignore_preprocessor: bool,
    line: Seq<char>,
    state: ScanState,
) -> (LineType, ScanState) {
    let (inside, after) = advance(g, line, state);
    if inside {
        (
            if is_blank(line) {
                LineType::Empty
            } else {
                LineType::Comment
            },
            after,
        )
    } else {
        (classify(g, ignore_preprocessor, line), after)
    }
}

impl Tokens {
    /// The kind of `line` when it is not inside a block comment.
    pub fn classify(&self, ignore_preprocessor: bool, line: &[char]) -> (kind: LineType)
        ensures
            kind == classify(self@, ignore_preprocessor, line@),
    {
        let t = trimmed(line);
        if ignore_preprocessor {
            if let Some(prefix) = self.directive_prefix() {
                if has_prefix(t, prefix) {
                    return LineType::Empty;
                }
            }
        }
        if t.len() == 0 {
            return LineType::Empty;
        }
        let n: usize = self.single_count();
        let mut k: usize = 0;
        while k < n
            invariant
                k <= n,
                n == self@.single_line.len(),
                t@ == trim(line@),
                t@.len() > 0,
                !(ignore_preprocessor && self@.preprocessor_prefix is Some && starts_with(
                    t@,
                    self@.preprocessor_prefix->0,
                )),
                leading_marker(self@.single_line, t@, 0) == leading_marker(
                    self@.single_line,
                    t@,
                    k as int,
                ),
            decreases n - k,
        {
            let marker = self.single_marker(k);
            if has_prefix(t, marker) {
                let content = rest_from(t, marker.len());
                if blank(content) {
                    return LineType::Empty;
                }
                return LineType::Comment;
            }
            k += 1;
        }
        let mut j: usize = 0;
        while j < n
            invariant
                j <= n,
                n == self@.single_line.len(),
                t@ == trim(line@),
                t@.len() > 0,
                !(ignore_preprocessor && self@.preprocessor_prefix is Some && starts_with(
                    t@,
                    self@.preprocessor_prefix->0,
                )),
                leading_marker(self@.single_line, t@, 0) is None,
                forall|i: int|
                    0 <= i < j ==> !(contains(line@, #[trigger] self@.single_line[i]) && !starts_with(
                        t@,
                        self@.single_line[i],
                    )),
            decreases n - j,
        {
            let marker = self.single_marker(j);
            let found = find_first(line, marker);
            proof {
                lemma_find(line@, marker@);
            }
            if found.is_some() && !has_prefix(t, marker) {
                return LineType::Mixed;
            }
            j += 1;
        }
        LineType::Logical
    }

    /// Applies the block comment pairs of a grammar without nesting to
    /// `line`.
    pub fn toggle(&self, line: &[char], in_comment: &mut bool) -> (inside: bool)
        ensures
            (inside, *final(in_comment)) == toggle_scan(
                line@,
                self@.multi_line,
                0,
                *old(in_comment),
                *old(in_comment),
            ),
    {
        let n: usize = self.pair_count();
        let len: usize = line.len();
        let mut inside: bool = *in_comment;
        let mut k: usize = 0;
        while k < n
            invariant
                k <= n,
                n == self@.multi_line.len(),
                len == line@.len(),
                toggle_scan(line@, self@.multi_line, 0, *old(in_comment), *old(in_comment))
                    == toggle_scan(line@, self@.multi_line, k as int, inside, *in_comment),
            decreases n - k,
        {
            let start = self.start_token(k);
            let end = self.end_token(k);
            if *in_comment {
                let closing = find_first(line, end);
                proof {
                    lemma_find(line@, end@);
                }
                if let Some(p) = closing {
                    *in_comment = false;
                    if !blank(rest_from(line, p + end.len())) {
                        return false;
                    }
                }
                inside = true;
            } else {
                let opening = find_first(line, start);
                proof {
                    lemma_find(line@, start@);
                }
                if let Some(s) = opening {
                    *in_comment = true;
                    let after = rest_from(line, s + start.len());
                    let closing = find_first(after, end);
                    proof {
                        lemma_find(after@, end@);
                    }
                    if let Some(e) = closing {
                        *in_comment = false;
                        let before = slice_subrange(line, 0, s);
                        let behind = rest_from(after, e + end.len());
                        proof {
                            assert(before@ == line@.take(s as int));
                        }
                        if !blank(before) || !blank(behind) {
                            return false;
                        }
                    }
                    inside = true;
                }
            }
            k += 1;
        }
        inside
    }

    /// Applies the block comment pairs of a nesting grammar to `line`.
    pub fn nest(&self, line: &[char], depth: &mut usize) -> (inside: bool)
        requires
            *old(depth) + line@.len() <= usize::MAX,
        ensures
            ({
                let scan = nested_scan(
                    NestedScan { rest: line@, depth: *old(depth) as int, seen: *old(depth) > 0 },
                    self@.multi_line,
                    0,
                );
                inside == scan.seen && *final(depth) == scan.depth
            }),
            *final(depth) <= *old(depth) + line@.len(),
    {
        let n: usize = self.pair_count();
        let len: usize = line.len();
        let ghost begin = NestedScan { rest: line@, depth: *old(depth) as int, seen: *old(depth) > 0 };
        let mut seen: bool = *depth > 0;
        let mut pos: usize = 0;
        let mut k: usize = 0;
        proof {
            assert(line@.skip(0) == line@);
        }
        while k < n
            invariant
                k <= n,
                n == self@.multi_line.len(),
                len == line@.len(),
                pos <= len,
                *depth - pos <= *old(depth),
                *old(depth) + len <= usize::MAX,
                nested_scan(begin, self@.multi_line, 0) == nested_scan(
                    NestedScan { rest: line@.skip(pos as int), depth: *depth as int, seen },
                    self@.multi_line,
                    k as int,
                ),
            decreases n - k,
        {
            let start = self.start_token(k);
            let end = self.end_token(k);
            let ghost entry = NestedScan { rest: line@.skip(pos as int), depth: *depth as int, seen };
            loop
                invariant
                    len == line@.len(),
                    pos <= len,
                    *depth - pos <= *old(depth),
                    *old(depth) + len <= usize::MAX,
                    nested_pair(entry, start@, end@) == nested_pair(
                        NestedScan { rest: line@.skip(pos as int), depth: *depth as int, seen },
                        start@,
                        end@,
                    ),
                ensures
                    len == line@.len(),
                    pos <= len,
                    *depth - pos <= *old(depth),
                    nested_pair(entry, start@, end@) == (NestedScan {
                        rest: line@.skip(pos as int),
                        depth: *depth as int,
                        seen,
                    }),
                decreases len - pos,
            {
                let rest = rest_from(line, pos);
                let next_start = find_first(rest, start);
                let next_end = find_first(rest, end);
                proof {
                    lemma_find(rest@, start@);
                    lemma_find(rest@, end@);
                }
                let start_first: bool = match (next_start, next_end) {
                    (Some(s), Some(e)) => s < e,
                    (Some(_), None) => true,
                    _ => false,
                };
                if start_first {
                    let s: usize = next_start.unwrap();
                    if s + start.len() == 0 {
                        break;
                    }
                    proof {
                        assert(rest@.skip(s + start@.len()) == line@.skip(pos + s + start@.len()));
                    }
                    *depth += 1;
                    seen = true;
                    pos = pos + s + start.len();
                } else if let Some(e) = next_end {
                    if e + end.len() == 0 {
                        break;
                    }
                    proof {
                        assert(rest@.skip(e + end@.len()) == line@.skip(pos + e + end@.len()));
                    }
                    if *depth > 0 {
                        *depth -= 1;
                    }
                    pos = pos + e + end.len();
                } else {
                    break;
                }
            }
            k += 1;
        }
        seen
    }

    /// Whether `line` counts as inside a block comment; the state is brought
    /// forward over the line.
    pub fn advance(&self, line: &[char], in_comment: &mut bool, depth: &mut usize) -> (inside: bool)
        requires
            self@.nested && self@.multi_line.len() > 0 ==> *old(depth) + line@.len() <= usize::MAX,
        ensures
            (inside, ScanState { in_comment: *final(in_comment), depth: *final(depth) as int })
                == advance(
                self@,
                line@,
                ScanState { in_comment: *old(in_comment), depth: *old(depth) as int },
            ),
            *final(depth) <= *old(depth) + line@.len(),
    {
        if self.pair_count() == 0 {
            false
        } else if self.nests() {
            self.nest(line, depth)
        } else {
            self.toggle(line, in_comment)
        }
    }
}

/// Classifies lines by the comment grammar of one language.
pub struct CommentParser {
    language: Language,
    ignore_preprocessor: bool,
    tokens: Tokens,
}

impl CommentParser {
    /// The grammar that this parser classifies by.
    pub closed spec fn grammar(&self) -> Grammar {
        self.tokens@
    }

    /// Whether this parser counts preprocessor directives as empty lines.
    pub closed spec fn ignores_preprocessor(&self) -> bool {
        self.ignore_preprocessor
    }

    /// The language that this parser was made for.
    pub closed spec fn spec_language(&self) -> Language {
        self.language
    }

    /// A parser for `language`.
    pub fn new(language: Language, ignore_preprocessor: bool) -> (parser: Self)
        ensures
            parser.grammar() == language@.grammar,
            parser.ignores_preprocessor() == ignore_preprocessor,
            parser.spec_language() == language,
    {
        let tokens = Tokens::compile(&language);
        CommentParser { language, ignore_preprocessor, tokens }
    }

    /// The language that this parser was made for.
    pub fn language(&self) -> (l: &Language)
        ensures
            *l == self.spec_language(),
    {
        &self.language
    }

    /// The kind of `line` when it is not inside a block comment.
    pub fn parse_line(&self, line: &str) -> (kind: LineType)
        ensures
            kind == classify(self.grammar(), self.ignores_preprocessor(), line@),
    {
        let chars = chars_of(line);
        self.tokens.classify(self.ignore_preprocessor, chars.as_slice())
    }

    /// Whether `line` counts as inside a block comment. `in_comment` and
    /// `depth` hold the state that earlier lines left and are brought forward
    /// over `line`.
    pub fn is_in_multiline_comment(
        &self,
        line: &str,
        in_comment: &mut bool,
        depth: &mut usize,
    ) -> (inside: bool)
        requires
            self.grammar().nested && self.grammar().multi_line.len() > 0 ==> *old(depth)
                + line@.len() <= usize::MAX,
        ensures
            (inside, ScanState { in_comment: *final(in_comment), depth: *final(depth) as int })
                == advance(
                self.grammar(),
                line@,
                ScanState { in_comment: *old(in_comment), depth: *old(depth) as int },
            ),
    {
        let chars = chars_of(line);
        self.tokens.advance(chars.as_slice(), in_comment, depth)
    }
}

/// The state after the lines of a file, classified one after the other
/// from `state`.
pub open spec fn run_lines(g: Grammar, lines: Seq<Seq<char>>, state: ScanState) -> ScanState
    decreases lines.len(),
{
    if lines.len() == 0 {
        state
    } else {
        advance(g, lines.last(), run_lines(g, lines.drop_last(), state)).1
    }
}

/// `n` lines that each hold `line`.
pub open spec fn repeated(line: Seq<char>, n: nat) -> Seq<Seq<char>> {
    Seq::new(n, |i: int| line)
}

/// Whether no token of a pair other than the one at index `j` occurs in
/// `line`.
pub open spec fn free_of_other_tokens(
    pairs: Seq<(Seq<char>, Seq<char>)>,
    j: int,
    line: Seq<char>,
) -> bool {
    forall|i: int|
        0 <= i < pairs.len() && i != j ==> !contains(line, (#[trigger] pairs[i]).0) && !contains(
            line,
            pairs[i].1,
        )
}

proof fn lemma_toggle_stays_open(
    line: Seq<char>,
    pairs: Seq<(Seq<char>, Seq<char>)>,
    from: int,
    inside: bool,
)
    requires
        0 <= from <= pairs.len(),
        forall|k: int| 0 <= k < pairs.len() ==> !contains(line, (#[trigger] pairs[k]).1),
    ensures
        toggle_scan(line, pairs, from, inside, true) == (
            if from < pairs.len() {
                true
            } else {
                inside
            },
            true,
        ),
    decreases pairs.len() - from,
{
    if from < pairs.len() {
        lemma_find(line, pairs[from].1);
        lemma_toggle_stays_open(line, pairs, from + 1, true);
    }
}

/// In a grammar without nesting, a line that follows an open block comment
/// and holds no end token is inside the comment: it is a comment or empty,
/// never logical, and the comment stays open.
pub proof fn lemma_line_in_open_comment(
    g: Grammar,
    ignore_preprocessor: bool,
    line: Seq<char>,
    depth: int,
)
    requires
        !g.nested,
        g.multi_line.len() > 0,
        forall|k: int| 0 <= k < g.multi_line.len() ==> !contains(line, (#[trigger] g.multi_line[k]).1),
    ensures
        ({
            let state = ScanState { in_comment: true, depth };
            let (kind, after) = classify_next(g, ignore_preprocessor, line, state);
            &&& advance(g, line, state).0
            &&& kind == LineType::Comment || kind == LineType::Empty
            &&& after == state
        }),
{
    lemma_toggle_stays_open(line, g.multi_line, 0, true);
}

proof fn lemma_nested_pair_depth(scan: NestedScan, start: Seq<char>, end: Seq<char>)
    requires
        scan.depth >= 0,
    ensures
        nested_pair(scan, start, end).depth >= 0,
    decreases scan.rest.len(),
{
    match nearest_token(scan.rest, start, end) {
        Some((token, behind)) => {
            if 0 < behind <= scan.rest.len() {
                lemma_nested_pair_depth(take_token(scan, token, behind), start, end);
            }
        },
        None => {},
    }
}

proof fn lemma_nested_scan_depth(scan: NestedScan, pairs: Seq<(Seq<char>, Seq<char>)>, from: int)
    requires
        scan.depth >= 0,
    ensures
        nested_scan(scan, pairs, from).depth >= 0,
    decreases pairs.len() - from,
{
    if 0 <= from < pairs.len() {
        lemma_nested_pair_depth(scan, pairs[from].0, pairs[from].1);
        lemma_nested_scan_depth(nested_pair(scan, pairs[from].0, pairs[from].1), pairs, from + 1);
    }
}

/// The depth never goes below zero: from a depth that is not negative
/// every line leads to one that is not negative.
pub proof fn lemma_depth_not_negative(g: Grammar, line: Seq<char>, state: ScanState)
    requires
        state.depth >= 0,
    ensures
        advance(g, line, state).1.depth >= 0,
{
    if g.multi_line.len() > 0 && g.nested {
        lemma_nested_scan_depth(
            NestedScan { rest: line, depth: state.depth, seen: state.depth > 0 },
            g.multi_line,
            0,
        );
    }
}

proof fn lemma_find_whole(s: Seq<char>)
    ensures
        find(s, s) == Some(0int),
{
    assert(s.subrange(0, s.len() as int) == s);
}

/// What occurs in a line behind some index occurs in the line.
proof fn lemma_contains_behind(s: Seq<char>, k: int, pat: Seq<char>)
    requires
        0 <= k <= s.len(),
        contains(s.skip(k), pat),
    ensures
        contains(s, pat),
{
    let i = choose|i: int| matches_at(s.skip(k), pat, i);
    assert(s.subrange(k + i, k + i + pat.len()) == s.skip(k).subrange(i, i + pat.len()));
    assert(matches_at(s, pat, k + i));
}

/// A pair of which no token occurs in what is left of the line leaves the
/// scan as it is.
proof fn lemma_pair_idle(scan: NestedScan, start: Seq<char>, end: Seq<char>)
    requires
        !contains(scan.rest, start),
        !contains(scan.rest, end),
    ensures
        nested_pair(scan, start, end) == scan,
{
    lemma_find(scan.rest, start);
    lemma_find(scan.rest, end);
}

/// What a pair leaves of the line is what stands behind some index.
proof fn lemma_pair_leaves_rest(scan: NestedScan, start: Seq<char>, end: Seq<char>) -> (k: int)
    ensures
        0 <= k <= scan.rest.len(),
        nested_pair(scan, start, end).rest == scan.rest.skip(k),
    decreases scan.rest.len(),
{
    match nearest_token(scan.rest, start, end) {
        Some((token, behind)) => {
            if 0 < behind <= scan.rest.len() {
                let next = take_token(scan, token, behind);
                let k = lemma_pair_leaves_rest(next, start, end);
                assert(scan.rest.skip(behind).skip(k) == scan.rest.skip(behind + k));
                behind + k
            } else {
                assert(scan.rest.skip(0) == scan.rest);
                0
            }
        },
        None => {
            assert(scan.rest.skip(0) == scan.rest);
            0
        },
    }
}

/// Pairs of which no token occurs in what is left of the line leave the
/// scan as it is.
proof fn lemma_scan_idle(scan: NestedScan, pairs: Seq<(Seq<char>, Seq<char>)>, from: int, to: int)
    requires
        0 <= from <= to <= pairs.len(),
        forall|i: int|
            from <= i < to ==> !contains(scan.rest, (#[trigger] pairs[i]).0) && !contains(
                scan.rest,
                pairs[i].1,
            ),
    ensures
        nested_scan(scan, pairs, from) == nested_scan(scan, pairs, to),
    decreases to - from,
{
    if from < to {
        lemma_pair_idle(scan, pairs[from].0, pairs[from].1);
        lemma_scan_idle(scan, pairs, from + 1, to);
    }
}

/// On a line in which no token of another pair occurs, only the pair at
/// index `j` counts.
proof fn lemma_one_pair_counts(g: Grammar, j: int, line: Seq<char>, state: ScanState)
    requires
        g.nested,
        0 <= j < g.multi_line.len(),
        free_of_other_tokens(g.multi_line, j, line),
    ensures
        advance(g, line, state).1 == (ScanState {
            in_comment: state.in_comment,
            depth: nested_pair(
                NestedScan { rest: line, depth: state.depth, seen: state.depth > 0 },
                g.multi_line[j].0,
                g.multi_line[j].1,
            ).depth,
        }),
{
    let pairs = g.multi_line;
    let begin = NestedScan { rest: line, depth: state.depth, seen: state.depth > 0 };
    let after = nested_pair(begin, pairs[j].0, pairs[j].1);
    lemma_scan_idle(begin, pairs, 0, j);
    let k = lemma_pair_leaves_rest(begin, pairs[j].0, pairs[j].1);
    assert forall|i: int| j + 1 <= i < pairs.len() implies !contains(
        after.rest,
        (#[trigger] pairs[i]).0,
    ) && !contains(after.rest, pairs[i].1) by {
        if contains(after.rest, pairs[i].0) {
            lemma_contains_behind(line, k, pairs[i].0);
        }
        if contains(after.rest, pairs[i].1) {
            lemma_contains_behind(line, k, pairs[i].1);
        }
    }
    lemma_scan_idle(after, pairs, j + 1, pairs.len() as int);
    assert(nested_scan(after, pairs, pairs.len() as int) == after);
    assert(nested_scan(begin, pairs, j) == nested_scan(after, pairs, j + 1));
}

/// What a line that is the end token does to the depth: one less, but not
/// below zero.
proof fn lemma_end_line(start: Seq<char>, end: Seq<char>, depth: int, seen: bool)
    requires
        start.len() > 0,
        end.len() > 0,
    ensures
        nested_pair(NestedScan { rest: end, depth, seen }, start, end).depth == one_less(depth),
{
    let scan = NestedScan { rest: end, depth, seen };
    lemma_find_whole(end);
    lemma_find(end, start);
    let next = take_token(scan, Token::End, end.len() as int);
    assert(nearest_token(end, start, end) == Some((Token::End, end.len() as int)));
    assert(next.rest.len() == 0);
    assert(find(next.rest, start) is None);
    assert(find(next.rest, end) is None);
    assert(nested_pair(next, start, end) == next);
}

/// Where what is left of a line is too short for a start token, the depth
/// does not rise.
proof fn lemma_no_rise(scan: NestedScan, start: Seq<char>, end: Seq<char>)
    requires
        scan.rest.len() < start.len(),
    ensures
        nested_pair(scan, start, end).depth <= scan.depth,
    decreases scan.rest.len(),
{
    match nearest_token(scan.rest, start, end) {
        Some((token, behind)) => {
            if 0 < behind <= scan.rest.len() {
                lemma_no_rise(take_token(scan, token, behind), start, end);
            }
        },
        None => {},
    }
}

/// A line that is the start token raises the depth by one at most.
proof fn lemma_start_line(start: Seq<char>, end: Seq<char>, depth: int, seen: bool)
    requires
        start.len() > 0,
        end.len() > 0,
    ensures
        nested_pair(NestedScan { rest: start, depth, seen }, start, end).depth <= depth + 1,
{
    let scan = NestedScan { rest: start, depth, seen };
    lemma_find_whole(start);
    lemma_find(start, end);
    if starts_with(start, end) {
        assert(find(start, end) == Some(0int));
        let next = take_token(scan, Token::End, end.len() as int);
        assert(nearest_token(start, start, end) == Some((Token::End, end.len() as int)));
        lemma_no_rise(next, start, end);
    } else {
        let next = take_token(scan, Token::Start, start.len() as int);
        assert(nearest_token(start, start, end) == Some((Token::Start, start.len() as int)));
        assert(next.rest.len() == 0);
        assert(find(next.rest, start) is None);
        assert(find(next.rest, end) is None);
        assert(nested_pair(next, start, end) == next);
    }
}

proof fn lemma_run_start_lines(g: Grammar, j: int, n: nat)
    requires
        g.nested,
        0 <= j < g.multi_line.len(),
        g.multi_line[j].0.len() > 0,
        g.multi_line[j].1.len() > 0,
        free_of_other_tokens(g.multi_line, j, g.multi_line[j].0),
    ensures
        ({
            let after = run_lines(
                g,
                repeated(g.multi_line[j].0, n),
                ScanState { in_comment: false, depth: 0 },
            );
            &&& !after.in_comment
            &&& 0 <= after.depth <= n
        }),
    decreases n,
{
    let start = g.multi_line[j].0;
    let end = g.multi_line[j].1;
    if n > 0 {
        let lines = repeated(start, n);
        assert(lines.drop_last() == repeated(start, (n - 1) as nat));
        lemma_run_start_lines(g, j, (n - 1) as nat);
        let before = run_lines(g, lines.drop_last(), ScanState { in_comment: false, depth: 0 });
        lemma_one_pair_counts(g, j, start, before);
        lemma_nested_pair_depth(
            NestedScan { rest: start, depth: before.depth, seen: before.depth > 0 },
            start,
            end,
        );
        lemma_start_line(start, end, before.depth, before.depth > 0);
    }
}

proof fn lemma_run_end_lines(g: Grammar, j: int, n: nat, state: ScanState)
    requires
        g.nested,
        0 <= j < g.multi_line.len(),
        g.multi_line[j].0.len() > 0,
        g.multi_line[j].1.len() > 0,
        free_of_other_tokens(g.multi_line, j, g.multi_line[j].1),
        state.depth >= 0,
    ensures
        run_lines(g, repeated(g.multi_line[j].1, n), state) == (ScanState {
            in_comment: state.in_comment,
            depth: if state.depth >= n {
                state.depth - n
            } else {
                0
            },
        }),
    decreases n,
{
    let end = g.multi_line[j].1;
    if n > 0 {
        let lines = repeated(end, n);
        assert(lines.drop_last() == repeated(end, (n - 1) as nat));
        lemma_run_end_lines(g, j, (n - 1) as nat, state);
        let before = run_lines(g, lines.drop_last(), state);
        lemma_end_line(g.multi_line[j].0, end, before.depth, before.depth > 0);
        lemma_one_pair_counts(g, j, end, before);
    }
}

proof fn lemma_run_concat(g: Grammar, a: Seq<Seq<char>>, b: Seq<Seq<char>>, state: ScanState)
    ensures
        run_lines(g, a + b, state) == run_lines(g, b, run_lines(g, a, state)),
    decreases b.len(),
{
    if b.len() == 0 {
        assert(a + b == a);
    } else {
        assert((a + b).drop_last() == a + b.drop_last());
        assert((a + b).last() == b.last());
        lemma_run_concat(g, a, b.drop_last(), state);
    }
}

/// In a grammar that nests, lines that hold the start token of a pair,
/// followed by as many lines that hold its end token, lead from the state
/// in which nothing is open back to that state, if the tokens of the pair
/// are not empty and no token of another pair occurs in them.
pub proof fn lemma_balanced_nesting(g: Grammar, j: int, n: nat)
    requires
        g.nested,
        0 <= j < g.multi_line.len(),
        g.multi_line[j].0.len() > 0,
        g.multi_line[j].1.len() > 0,
        free_of_other_tokens(g.multi_line, j, g.multi_line[j].0),
        free_of_other_tokens(g.multi_line, j, g.multi_line[j].1),
    ensures
        run_lines(
            g,
            repeated(g.multi_line[j].0, n) + repeated(g.multi_line[j].1, n),
            ScanState { in_comment: false, depth: 0 },
        ) == (ScanState { in_comment: false, depth: 0 }),
{
    let closed = ScanState { in_comment: false, depth: 0 };
    let starts = repeated(g.multi_line[j].0, n);
    let ends = repeated(g.multi_line[j].1, n);
    lemma_run_concat(g, starts, ends, closed);
    lemma_run_start_lines(g, j, n);
    lemma_run_end_lines(g, j, n, run_lines(g, starts, closed));
}

} // verus!
