//! Folding ranges: brace blocks, block comments and `#region` / `#endregion` regions,
//! found in one pass over the text.
use vstd::prelude::*;
use vstd::string::StringSliceAdditionalSpecFns;
use crate::line_index::{
    LineIndex, LINE_FEED, line_starts_of, line_of, lemma_line_starts_shape, lemma_line_of_offset,
    lemma_line_of_step, lemma_line_of_end, lemma_line_of_bounds,
};

verus! {

/// The byte `{`.
pub const OPEN_BRACE: u8 = 0x7b;

/// The byte `}`.
pub const CLOSE_BRACE: u8 = 0x7d;

/// The byte `/`.
pub const SLASH: u8 = 0x2f;

/// The byte `*`.
pub const STAR: u8 = 0x2a;

/// What a folding range folds, when it is not a plain block.
#[derive(Clone, Copy, Debug, PartialEq, Eq, Structural)]
pub enum FoldingRangeKind {
    Comment,
    Region,
}

/// A span of lines, both zero-based and inclusive, that an editor can collapse.
#[derive(Clone, Copy, Debug, PartialEq, Eq, Structural)]
pub struct FoldingRange {
    pub start_line: usize,
    pub end_line: usize,
    pub kind: Option<FoldingRangeKind>,
}

/// The state of the scan: the start lines of the open braces, comments and regions, innermost
/// last, and the ranges found so far.
pub struct FoldState {
    pub braces: Seq<usize>,
    pub comments: Seq<usize>,
    pub regions: Seq<usize>,
    pub ranges: Seq<FoldingRange>,
}

pub open spec fn fold(start_line: usize, end_line: usize, kind: Option<FoldingRangeKind>) -> FoldingRange {
    FoldingRange { start_line, end_line, kind }
}

pub open spec fn initial_state() -> FoldState {
    FoldState { braces: seq![], comments: seq![], regions: seq![], ranges: seq![] }
}

/// The bytes of `#region`.
pub open spec fn region_start_marker() -> Seq<u8> {
    seq![0x23u8, 0x72u8, 0x65u8, 0x67u8, 0x69u8, 0x6fu8, 0x6eu8]
}

/// The bytes of `#endregion`.
pub open spec fn region_end_marker() -> Seq<u8> {
    seq![0x23u8, 0x65u8, 0x6eu8, 0x64u8, 0x72u8, 0x65u8, 0x67u8, 0x69u8, 0x6fu8, 0x6eu8]
}

/// Whether `pat` occurs in `s`.
pub open spec fn contains(s: Seq<u8>, pat: Seq<u8>) -> bool {
    exists|q: int| 0 <= q <= s.len() - pat.len() && #[trigger] s.subrange(q, q + pat.len()) == pat
}

/// Whether `/*` starts at `i`.
pub open spec fn opens_comment(t: Seq<u8>, i: int) -> bool {
    t[i] == SLASH && i + 1 < t.len() && t[i + 1] == STAR
}

/// Whether `*/` starts at `i`.
pub open spec fn closes_comment(t: Seq<u8>, i: int) -> bool {
    t[i] == STAR && i + 1 < t.len() && t[i + 1] == SLASH
}

/// The number of bytes that the scan takes at `i`: the two of a comment delimiter, else one.
pub open spec fn token_len(t: Seq<u8>, i: int) -> int {
    if opens_comment(t, i) || closes_comment(t, i) {
        2
    } else {
        1
    }
}

/// The whole lines `first..=last` of `t`, through the line feed that ends `last` if any.
pub open spec fn lines_text(t: Seq<u8>, first: int, last: int) -> Seq<u8> {
    let ls = line_starts_of(t);
    let end = if last + 1 < ls.len() {
        ls[last + 1] as int
    } else {
        t.len() as int
    };
    t.subrange(ls[first] as int, end)
}

/// Closing a comment on line `line`: the lines it spans decide whether it opens a region,
/// closes one, or is a plain comment, which folds when it spans more than one line.
pub open spec fn close_comment(t: Seq<u8>, s: FoldState, line: usize) -> FoldState {
    if s.comments.len() == 0 {
        s
    } else {
        let start = s.comments.last();
        let s1 = FoldState { comments: s.comments.drop_last(), ..s };
        let text = lines_text(t, start as int, line as int);
        if contains(text, region_start_marker()) {
            FoldState { regions: s1.regions.push(start), ..s1 }
        } else if contains(text, region_end_marker()) {
            if s1.regions.len() == 0 {
                s1
            } else {
                FoldState {
                    regions: s1.regions.drop_last(),
                    ranges: s1.ranges.push(
                        fold(s1.regions.last(), line, Some(FoldingRangeKind::Region)),
                    ),
                    ..s1
                }
            }
        } else if start != line {
            FoldState { ranges: s1.ranges.push(fold(start, line, Some(FoldingRangeKind::Comment))), ..s1 }
        } else {
            s1
        }
    }
}

/// Closing a brace on line `line`: the block folds when it spans more than one line.
pub open spec fn close_brace(s: FoldState, line: usize) -> FoldState {
    if s.braces.len() == 0 {
        s
    } else {
        let start = s.braces.last();
        let s1 = FoldState { braces: s.braces.drop_last(), ..s };
        if start != line {
            FoldState { ranges: s1.ranges.push(fold(start, line, None)), ..s1 }
        } else {
            s1
        }
    }
}

/// The effect of the token at byte `i` on the scan.
pub open spec fn step(t: Seq<u8>, i: int, s: FoldState) -> FoldState {
    let line = line_of(t, i) as usize;
    if t[i] == OPEN_BRACE {
        FoldState { braces: s.braces.push(line), ..s }
    } else if t[i] == CLOSE_BRACE {
        close_brace(s, line)
    } else if opens_comment(t, i) {
        FoldState { comments: s.comments.push(line), ..s }
    } else if closes_comment(t, i) {
        close_comment(t, s, line)
    } else {
        s
    }
}

/// The scan of `t` from byte `i` on, starting in state `s`.
pub open spec fn scan(t: Seq<u8>, i: int, s: FoldState) -> FoldState
    decreases t.len() - i,
{
    if i < 0 || i >= t.len() {
        s
    } else {
        scan(t, i + token_len(t, i), step(t, i, s))
    }
}

/// The last line that holds content: a line feed at the very end opens no line of its own.
pub open spec fn last_content_line(t: Seq<u8>) -> int {
    let n = line_of(t, t.len() as int);
    if t.len() > 0 && t.last() == LINE_FEED {
        n - 1
    } else {
        n
    }
}

/// The ranges of the constructs still open at the end, innermost first: each runs to `last`,
/// and one that starts on `last` itself is dropped.
pub open spec fn close_all(stack: Seq<usize>, last: usize, kind: Option<FoldingRangeKind>) -> Seq<
    FoldingRange,
>
    decreases stack.len(),
{
    if stack.len() == 0 {
        seq![]
    } else {
        let start = stack.last();
        let head = if start < last {
            seq![fold(start, last, kind)]
        } else {
            seq![]
        };
        head + close_all(stack.drop_last(), last, kind)
    }
}

/// The folding ranges of `t`, in the order in which the scan finds them.
pub open spec fn folding_ranges_of(t: Seq<u8>) -> Seq<FoldingRange> {
    let s = scan(t, 0, initial_state());
    let last = last_content_line(t) as usize;
    s.ranges + close_all(s.braces, last, None) + close_all(
        s.comments,
        last,
        Some(FoldingRangeKind::Comment),
    ) + close_all(s.regions, last, Some(FoldingRangeKind::Region))
}

fn region_start_bytes() -> (r: Vec<u8>)
    ensures
        r@ == region_start_marker(),
{
    let r: Vec<u8> = vec![0x23u8, 0x72u8, 0x65u8, 0x67u8, 0x69u8, 0x6fu8, 0x6eu8];
    assert(r@ =~= region_start_marker());
    r
}

fn region_end_bytes() -> (r: Vec<u8>)
    ensures
        r@ == region_end_marker(),
{
    let r: Vec<u8> = vec![0x23u8, 0x65u8, 0x6eu8, 0x64u8, 0x72u8, 0x65u8, 0x67u8, 0x69u8, 0x6fu8, 0x6eu8];
    assert(r@ =~= region_end_marker());
    r
}

/// Whether `pat` occurs in the bytes `a..b` of `bytes`.
fn contains_between(bytes: &[u8], a: usize, b: usize, pat: &Vec<u8>) -> (r: bool)
    requires
        a <= b <= bytes@.len(),
    ensures
        r == contains(bytes@.subrange(a as int, b as int), pat@),
{
    let ghost s = bytes@.subrange(a as int, b as int);
    let m = pat.len();
    if m > b - a {
        return false;
    }
    if m == 0 {
        assert(s.subrange(0, 0 + pat@.len() as int) =~= pat@);
        return true;
    }
    let mut k: usize = a;
    while k <= b - m
        invariant
            s == bytes@.subrange(a as int, b as int),
            m == pat@.len(),
            a <= k <= b - m + 1,
            1 <= m <= b - a,
            b <= bytes@.len(),
            forall|q: int| a <= q < k ==> #[trigger] bytes@.subrange(q, q + m) != pat@,
        decreases b - m + 1 - k,
    {
        let mut j: usize = 0;
        let mut same = true;
        while j < m
            invariant
                m == pat@.len(),
                k + m <= b,
                b <= bytes@.len(),
                j <= m,
                same ==> forall|x: int| 0 <= x < j ==> bytes@[k + x] == pat@[x],
                !same ==> bytes@.subrange(k as int, k + m) != pat@,
            decreases m - j,
        {
            if bytes[k + j] != pat[j] {
                assert(bytes@.subrange(k as int, k + m)[j as int] != pat@[j as int]);
                same = false;
            }
            j = j + 1;
        }
        if same {
            assert(bytes@.subrange(k as int, k + m) =~= pat@);
            assert(s.subrange(k - a, k - a + m) =~= bytes@.subrange(k as int, k + m));
            return true;
        }
        k = k + 1;
    }
    assert forall|q: int| 0 <= q <= s.len() - pat@.len() implies #[trigger] s.subrange(q, q + pat@.len()) != pat@ by {
        assert(s.subrange(q, q + m) =~= bytes@.subrange(a + q, a + q + m));
    }
    false
}

/// Pops every marker left on `stack` and adds, innermost first, a range of `kind` to `last`
/// for each one that starts before `last`.
fn close_unterminated(
    ranges: &mut Vec<FoldingRange>,
    stack: &mut Vec<usize>,
    last: usize,
    kind: Option<FoldingRangeKind>,
)
    ensures
        final(ranges)@ == old(ranges)@ + close_all(old(stack)@, last, kind),
{
    while stack.len() > 0
        invariant
            ranges@ + close_all(stack@, last, kind) == old(ranges)@ + close_all(old(stack)@, last, kind),
        decreases stack@.len(),
    {
        let ghost before = ranges@;
        let ghost st = stack@;
        let start = stack.pop().unwrap();
        assert(stack@ == st.drop_last());
        if start < last {
            ranges.push(FoldingRange { start_line: start, end_line: last, kind });
        }
        assert(before + close_all(st, last, kind) =~= ranges@ + close_all(stack@, last, kind));
    }
}

/// The folding ranges of `text`, whose line starts `index` holds: one scan that keeps a stack
/// of open braces, one of open comments and one of open regions.
pub fn compute_folding_ranges(text: &str, index: &LineIndex) -> (r: Vec<FoldingRange>)
    requires
        index.indexes(text.spec_bytes()),
    ensures
        r@ == folding_ranges_of(text.spec_bytes()),
{
    let bytes = text.as_bytes();
    let ghost t = bytes@;
    let n = bytes.len();
    let region_start = region_start_bytes();
    let region_end = region_end_bytes();
    let mut ranges: Vec<FoldingRange> = Vec::new();
    let mut braces: Vec<usize> = Vec::new();
    let mut comments: Vec<usize> = Vec::new();
    let mut regions: Vec<usize> = Vec::new();
    let mut line: usize = 0;
    let mut i: usize = 0;
    proof {
        lemma_line_starts_shape(t);
        assert(t.take(0) =~= Seq::<u8>::empty());
    }
    while i < n
        invariant
            t == bytes@,
            n == t.len(),
            index.indexes(t),
            region_start@ == region_start_marker(),
            region_end@ == region_end_marker(),
            i <= n,
            line <= i,
            line == line_of(t, i as int),
            forall|j: int| 0 <= j < comments@.len() ==> comments@[j] <= line,
            scan(t, i as int, FoldState { braces: braces@, comments: comments@, regions: regions@, ranges: ranges@ })
                == scan(t, 0, initial_state()),
        decreases n - i,
    {
        let ghost before = FoldState { braces: braces@, comments: comments@, regions: regions@, ranges: ranges@ };
        proof {
            lemma_line_of_step(t, i as int);
        }
        let c = bytes[i];
        if c == OPEN_BRACE {
            braces.push(line);
            i = i + 1;
        } else if c == CLOSE_BRACE {
            if braces.len() > 0 {
                let start = braces.pop().unwrap();
                if start != line {
                    ranges.push(FoldingRange { start_line: start, end_line: line, kind: None });
                }
            }
            i = i + 1;
        } else if c == SLASH && i + 1 < n && bytes[i + 1] == STAR {
            comments.push(line);
            proof {
                lemma_line_of_step(t, i + 1);
            }
            i = i + 2;
        } else if c == STAR && i + 1 < n && bytes[i + 1] == SLASH {
            if comments.len() > 0 {
                let start = comments.pop().unwrap();
                proof {
                    lemma_line_of_offset(t, i as int);
                    lemma_line_starts_shape(t);
                }
                let a = index.line_start(start).unwrap();
                let b = match index.line_start(line + 1) {
                    Some(b) => b,
                    None => n,
                };
                if contains_between(bytes, a, b, &region_start) {
                    regions.push(start);
                } else if contains_between(bytes, a, b, &region_end) {
                    if regions.len() > 0 {
                        let region = regions.pop().unwrap();
                        ranges.push(
                            FoldingRange {
                                start_line: region,
                                end_line: line,
                                kind: Some(FoldingRangeKind::Region),
                            },
                        );
                    }
                } else if start != line {
                    ranges.push(
                        FoldingRange {
                            start_line: start,
                            end_line: line,
                            kind: Some(FoldingRangeKind::Comment),
                        },
                    );
                }
            }
            proof {
                lemma_line_of_step(t, i + 1);
            }
            i = i + 2;
        } else {
            if c == LINE_FEED {
                line = line + 1;
            }
            i = i + 1;
        }
        assert(scan(t, i as int, FoldState { braces: braces@, comments: comments@, regions: regions@, ranges: ranges@ })
            == scan(t, 0, initial_state()));
    }
    proof {
        lemma_line_of_end(t);
        if n > 0 {
            lemma_line_of_step(t, n - 1);
        }
    }
    let mut last = index.line_count() - 1;
    if n > 0 && bytes[n - 1] == LINE_FEED {
        last = last - 1;
    }
    close_unterminated(&mut ranges, &mut braces, last, None);
    close_unterminated(&mut ranges, &mut comments, last, Some(FoldingRangeKind::Comment));
    close_unterminated(&mut ranges, &mut regions, last, Some(FoldingRangeKind::Region));
    ranges
}

/// Whether byte `i` of `t` begins no brace, no comment opener and no comment closer.
pub open spec fn is_plain_byte(t: Seq<u8>, i: int) -> bool {
    t[i] != OPEN_BRACE && t[i] != CLOSE_BRACE && !opens_comment(t, i) && !closes_comment(t, i)
}

proof fn lemma_scan_plain(t: Seq<u8>, i: int, s: FoldState)
    requires
        0 <= i,
        forall|j: int| i <= j < t.len() ==> is_plain_byte(t, j),
    ensures
        scan(t, i, s) == s,
    decreases t.len() - i,
{
    if i < t.len() {
        assert(is_plain_byte(t, i));
        lemma_scan_plain(t, i + 1, s);
    }
}

/// A text without braces and without comment delimiters has no folding ranges.
pub proof fn lemma_no_markers_no_folds(t: Seq<u8>)
    requires
        forall|j: int| 0 <= j < t.len() ==> is_plain_byte(t, j),
    ensures
        folding_ranges_of(t) == Seq::<FoldingRange>::empty(),
{
    lemma_scan_plain(t, 0, initial_state());
    assert(folding_ranges_of(t) =~= Seq::<FoldingRange>::empty());
}

proof fn lemma_single_line_of(t: Seq<u8>, i: int)
    requires
        0 <= i <= t.len(),
        forall|j: int| 0 <= j < t.len() ==> t[j] != LINE_FEED,
    ensures
        line_starts_of(t.take(i)) == seq![0usize],
        line_of(t, i) == 0,
    decreases i,
{
    if i > 0 {
        assert(t.take(i).drop_last() =~= t.take(i - 1));
        lemma_single_line_of(t, i - 1);
    } else {
        assert(t.take(0) =~= Seq::<u8>::empty());
    }
}

/// The state of a scan over the one line `t`: every open marker started on line 0, a region
/// is open only if the line holds `#region`, and nothing has folded.
pub open spec fn is_single_line_state(t: Seq<u8>, s: FoldState) -> bool {
    &&& forall|j: int| 0 <= j < s.braces.len() ==> s.braces[j] == 0
    &&& forall|j: int| 0 <= j < s.comments.len() ==> s.comments[j] == 0
    &&& forall|j: int| 0 <= j < s.regions.len() ==> s.regions[j] == 0
    &&& s.regions.len() > 0 ==> contains(t, region_start_marker())
    &&& s.ranges.len() == 0
}

proof fn lemma_scan_single_line(t: Seq<u8>, i: int, s: FoldState)
    requires
        0 <= i,
        forall|j: int| 0 <= j < t.len() ==> t[j] != LINE_FEED,
        is_single_line_state(t, s),
    ensures
        is_single_line_state(t, scan(t, i, s)),
    decreases t.len() - i,
{
    if i < t.len() {
        lemma_single_line_of(t, i);
        lemma_single_line_of(t, t.len() as int);
        assert(t.take(t.len() as int) =~= t);
        assert(line_starts_of(t) == seq![0usize]);
        assert(lines_text(t, 0, 0) =~= t);
        let n = step(t, i, s);
        assert(is_single_line_state(t, n));
        lemma_scan_single_line(t, i + token_len(t, i), n);
    }
}

proof fn lemma_close_all_at_start(stack: Seq<usize>, kind: Option<FoldingRangeKind>)
    requires
        forall|j: int| 0 <= j < stack.len() ==> stack[j] == 0,
    ensures
        close_all(stack, 0, kind) == Seq::<FoldingRange>::empty(),
    decreases stack.len(),
{
    if stack.len() > 0 {
        lemma_close_all_at_start(stack.drop_last(), kind);
        assert(close_all(stack, 0, kind) =~= Seq::<FoldingRange>::empty());
    }
}

/// A text on one line has no folding ranges: a brace block or a comment that opens and
/// closes on the same line folds nothing, and a region marker on it can only open regions,
/// which start on the last line and so fold nothing either.
pub proof fn lemma_single_line_no_folds(t: Seq<u8>)
    requires
        forall|j: int| 0 <= j < t.len() ==> t[j] != LINE_FEED,
    ensures
        folding_ranges_of(t) == Seq::<FoldingRange>::empty(),
{
    let s = scan(t, 0, initial_state());
    lemma_scan_single_line(t, 0, initial_state());
    lemma_single_line_of(t, t.len() as int);
    assert(last_content_line(t) == 0);
    lemma_close_all_at_start(s.braces, None);
    lemma_close_all_at_start(s.comments, Some(FoldingRangeKind::Comment));
    lemma_close_all_at_start(s.regions, Some(FoldingRangeKind::Region));
    assert(folding_ranges_of(t) =~= Seq::<FoldingRange>::empty());
}

/// A brace that closes on the line where it opened folds nothing.
pub proof fn lemma_same_line_brace_folds_nothing(t: Seq<u8>, i: int, s: FoldState)
    requires
        0 <= i < t.len() <= usize::MAX,
        t[i] == CLOSE_BRACE,
        s.braces.len() > 0,
        s.braces.last() == line_of(t, i),
    ensures
        step(t, i, s).ranges == s.ranges,
        step(t, i, s).braces == s.braces.drop_last(),
{
    lemma_line_of_bounds(t, i);
}

/// A plain comment that closes on the line where it opened folds nothing.
pub proof fn lemma_same_line_comment_folds_nothing(t: Seq<u8>, i: int, s: FoldState)
    requires
        0 <= i < t.len() <= usize::MAX,
        closes_comment(t, i),
        s.comments.len() > 0,
        s.comments.last() == line_of(t, i),
        !contains(lines_text(t, s.comments.last() as int, line_of(t, i)), region_start_marker()),
        !contains(lines_text(t, s.comments.last() as int, line_of(t, i)), region_end_marker()),
    ensures
        step(t, i, s).ranges == s.ranges,
        step(t, i, s).comments == s.comments.drop_last(),
{
    lemma_line_of_bounds(t, i);
}

/// A brace that closes on a later line than it opened folds into one plain range, from the
/// line of the `{` to the line of the `}`.
pub proof fn lemma_multiline_brace_folds(t: Seq<u8>, i: int, s: FoldState)
    requires
        0 <= i < t.len(),
        t[i] == CLOSE_BRACE,
        s.braces.len() > 0,
        s.braces.last() < line_of(t, i),
        t.len() <= usize::MAX,
    ensures
        step(t, i, s).ranges == s.ranges.push(fold(s.braces.last(), line_of(t, i) as usize, None)),
        step(t, i, s).braces == s.braces.drop_last(),
        s.braces.last() < line_of(t, i) as usize,
{
    lemma_line_of_bounds(t, i);
}

/// A plain comment that closes on a later line than it opened folds into one comment range.
pub proof fn lemma_multiline_comment_folds(t: Seq<u8>, i: int, s: FoldState)
    requires
        0 <= i < t.len(),
        closes_comment(t, i),
        s.comments.len() > 0,
        s.comments.last() < line_of(t, i),
        t.len() <= usize::MAX,
        !contains(lines_text(t, s.comments.last() as int, line_of(t, i)), region_start_marker()),
        !contains(lines_text(t, s.comments.last() as int, line_of(t, i)), region_end_marker()),
    ensures
        step(t, i, s).ranges == s.ranges.push(
            fold(s.comments.last(), line_of(t, i) as usize, Some(FoldingRangeKind::Comment)),
        ),
        step(t, i, s).comments == s.comments.drop_last(),
        s.comments.last() < line_of(t, i) as usize,
{
    lemma_line_of_bounds(t, i);
}

/// A comment with `#endregion` closes the innermost open region into one region range, from
/// the line of the comment that opened it to the line where this comment ends.
pub proof fn lemma_region_folds(t: Seq<u8>, i: int, s: FoldState)
    requires
        0 <= i < t.len(),
        closes_comment(t, i),
        s.comments.len() > 0,
        s.regions.len() > 0,
        t.len() <= usize::MAX,
        !contains(lines_text(t, s.comments.last() as int, line_of(t, i)), region_start_marker()),
        contains(lines_text(t, s.comments.last() as int, line_of(t, i)), region_end_marker()),
    ensures
        step(t, i, s).ranges == s.ranges.push(
            fold(s.regions.last(), line_of(t, i) as usize, Some(FoldingRangeKind::Region)),
        ),
        step(t, i, s).regions == s.regions.drop_last(),
{
    lemma_line_of_bounds(t, i);
}

/// A comment whose lines hold `#region` anywhere, among any other text, opens a region: its
/// start line goes on the region stack and nothing folds yet.
pub proof fn lemma_region_marker_anywhere(t: Seq<u8>, i: int, s: FoldState, q: int)
    requires
        0 <= i < t.len(),
        closes_comment(t, i),
        s.comments.len() > 0,
        0 <= q,
        t.len() <= usize::MAX,
        q + 7 <= lines_text(t, s.comments.last() as int, line_of(t, i)).len(),
        lines_text(t, s.comments.last() as int, line_of(t, i)).subrange(q, q + 7)
            == region_start_marker(),
    ensures
        step(t, i, s).regions == s.regions.push(s.comments.last()),
        step(t, i, s).ranges == s.ranges,
        step(t, i, s).comments == s.comments.drop_last(),
{
    lemma_line_of_bounds(t, i);
    let text = lines_text(t, s.comments.last() as int, line_of(t, i));
    assert(text.subrange(q, q + region_start_marker().len()) == region_start_marker());
}

/// The ranges that the constructs left open at the end give: in reverse, the open markers
/// that start before `last`, oldest first, each folded to `last`.
pub open spec fn trailing(stack: Seq<usize>, last: usize, kind: Option<FoldingRangeKind>) -> Seq<
    FoldingRange,
> {
    stack.filter(opens_before(last)).map_values(folds_to(last, kind)).reverse()
}

/// Whether a marker opened before line `last`.
pub open spec fn opens_before(last: usize) -> spec_fn(usize) -> bool {
    |start: usize| start < last
}

/// The range of `kind` from a marker's line to line `last`.
pub open spec fn folds_to(last: usize, kind: Option<FoldingRangeKind>) -> spec_fn(usize) -> FoldingRange {
    |start: usize| fold(start, last, kind)
}

proof fn lemma_close_all_trailing(stack: Seq<usize>, last: usize, kind: Option<FoldingRangeKind>)
    ensures
        close_all(stack, last, kind) == trailing(stack, last, kind),
    decreases stack.len(),
{
    let pred = opens_before(last);
    let f = folds_to(last, kind);
    reveal(Seq::filter);
    if stack.len() == 0 {
        assert(trailing(stack, last, kind) =~= Seq::<FoldingRange>::empty());
    } else {
        lemma_close_all_trailing(stack.drop_last(), last, kind);
        let rest = stack.drop_last().filter(pred).map_values(f);
        if stack.last() < last {
            assert(stack.filter(pred) == stack.drop_last().filter(pred).push(stack.last()));
            assert(stack.filter(pred).map_values(f) =~= rest.push(fold(stack.last(), last, kind)));
            assert(rest.push(fold(stack.last(), last, kind)).reverse() =~= seq![
                fold(stack.last(), last, kind),
            ] + rest.reverse());
        } else {
            assert(stack.filter(pred) == stack.drop_last().filter(pred));
            assert(stack.filter(pred).map_values(f) =~= rest);
        }
        assert(close_all(stack, last, kind) =~= trailing(stack, last, kind));
    }
}

/// Each brace, comment and region still open at the end gives exactly one range, which ends
/// on the last line with content and has the construct's kind; one that opened on that line
/// gives none.
pub proof fn lemma_unterminated_ranges(t: Seq<u8>)
    ensures
        ({
            let s = scan(t, 0, initial_state());
            let last = last_content_line(t) as usize;
            folding_ranges_of(t) == s.ranges + trailing(s.braces, last, None) + trailing(
                s.comments,
                last,
                Some(FoldingRangeKind::Comment),
            ) + trailing(s.regions, last, Some(FoldingRangeKind::Region))
        }),
{
    let s = scan(t, 0, initial_state());
    let last = last_content_line(t) as usize;
    lemma_close_all_trailing(s.braces, last, None);
    lemma_close_all_trailing(s.comments, last, Some(FoldingRangeKind::Comment));
    lemma_close_all_trailing(s.regions, last, Some(FoldingRangeKind::Region));
}

/// Whether range `r` spans lines forward, and strictly forward unless it is a region.
pub open spec fn is_forward(r: FoldingRange) -> bool {
    &&& r.start_line <= r.end_line
    &&& r.kind != Some(FoldingRangeKind::Region) ==> r.start_line < r.end_line
}

/// What holds of the scan state at line `line`: open markers lie at or before it, and every
/// range found so far spans forward and ends at or before it.
pub open spec fn is_ordered_state(s: FoldState, line: int) -> bool {
    &&& forall|j: int| 0 <= j < s.braces.len() ==> s.braces[j] <= line
    &&& forall|j: int| 0 <= j < s.comments.len() ==> s.comments[j] <= line
    &&& forall|j: int| 0 <= j < s.regions.len() ==> s.regions[j] <= line
    &&& forall|j: int| 0 <= j < s.ranges.len() ==> is_forward(#[trigger] s.ranges[j]) && s.ranges[j].end_line <= line
}

proof fn lemma_scan_ordered(t: Seq<u8>, i: int, s: FoldState)
    requires
        0 <= i <= t.len() <= usize::MAX,
        is_ordered_state(s, line_of(t, i)),
    ensures
        is_ordered_state(scan(t, i, s), line_of(t, t.len() as int)),
    decreases t.len() - i,
{
    if i < t.len() {
        lemma_line_of_bounds(t, i);
        lemma_line_of_step(t, i);
        if i + 1 < t.len() {
            lemma_line_of_step(t, i + 1);
        }
        let next = i + token_len(t, i);
        assert(line_of(t, i) <= line_of(t, next));
        assert(is_ordered_state(step(t, i, s), line_of(t, next)));
        lemma_scan_ordered(t, next, step(t, i, s));
    }
}

proof fn lemma_close_all_forward(stack: Seq<usize>, last: usize, kind: Option<FoldingRangeKind>)
    ensures
        forall|j: int|
            0 <= j < close_all(stack, last, kind).len() ==> #[trigger] close_all(stack, last, kind)[j].start_line
                < close_all(stack, last, kind)[j].end_line,
    decreases stack.len(),
{
    if stack.len() > 0 {
        lemma_close_all_forward(stack.drop_last(), last, kind);
    }
}

/// Every folding range spans lines forward: a brace block or a comment from an earlier line to
/// a later one, a region from a line to the same line or a later one.
pub proof fn lemma_ranges_forward(t: Seq<u8>)
    requires
        t.len() <= usize::MAX,
    ensures
        forall|j: int| 0 <= j < folding_ranges_of(t).len() ==> is_forward(#[trigger] folding_ranges_of(t)[j]),
{
    let s = scan(t, 0, initial_state());
    let last = last_content_line(t) as usize;
    assert(t.take(0) =~= Seq::<u8>::empty());
    lemma_scan_ordered(t, 0, initial_state());
    let b = close_all(s.braces, last, None);
    let c = close_all(s.comments, last, Some(FoldingRangeKind::Comment));
    let g = close_all(s.regions, last, Some(FoldingRangeKind::Region));
    lemma_close_all_forward(s.braces, last, None);
    lemma_close_all_forward(s.comments, last, Some(FoldingRangeKind::Comment));
    lemma_close_all_forward(s.regions, last, Some(FoldingRangeKind::Region));
    let all = folding_ranges_of(t);
    assert forall|j: int| 0 <= j < all.len() implies is_forward(#[trigger] all[j]) by {
        if j < s.ranges.len() {
            assert(all[j] == s.ranges[j]);
        } else if j < s.ranges.len() + b.len() {
            assert(all[j] == b[j - s.ranges.len()]);
        } else if j < s.ranges.len() + b.len() + c.len() {
            assert(all[j] == c[j - s.ranges.len() - b.len()]);
        } else {
            assert(all[j] == g[j - s.ranges.len() - b.len() - c.len()]);
        }
    }
}

/// The number of `{` less the number of `}` among the first `i` bytes of `t`.
pub open spec fn brace_depth(t: Seq<u8>, i: int) -> int
    decreases i,
{
    if i <= 0 {
        0
    } else {
        brace_depth(t, i - 1) + if t[i - 1] == OPEN_BRACE {
            1int
        } else if t[i - 1] == CLOSE_BRACE {
            -1int
        } else {
            0int
        }
    }
}

/// The number of `}` among the first `i` bytes of `t`.
pub open spec fn closing_braces(t: Seq<u8>, i: int) -> int
    decreases i,
{
    if i <= 0 {
        0
    } else {
        closing_braces(t, i - 1) + if t[i - 1] == CLOSE_BRACE {
            1int
        } else {
            0int
        }
    }
}

/// Whether `t` has no comment delimiter and its braces balance: no prefix closes more than
/// it opens, and the whole text closes all it opens.
pub open spec fn is_balanced_block_text(t: Seq<u8>) -> bool {
    &&& forall|j: int| 0 <= j < t.len() ==> !opens_comment(t, j) && !closes_comment(t, j)
    &&& forall|i: int| 0 <= i <= t.len() ==> brace_depth(t, i) >= 0
    &&& brace_depth(t, t.len() as int) == 0
}

proof fn lemma_scan_balanced(t: Seq<u8>, i: int, s: FoldState)
    requires
        0 <= i <= t.len(),
        is_balanced_block_text(t),
        s.braces.len() == brace_depth(t, i),
        s.comments.len() == 0,
        s.regions.len() == 0,
        s.ranges.len() <= closing_braces(t, i),
        forall|j: int| 0 <= j < s.ranges.len() ==> (#[trigger] s.ranges[j]).kind == None::<FoldingRangeKind>,
    ensures
        ({
            let e = scan(t, i, s);
            &&& e.braces.len() == 0
            &&& e.comments.len() == 0
            &&& e.regions.len() == 0
            &&& e.ranges.len() <= closing_braces(t, t.len() as int)
            &&& forall|j: int| 0 <= j < e.ranges.len() ==> (#[trigger] e.ranges[j]).kind == None::<FoldingRangeKind>
        }),
    decreases t.len() - i,
{
    if i < t.len() {
        assert(!opens_comment(t, i) && !closes_comment(t, i));
        assert(brace_depth(t, i + 1) >= 0);
        let n = step(t, i, s);
        assert(n.braces.len() == brace_depth(t, i + 1));
        assert(n.ranges.len() <= closing_braces(t, i + 1));
        assert forall|j: int| 0 <= j < n.ranges.len() implies (#[trigger] n.ranges[j]).kind
            == None::<FoldingRangeKind> by {
            if j < s.ranges.len() {
                assert(n.ranges[j] == s.ranges[j]);
            }
        }
        lemma_scan_balanced(t, i + 1, n);
    }
}

/// In a text without comments whose braces balance, every block closes inside the text: no
/// range runs to the end of the text, each range is a plain block from an earlier line to a
/// later one, and there is at most one range per closing brace.
pub proof fn lemma_balanced_blocks_fold(t: Seq<u8>)
    requires
        t.len() <= usize::MAX,
        is_balanced_block_text(t),
    ensures
        folding_ranges_of(t) == scan(t, 0, initial_state()).ranges,
        folding_ranges_of(t).len() <= closing_braces(t, t.len() as int),
        forall|j: int|
            0 <= j < folding_ranges_of(t).len() ==> {
                &&& (#[trigger] folding_ranges_of(t)[j]).kind == None::<FoldingRangeKind>
                &&& folding_ranges_of(t)[j].start_line < folding_ranges_of(t)[j].end_line
            },
{
    lemma_scan_balanced(t, 0, initial_state());
    let s = scan(t, 0, initial_state());
    let last = last_content_line(t) as usize;
    assert(close_all(s.braces, last, None) =~= Seq::<FoldingRange>::empty());
    assert(close_all(s.comments, last, Some(FoldingRangeKind::Comment)) =~= Seq::<FoldingRange>::empty());
    assert(close_all(s.regions, last, Some(FoldingRangeKind::Region)) =~= Seq::<FoldingRange>::empty());
    assert(folding_ranges_of(t) =~= s.ranges);
    lemma_ranges_forward(t);
}

/// Whether no `}` of `t` stands on the line of a `{` before it.
pub open spec fn blocks_span_lines(t: Seq<u8>) -> bool {
    forall|j: int, i: int|
        0 <= j < i < t.len() && t[j] == OPEN_BRACE && t[i] == CLOSE_BRACE ==> #[trigger] line_of(t, j)
            < #[trigger] line_of(t, i)
}

proof fn lemma_scan_spanning_blocks(t: Seq<u8>, i: int, s: FoldState)
    requires
        0 <= i <= t.len() <= usize::MAX,
        is_balanced_block_text(t),
        blocks_span_lines(t),
        s.braces.len() == brace_depth(t, i),
        s.ranges.len() == closing_braces(t, i),
        forall|k: int|
            0 <= k < s.braces.len() ==> exists|j: int|
                0 <= j < i && t[j] == OPEN_BRACE && line_of(t, j) == #[trigger] s.braces[k],
    ensures
        scan(t, i, s).ranges.len() == closing_braces(t, t.len() as int),
    decreases t.len() - i,
{
    if i < t.len() {
        assert(!opens_comment(t, i) && !closes_comment(t, i));
        assert(brace_depth(t, i + 1) >= 0);
        lemma_line_of_bounds(t, i);
        let n = step(t, i, s);
        if t[i] == CLOSE_BRACE {
            let k = s.braces.len() - 1;
            assert(s.braces[k] == s.braces.last());
            let j = choose|j: int| 0 <= j < i && t[j] == OPEN_BRACE && line_of(t, j) == s.braces[k];
            assert(line_of(t, j) < line_of(t, i));
        }
        assert forall|k: int| 0 <= k < n.braces.len() implies exists|j: int|
            0 <= j < i + 1 && t[j] == OPEN_BRACE && line_of(t, j) == #[trigger] n.braces[k] by {
            if t[i] == OPEN_BRACE && k == s.braces.len() {
                assert(n.braces[k] == line_of(t, i) as usize);
            } else {
                assert(n.braces[k] == s.braces[k]);
                let j = choose|j: int| 0 <= j < i && t[j] == OPEN_BRACE && line_of(t, j) == s.braces[k];
                assert(0 <= j < i + 1 && t[j] == OPEN_BRACE && line_of(t, j) == n.braces[k]);
            }
        }
        lemma_scan_spanning_blocks(t, i + 1, n);
    }
}

/// In a text without comments whose braces balance, and where no block closes on the line it
/// opened, each closing brace gives exactly one range: one plain range per block.
pub proof fn lemma_one_range_per_block(t: Seq<u8>)
    requires
        t.len() <= usize::MAX,
        is_balanced_block_text(t),
        blocks_span_lines(t),
    ensures
        folding_ranges_of(t).len() == closing_braces(t, t.len() as int),
{
    lemma_balanced_blocks_fold(t);
    lemma_scan_spanning_blocks(t, 0, initial_state());
}

} // verus!
