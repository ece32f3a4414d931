//! Line starts of a text and conversion of byte offsets to line/column positions.
use vstd::prelude::*;
use vstd::string::StringSliceAdditionalSpecFns;

verus! {

/// The byte `\n`, which ends a line.
pub const LINE_FEED: u8 = 0x0a;

/// The unit in which columns are counted.
#[derive(Clone, Copy, Debug, PartialEq, Eq, Structural)]
pub enum PositionEncoding {
    /// One column per byte.
    Utf8,
    /// One column per code point of the Basic Multilingual Plane, two for any other.
    Utf16,
    /// One column per code point.
    Utf32,
}

/// A zero-based line and column.
#[derive(Clone, Copy, Debug, PartialEq, Eq, Structural)]
pub struct Position {
    pub line: usize,
    pub character: usize,
}

/// A span between two positions.
#[derive(Clone, Copy, Debug, PartialEq, Eq, Structural)]
pub struct Range {
    pub start: Position,
    pub end: Position,
}

/// The offsets at which the lines of `t` start: 0, then the offset after each line feed.
pub open spec fn line_starts_of(t: Seq<u8>) -> Seq<usize>
    decreases t.len(),
{
    if t.len() == 0 {
        seq![0usize]
    } else {
        let p = line_starts_of(t.drop_last());
        if t.last() == LINE_FEED {
            p.push(t.len() as usize)
        } else {
            p
        }
    }
}

/// The zero-based line on which byte offset `i` of `t` lies: the number of line feeds before it.
pub open spec fn line_of(t: Seq<u8>, i: int) -> int {
    line_starts_of(t.take(i)).len() - 1
}

/// Whether `b` continues a multi-byte UTF-8 sequence.
pub open spec fn is_continuation(b: u8) -> bool {
    0x80 <= b < 0xc0
}

/// The columns that byte `b` adds under `enc`.
pub open spec fn byte_units(b: u8, enc: PositionEncoding) -> nat {
    match enc {
        PositionEncoding::Utf8 => 1,
        PositionEncoding::Utf16 => if is_continuation(b) {
            0
        } else if b >= 0xf0 {
            2
        } else {
            1
        },
        PositionEncoding::Utf32 => if is_continuation(b) {
            0
        } else {
            1
        },
    }
}

/// The number of columns that the bytes `s` span under `enc`.
pub open spec fn units(s: Seq<u8>, enc: PositionEncoding) -> nat
    decreases s.len(),
{
    if s.len() == 0 {
        0
    } else {
        units(s.drop_last(), enc) + byte_units(s.last(), enc)
    }
}

/// The line and column of byte `offset` of `t`: the line is the greatest one whose start is
/// at most `offset`, and the column counts, under `enc`, the bytes from that start up to
/// `offset`. `None` when `offset` lies past the end of `t`, or when the column does not fit
/// in a `usize`.
pub open spec fn position_of(t: Seq<u8>, offset: int, enc: PositionEncoding) -> Option<Position> {
    let line = line_of(t, offset);
    let column = units(t.subrange(line_starts_of(t)[line] as int, offset), enc);
    if 0 <= offset <= t.len() && column <= usize::MAX {
        Some(Position { line: line as usize, character: column as usize })
    } else {
        None
    }
}

/// The positions of the byte span `start..end` of `t`, when both ends have one.
pub open spec fn range_of(t: Seq<u8>, start: int, end: int, enc: PositionEncoding) -> Option<Range> {
    match (position_of(t, start, enc), position_of(t, end, enc)) {
        (Some(s), Some(e)) => Some(Range { start: s, end: e }),
        _ => None,
    }
}

/// The line starts begin at 0, rise strictly, and stay within the text.
pub proof fn lemma_line_starts_shape(t: Seq<u8>)
    requires
        t.len() <= usize::MAX,
    ensures
        1 <= line_starts_of(t).len() <= t.len() + 1,
        line_starts_of(t)[0] == 0,
        forall|j: int| 0 <= j < line_starts_of(t).len() ==> line_starts_of(t)[j] <= t.len(),
        forall|i: int, j: int|
            0 <= i < j < line_starts_of(t).len() ==> line_starts_of(t)[i] < line_starts_of(t)[j],
    decreases t.len(),
{
    if t.len() > 0 {
        lemma_line_starts_shape(t.drop_last());
    }
}

/// The line starts of a prefix of `t` are a prefix of those of `t`; the others lie past it.
pub proof fn lemma_line_starts_prefix(t: Seq<u8>, i: int)
    requires
        0 <= i <= t.len() <= usize::MAX,
    ensures
        line_starts_of(t.take(i)).len() <= line_starts_of(t).len(),
        forall|j: int|
            0 <= j < line_starts_of(t.take(i)).len() ==> line_starts_of(t)[j] == line_starts_of(
                t.take(i),
            )[j],
        forall|j: int|
            line_starts_of(t.take(i)).len() <= j < line_starts_of(t).len() ==> line_starts_of(t)[j]
                > i,
    decreases t.len(),
{
    if i == t.len() {
        assert(t.take(i) =~= t);
    } else {
        assert(t.take(i) =~= t.drop_last().take(i));
        lemma_line_starts_prefix(t.drop_last(), i);
    }
}

/// A line start lies at or before offset `i` exactly when its line is at most `line_of(t, i)`.
pub proof fn lemma_line_of_offset(t: Seq<u8>, i: int)
    requires
        0 <= i <= t.len() <= usize::MAX,
    ensures
        0 <= line_of(t, i) < line_starts_of(t).len(),
        forall|j: int|
            0 <= j < line_starts_of(t).len() ==> (line_starts_of(t)[j] <= i <==> j <= line_of(t, i)),
{
    lemma_line_starts_prefix(t, i);
    lemma_line_starts_shape(t.take(i));
    lemma_line_starts_shape(t);
}

/// A line number is at most the offset it was taken at.
pub proof fn lemma_line_of_bounds(t: Seq<u8>, i: int)
    requires
        0 <= i <= t.len() <= usize::MAX,
    ensures
        0 <= line_of(t, i) <= i,
{
    lemma_line_starts_shape(t.take(i));
}

/// Moving one byte forward moves one line down exactly when that byte is a line feed.
pub proof fn lemma_line_of_step(t: Seq<u8>, i: int)
    requires
        0 <= i < t.len(),
    ensures
        line_of(t, i + 1) == line_of(t, i) + (if t[i] == LINE_FEED {
            1int
        } else {
            0int
        }),
{
    assert(t.take(i + 1).drop_last() =~= t.take(i));
}

/// The last line of `t` is `line_of(t, t.len())`.
pub proof fn lemma_line_of_end(t: Seq<u8>)
    ensures
        line_of(t, t.len() as int) == line_starts_of(t).len() - 1,
{
    assert(t.take(t.len() as int) =~= t);
}

/// Counting columns over a longer span never gives fewer.
proof fn lemma_units_monotone(s: Seq<u8>, i: int, j: int, enc: PositionEncoding)
    requires
        0 <= i <= j <= s.len(),
    ensures
        units(s.take(i), enc) <= units(s.take(j), enc),
    decreases j - i,
{
    if i < j {
        assert(s.take(j).drop_last() =~= s.take(j - 1));
        lemma_units_monotone(s, i, j - 1, enc);
    }
}

/// The line starts of a text, built once and kept beside it.
pub struct LineIndex {
    line_starts: Vec<usize>,
}

impl View for LineIndex {
    type V = Seq<usize>;

    closed spec fn view(&self) -> Seq<usize> {
        self.line_starts@
    }
}

impl LineIndex {
    /// Whether this index holds the line starts of the bytes `t`.
    pub open spec fn indexes(&self, t: Seq<u8>) -> bool {
        self@ == line_starts_of(t)
    }

    /// Records offset 0 and the offset after every line feed of `text`.
    pub fn new(text: &str) -> (r: LineIndex)
        ensures
            r.indexes(text.spec_bytes()),
    {
        let bytes = text.as_bytes();
        let ghost t = bytes@;
        let mut line_starts: Vec<usize> = Vec::new();
        line_starts.push(0);
        let mut i: usize = 0;
        assert(t.take(0) =~= Seq::<u8>::empty());
        while i < bytes.len()
            invariant
                t == bytes@,
                i <= t.len(),
                line_starts@ == line_starts_of(t.take(i as int)),
            decreases t.len() - i,
        {
            assert(t.take(i + 1).drop_last() =~= t.take(i as int));
            if bytes[i] == LINE_FEED {
                line_starts.push(i + 1);
            }
            i = i + 1;
        }
        assert(t.take(i as int) =~= t);
        LineIndex { line_starts }
    }

    /// The number of lines, counting a last empty line after a final line feed.
    pub fn line_count(&self) -> (n: usize)
        ensures
            n == self@.len(),
    {
        self.line_starts.len()
    }

    /// The offset at which line `line` starts, if there is such a line.
    pub fn line_start(&self, line: usize) -> (r: Option<usize>)
        ensures
            r == (if line < self@.len() {
                Some(self@[line as int])
            } else {
                None
            }),
    {
        if line < self.line_starts.len() {
            Some(self.line_starts[line])
        } else {
            None
        }
    }

    /// The line of `offset`: the greatest line whose start is at most `offset`.
    fn line_of_offset(&self, offset: usize, Ghost(t): Ghost<Seq<u8>>) -> (k: usize)
        requires
            self.indexes(t),
            offset <= t.len() <= usize::MAX,
        ensures
            k == line_of(t, offset as int),
            k < self@.len(),
    {
        proof {
            lemma_line_of_offset(t, offset as int);
        }
        let ghost target = line_of(t, offset as int);
        let mut lo: usize = 0;
        let mut hi: usize = self.line_starts.len();
        while hi - lo > 1
            invariant
                self.indexes(t),
                offset <= t.len(),
                hi <= self@.len(),
                lo <= target < hi,
                forall|j: int| 0 <= j < self@.len() ==> (self@[j] <= offset <==> j <= target),
            decreases hi - lo,
        {
            let mid = lo + (hi - lo) / 2;
            if self.line_starts[mid] <= offset {
                lo = mid;
            } else {
                hi = mid;
            }
        }
        lo
    }

    /// The line and column of byte `offset` in `text` (see `position_of`).
    pub fn position(&self, text: &str, offset: usize, enc: PositionEncoding) -> (r: Option<
        Position,
    >)
        requires
            self.indexes(text.spec_bytes()),
        ensures
            r == position_of(text.spec_bytes(), offset as int, enc),
    {
        let bytes = text.as_bytes();
        let ghost t = bytes@;
        if offset > bytes.len() {
            return None;
        }
        let line = self.line_of_offset(offset, Ghost(t));
        let start = self.line_starts[line];
        proof {
            lemma_line_of_offset(t, offset as int);
        }
        let ghost span = t.subrange(start as int, offset as int);
        let mut count: usize = 0;
        let mut i: usize = start;
        while i < offset
            invariant
                t == bytes@,
                start <= i <= offset <= t.len(),
                span == t.subrange(start as int, offset as int),
                t == text.spec_bytes(),
                self.indexes(t),
                line == line_of(t, offset as int),
                start == line_starts_of(t)[line as int],
                count == units(span.take(i - start), enc),
            decreases offset - i,
        {
            assert(span.take(i - start + 1).drop_last() =~= span.take(i - start));
            let add: usize = match enc {
                PositionEncoding::Utf8 => 1,
                PositionEncoding::Utf16 => if 0x80u8 <= bytes[i] && bytes[i] < 0xc0u8 {
                    0
                } else if bytes[i] >= 0xf0u8 {
                    2
                } else {
                    1
                },
                PositionEncoding::Utf32 => if 0x80u8 <= bytes[i] && bytes[i] < 0xc0u8 {
                    0
                } else {
                    1
                },
            };
            assert(add == byte_units(span.take(i - start + 1).last(), enc));
            if count > usize::MAX - add {
                proof {
                    let k = i - start;
                    assert(units(span.take(k + 1), enc) == units(span.take(k), enc) + add);
                    lemma_units_monotone(span, k + 1, span.len() as int, enc);
                    assert(span.take(span.len() as int) =~= span);
                    assert(units(span, enc) > usize::MAX);
                }
                return None;
            }
            count = count + add;
            i = i + 1;
        }
        assert(span.take(i - start) =~= span);
        Some(Position { line, character: count })
    }

    /// The positions of the byte span `start..end` of `text` (see `range_of`).
    pub fn range(&self, text: &str, start: usize, end: usize, enc: PositionEncoding) -> (r: Option<
        Range,
    >)
        requires
            self.indexes(text.spec_bytes()),
        ensures
            r == range_of(text.spec_bytes(), start as int, end as int, enc),
    {
        let s = self.position(text, start, enc);
        let e = self.position(text, end, enc);
        match (s, e) {
            (Some(s), Some(e)) => Some(Range { start: s, end: e }),
            _ => None,
        }
    }
}

} // verus!
