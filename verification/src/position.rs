//! Line index: conversion between byte offsets and (line, UTF-16 column) positions.
use vstd::prelude::*;
use vstd::utf8::is_continuation_byte;

use ropey::Rope;

use crate::document::rope_text;
use crate::syntax::{FileId, SourceSpan};
use crate::text::{char_boundary, utf8};

verus! {

/// A zero-based line and UTF-16 column, as LSP positions count them.
#[derive(Debug, Clone, Copy, PartialEq, Eq, Hash)]
pub struct Position {
    pub line: u32,
    pub character: u32,
}

/// A pair of positions.
#[derive(Debug, Clone, Copy, PartialEq, Eq, Hash)]
pub struct Range {
    pub start: Position,
    pub end: Position,
}

#[derive(Debug, Clone, PartialEq, Eq)]
pub enum PositionError {
    OffsetOutOfBounds { offset: usize, len: usize },
    OffsetNotCharBoundary { offset: usize },
    LineOutOfBounds { line: u32, max_line: u32 },
    CharacterOutOfBounds { line: u32, character: u32 },
    InvalidRange,
    MismatchedFileId { expected: FileId, actual: FileId },
}

/// Number of line feeds in `b[0..x]`.
pub open spec fn newlines_before(b: Seq<u8>, x: int) -> int
    decreases x,
{
    if x <= 0 {
        0
    } else {
        newlines_before(b, x - 1) + (if b[x - 1] == 10 {
            1int
        } else {
            0int
        })
    }
}

/// Offset where the line holding offset `x` starts: just after the last line feed before `x`.
pub open spec fn line_start_of(b: Seq<u8>, x: int) -> int
    decreases x,
{
    if x <= 0 {
        0
    } else if b[x - 1] == 10 {
        x
    } else {
        line_start_of(b, x - 1)
    }
}

/// Start offsets of the lines of `b[0..n]`: 0 and every position right after a line feed.
pub open spec fn line_starts_upto(b: Seq<u8>, n: int) -> Seq<usize>
    decreases n,
{
    if n <= 0 {
        seq![0usize]
    } else if b[n - 1] == 10 {
        line_starts_upto(b, n - 1).push(n as usize)
    } else {
        line_starts_upto(b, n - 1)
    }
}

/// UTF-16 code units needed for the characters of `b[lo..hi]`.
pub open spec fn utf16_units(b: Seq<u8>, lo: int, hi: int) -> int
    decreases hi - lo,
{
    if lo >= hi {
        0
    } else {
        utf16_units(b, lo, hi - 1) + byte_units(b[hi - 1])
    }
}

/// UTF-16 units contributed by one byte: leading bytes of 4-byte characters count two,
/// continuation bytes none.
pub open spec fn byte_units(c: u8) -> int {
    if is_continuation_byte(c) {
        0
    } else if c >= 0xf0 {
        2
    } else {
        1
    }
}

/// Byte width of the character whose encoding starts with `c`.
pub open spec fn lead_width(c: u8) -> int {
    if c < 0x80 {
        1
    } else if c < 0xe0 {
        2
    } else if c < 0xf0 {
        3
    } else {
        4
    }
}

/// Units of the character starting at `i` (a character cut at `end` keeps its leading unit count).
pub open spec fn char_units_at(b: Seq<u8>, i: int, end: int) -> int {
    utf16_units(b, i, i + step_at(b, i, end))
}

pub open spec fn step_at(b: Seq<u8>, i: int, end: int) -> int {
    if lead_width(b[i]) <= end - i {
        lead_width(b[i])
    } else {
        end - i
    }
}

/// Walks the characters from `i` (bounded by `end`) and returns the offset reached after
/// exactly `target` UTF-16 units; `None` when the walk ends first or steps over `target`.
pub open spec fn offset_after_units(b: Seq<u8>, i: int, end: int, target: int) -> Option<int>
    decreases end - i,
{
    if target == 0 {
        Some(i)
    } else if i >= end {
        None
    } else if char_units_at(b, i, end) > target {
        None
    } else {
        offset_after_units(b, i + step_at(b, i, end), end, target - char_units_at(b, i, end))
    }
}

/// End of line `line` without its line feed.
pub open spec fn line_text_end_spec(starts: Seq<usize>, b: Seq<u8>, line: int) -> int {
    let next = if line + 1 < starts.len() {
        starts[line + 1] as int
    } else {
        b.len() as int
    };
    if next > 0 && b[next - 1] == 10 {
        next - 1
    } else {
        next
    }
}

pub proof fn lemma_newlines_bounds(b: Seq<u8>, x: int)
    requires
        0 <= x <= b.len(),
    ensures
        0 <= newlines_before(b, x) <= x,
        0 <= line_start_of(b, x) <= x,
    decreases x,
{
    if x > 0 {
        lemma_newlines_bounds(b, x - 1);
    }
}

pub proof fn lemma_line_starts(b: Seq<u8>, n: int)
    requires
        0 <= n <= b.len(),
        n <= usize::MAX,
    ensures
        line_starts_upto(b, n).len() == newlines_before(b, n) + 1,
        line_starts_upto(b, n)[0] == 0,
        forall|k: int|
            0 <= k < line_starts_upto(b, n).len() ==> #[trigger] line_starts_upto(b, n)[k] <= n,
        forall|k: int, l: int|
            0 <= k < l < line_starts_upto(b, n).len() ==> line_starts_upto(b, n)[k]
                < line_starts_upto(b, n)[l],
        forall|x: int|
            0 <= x <= n ==> {
                &&& 0 <= #[trigger] newlines_before(b, x) < line_starts_upto(b, n).len()
                &&& line_starts_upto(b, n)[newlines_before(b, x)] == line_start_of(b, x)
                &&& newlines_before(b, x) + 1 < line_starts_upto(b, n).len() ==> line_starts_upto(
                    b,
                    n,
                )[newlines_before(b, x) + 1] > x
            },
    decreases n,
{
    if n > 0 {
        lemma_line_starts(b, n - 1);
        lemma_newlines_bounds(b, n - 1);
        let prev = line_starts_upto(b, n - 1);
        let cur = line_starts_upto(b, n);
        assert forall|x: int| 0 <= x <= n implies {
            &&& 0 <= #[trigger] newlines_before(b, x) < cur.len()
            &&& cur[newlines_before(b, x)] == line_start_of(b, x)
            &&& newlines_before(b, x) + 1 < cur.len() ==> cur[newlines_before(b, x) + 1] > x
        } by {
            if x < n {
                assert(0 <= newlines_before(b, x) < prev.len());
                assert(prev[newlines_before(b, x)] == line_start_of(b, x));
                if b[n - 1] == 10 {
                    assert(cur[newlines_before(b, x)] == prev[newlines_before(b, x)]);
                    if newlines_before(b, x) + 1 < prev.len() {
                        assert(cur[newlines_before(b, x) + 1] == prev[newlines_before(b, x) + 1]);
                    }
                }
            } else {
                assert(x == n);
                if b[n - 1] != 10 {
                    assert(0 <= newlines_before(b, n - 1) < prev.len());
                }
            }
        }
    }
}

/// Largest `k` with `starts[k] <= x` (`partition_point(|s| s <= x) - 1`).
fn last_start_at_or_before(starts: &Vec<usize>, x: usize) -> (k: usize)
    requires
        starts@.len() > 0,
        starts@[0] == 0,
        forall|i: int, j: int| 0 <= i < j < starts@.len() ==> starts@[i] < starts@[j],
    ensures
        k < starts@.len(),
        starts@[k as int] <= x,
        k + 1 < starts@.len() ==> starts@[k + 1] > x,
{
    let mut lo: usize = 0;
    let mut hi: usize = starts.len();
    while lo + 1 < hi
        invariant
            0 <= lo < hi <= starts@.len(),
            starts@[lo as int] <= x,
            hi < starts@.len() ==> starts@[hi as int] > x,
            forall|i: int, j: int| 0 <= i < j < starts@.len() ==> starts@[i] < starts@[j],
        decreases hi - lo,
    {
        let mid = lo + (hi - lo) / 2;
        if starts[mid] <= x {
            lo = mid;
        } else {
            hi = mid;
        }
    }
    lo
}

/// Start offsets of all lines of `b`.
pub fn compute_line_starts(b: &[u8]) -> (starts: Vec<usize>)
    ensures
        starts@ == line_starts_upto(b@, b@.len() as int),
{
    let mut starts: Vec<usize> = Vec::new();
    starts.push(0);
    let mut i: usize = 0;
    while i < b.len()
        invariant
            i <= b@.len(),
            starts@ == line_starts_upto(b@, i as int),
        decreases b@.len() - i,
    {
        if b[i] == 10 {
            starts.push(i + 1);
        }
        i = i + 1;
    }
    starts
}

/// Zero-based line of offset `x` in `b`, found in its precomputed line starts.
pub fn line_of(starts: &Vec<usize>, b: Ghost<Seq<u8>>, x: usize) -> (line: usize)
    requires
        starts@ == line_starts_upto(b@, b@.len() as int),
        x <= b@.len(),
        b@.len() <= usize::MAX,
    ensures
        line == newlines_before(b@, x as int),
        starts@[line as int] == line_start_of(b@, x as int),
        line < starts@.len(),
{
    proof {
        lemma_line_starts(b@, b@.len() as int);
    }
    let k = last_start_at_or_before(starts, x);
    proof {
        let n = newlines_before(b@, x as int);
        lemma_newlines_bounds(b@, x as int);
        assert(0 <= n < starts@.len());
        assert(starts@[n] == line_start_of(b@, x as int));
        if k < n {
            assert(starts@[k + 1] <= starts@[n]);
        } else if k > n {
            assert(starts@[n + 1] <= starts@[k as int]);
        }
    }
    k
}

#[derive(Debug, Clone, PartialEq, Eq)]
pub struct LineIndex {
    line_starts: Vec<usize>,
    text_len: usize,
}

impl LineIndex {
    /// This index was built from the text with UTF-8 bytes `b`.
    pub closed spec fn indexes(&self, b: Seq<u8>) -> bool {
        &&& self.line_starts@ == line_starts_upto(b, b.len() as int)
        &&& self.text_len == b.len()
    }

    pub closed spec fn num_lines(&self) -> nat {
        self.line_starts@.len()
    }

    pub fn new(text: &str) -> (index: Self)
        ensures
            index.indexes(utf8(text@)),
            index.num_lines() == newlines_before(utf8(text@), utf8(text@).len() as int) + 1,
    {
        let b = text.as_bytes();
        let text_len = b.len();
        let line_starts = compute_line_starts(b);
        proof {
            lemma_line_starts(b@, b@.len() as int);
        }
        LineIndex { line_starts, text_len }
    }

    /// The index of the text a rope holds.
    pub fn from_rope(rope: &Rope) -> (index: Self)
        ensures
            index.indexes(utf8(rope_text(*rope))),
    {
        let text = crate::document::rope_to_string(rope);
        LineIndex::new(text.as_str())
    }

    pub fn line_count(&self) -> (n: usize)
        ensures
            n == self.num_lines(),
    {
        self.line_starts.len()
    }

    fn line_for_offset(&self, b: Ghost<Seq<u8>>, offset: usize) -> (line: usize)
        requires
            self.indexes(b@),
            offset <= b@.len(),
        ensures
            line == newlines_before(b@, offset as int),
            self.line_starts@[line as int] == line_start_of(b@, offset as int),
            line < self.line_starts@.len(),
    {
        line_of(&self.line_starts, b, offset)
    }

    fn line_text_end(&self, b: &[u8], line: usize) -> (end: usize)
        requires
            self.indexes(b@),
            line < self.line_starts@.len(),
        ensures
            end == line_text_end_spec(self.line_starts@, b@, line as int),
            end <= b@.len(),
    {
        proof {
            lemma_line_starts(b@, b@.len() as int);
        }
        let next_start = if line < self.line_starts.len() - 1 {
            self.line_starts[line + 1]
        } else {
            self.text_len
        };
        if next_start > 0 && b[next_start - 1] == 10 {
            next_start - 1
        } else {
            next_start
        }
    }

    /// (line, UTF-16 column) of a byte offset.
    pub fn offset_to_position(&self, text: &str, offset: usize) -> (r: Result<Position, PositionError>)
        requires
            self.indexes(utf8(text@)),
        ensures
            r == offset_position(utf8(text@), offset),
    {
        let b = text.as_bytes();
        if offset > self.text_len {
            return Err(PositionError::OffsetOutOfBounds { offset, len: self.text_len });
        }
        let boundary = offset == 0 || offset == b.len() || (offset < b.len() && !(0x80 <= b[offset]
            && b[offset] <= 0xbf));
        if !boundary {
            return Err(PositionError::OffsetNotCharBoundary { offset });
        }
        let line = self.line_for_offset(Ghost(b@), offset);
        let line_start = self.line_starts[line];
        proof {
            lemma_newlines_bounds(b@, offset as int);
        }
        let units = count_utf16_units(b, line_start, offset);
        Ok(Position { line: line as u32, character: units as u32 })
    }

    /// Byte offset of a (line, UTF-16 column) position.
    pub fn position_to_offset(&self, text: &str, position: Position) -> (r: Result<usize, PositionError>)
        requires
            self.indexes(utf8(text@)),
            line_slice_ok(utf8(text@), position.line as int),
        ensures
            r == position_offset(utf8(text@), position),
    {
        let b = text.as_bytes();
        proof {
            lemma_line_starts(b@, b@.len() as int);
        }
        let line = position.line as usize;
        if line >= self.line_count() {
            return Err(
                PositionError::LineOutOfBounds {
                    line: position.line,
                    max_line: (self.line_count() - 1) as u32,
                },
            );
        }
        let start = self.line_starts[line];
        let end = self.line_text_end(b, line);
        match walk_utf16_units(b, start, end, position.character as usize) {
            Some(p) => Ok(p),
            None => Err(
                PositionError::CharacterOutOfBounds {
                    line: position.line,
                    character: position.character,
                },
            ),
        }
    }

    pub fn range_to_span(&self, text: &str, file_id: FileId, range: Range) -> (r: Result<
        SourceSpan,
        PositionError,
    >)
        requires
            self.indexes(utf8(text@)),
            line_slice_ok(utf8(text@), range.start.line as int),
            line_slice_ok(utf8(text@), range.end.line as int),
        ensures
            ({
                let b = utf8(text@);
                match (position_offset(b, range.start), position_offset(b, range.end)) {
                    (Ok(s), Ok(e)) => if s <= e {
                        r == Ok::<SourceSpan, PositionError>(SourceSpan { file_id, start: s, end: e })
                    } else {
                        r == Err::<SourceSpan, PositionError>(PositionError::InvalidRange)
                    },
                    (Err(e), _) => r == Err::<SourceSpan, PositionError>(e),
                    (Ok(_), Err(e)) => r == Err::<SourceSpan, PositionError>(e),
                }
            }),
    {
        let start = self.position_to_offset(text, range.start)?;
        let end = self.position_to_offset(text, range.end)?;
        if start > end {
            return Err(PositionError::InvalidRange);
        }
        Ok(SourceSpan::new(file_id, start, end))
    }

    pub fn span_to_range(&self, text: &str, span: SourceSpan) -> (r: Result<Range, PositionError>)
        requires
            self.indexes(utf8(text@)),
        ensures
            ({
                let b = utf8(text@);
                if span.start > span.end {
                    r == Err::<Range, PositionError>(PositionError::InvalidRange)
                } else {
                    match (offset_position(b, span.start), offset_position(b, span.end)) {
                        (Ok(s), Ok(e)) => r == Ok::<Range, PositionError>(Range { start: s, end: e }),
                        (Err(e), _) => r == Err::<Range, PositionError>(e),
                        (Ok(_), Err(e)) => r == Err::<Range, PositionError>(e),
                    }
                }
            }),
    {
        if span.start > span.end {
            return Err(PositionError::InvalidRange);
        }
        let start = self.offset_to_position(text, span.start)?;
        let end = self.offset_to_position(text, span.end)?;
        Ok(Range { start, end })
    }
}

/// What `LineIndex::offset_to_position` answers for an offset into `b`.
pub open spec fn offset_position(b: Seq<u8>, offset: usize) -> Result<Position, PositionError> {
    if offset > b.len() {
        Err(PositionError::OffsetOutOfBounds { offset, len: b.len() as usize })
    } else if !char_boundary(b, offset as int) {
        Err(PositionError::OffsetNotCharBoundary { offset })
    } else {
        Ok(
            Position {
                line: newlines_before(b, offset as int) as u32,
                character: utf16_units(b, line_start_of(b, offset as int), offset as int) as u32,
            },
        )
    }
}

/// Slicing line `line` of `b` does not panic: the line exists with its start at or
/// before the end of its text. (The empty line after a final line feed fails this.)
pub open spec fn line_slice_ok(b: Seq<u8>, line: int) -> bool {
    let starts = line_starts_upto(b, b.len() as int);
    0 <= line < starts.len() ==> starts[line] <= line_text_end_spec(starts, b, line)
}

/// What `LineIndex::position_to_offset` answers for a position in `b`.
pub open spec fn position_offset(b: Seq<u8>, position: Position) -> Result<usize, PositionError> {
    let starts = line_starts_upto(b, b.len() as int);
    let line = position.line as int;
    if line >= starts.len() {
        Err(
            PositionError::LineOutOfBounds {
                line: position.line,
                max_line: (starts.len() - 1) as u32,
            },
        )
    } else {
        match offset_after_units(
            b,
            starts[line] as int,
            line_text_end_spec(starts, b, line),
            position.character as int,
        ) {
            Some(p) => Ok(p as usize),
            None => Err(
                PositionError::CharacterOutOfBounds {
                    line: position.line,
                    character: position.character,
                },
            ),
        }
    }
}

/// UTF-16 units of `b[lo..hi]`.
pub fn count_utf16_units(b: &[u8], lo: usize, hi: usize) -> (n: u128)
    requires
        lo <= hi <= b@.len(),
    ensures
        n == utf16_units(b@, lo as int, hi as int),
        n <= 2 * (hi - lo),
{
    let mut n: u128 = 0;
    let mut i = lo;
    while i < hi
        invariant
            lo <= i <= hi <= b@.len(),
            n == utf16_units(b@, lo as int, i as int),
            n <= 2 * (i - lo),
        decreases hi - i,
    {
        let c = b[i];
        if !(0x80 <= c && c <= 0xbf) {
            if c >= 0xf0 {
                n = n + 2;
            } else {
                n = n + 1;
            }
        }
        i = i + 1;
    }
    n
}

/// Offset reached after walking `target` UTF-16 units from `start`, bounded by `end`.
pub fn walk_utf16_units(b: &[u8], start: usize, end: usize, target: usize) -> (r: Option<usize>)
    requires
        start <= end <= b@.len(),
    ensures
        r matches Some(p) ==> offset_after_units(b@, start as int, end as int, target as int)
            == Some(p as int),
        r is None ==> offset_after_units(b@, start as int, end as int, target as int) is None,
{
    let mut i = start;
    let mut remaining = target;
    loop
        invariant
            start <= i <= end <= b@.len(),
            remaining <= target,
            offset_after_units(b@, i as int, end as int, remaining as int) == offset_after_units(
                b@,
                start as int,
                end as int,
                target as int,
            ),
        decreases end - i,
    {
        if remaining == 0 {
            return Some(i);
        }
        if i >= end {
            return None;
        }
        let c = b[i];
        let width: usize = if c < 0x80 {
            1
        } else if c < 0xe0 {
            2
        } else if c < 0xf0 {
            3
        } else {
            4
        };
        let step = if width <= end - i {
            width
        } else {
            end - i
        };
        let units = count_utf16_units(b, i, i + step);
        if units > remaining as u128 {
            return None;
        }
        remaining = remaining - units as usize;
        i = i + step;
    }
}


proof fn lemma_units_split(b: Seq<u8>, lo: int, mid: int, hi: int)
    requires
        lo <= mid <= hi,
    ensures
        utf16_units(b, lo, hi) == utf16_units(b, lo, mid) + utf16_units(b, mid, hi),
    decreases hi - mid,
{
    if hi > mid {
        lemma_units_split(b, lo, mid, hi - 1);
    }
}

proof fn lemma_units_bound(b: Seq<u8>, lo: int, hi: int)
    requires
        lo <= hi,
    ensures
        0 <= utf16_units(b, lo, hi) <= 2 * (hi - lo),
    decreases hi - lo,
{
    if hi > lo {
        lemma_units_bound(b, lo, hi - 1);
    }
}

/// The character that starts at a boundary of valid UTF-8 lies whole in the text, its other
/// bytes continuation bytes.
proof fn lemma_char_extent(b: Seq<u8>, i: int)
    requires
        vstd::utf8::valid_utf8(b),
        0 <= i < b.len(),
        char_boundary(b, i),
    ensures
        i + lead_width(b[i]) <= b.len(),
        forall|j: int| i < j < i + lead_width(b[i]) ==> is_continuation_byte(#[trigger] b[j]),
        char_boundary(b, i + lead_width(b[i])),
{
    crate::text::lemma_char_boundary(b, i);
    vstd::utf8::valid_utf8_split(b, i);
    let s = b.subrange(i, b.len() as int);
    assert(s[0] == b[i]);
    assert(vstd::utf8::valid_first_scalar(s));
    assert(vstd::utf8::length_of_first_scalar(s) == lead_width(b[i]));
    let rest = vstd::utf8::pop_first_scalar(s);
    assert(vstd::utf8::valid_utf8(rest));
    assert(rest =~= b.subrange(i + lead_width(b[i]), b.len() as int));
    if i + lead_width(b[i]) < b.len() {
        assert(rest.len() > 0);
        assert(vstd::utf8::valid_first_scalar(rest));
        assert(rest[0] == b[i + lead_width(b[i])]);
    }
    assert forall|j: int| i < j < i + lead_width(b[i]) implies is_continuation_byte(#[trigger] b[j]) by {
        assert(s[j - i] == b[j]);
    }
}

/// Walking the characters from a boundary `i` for the UTF-16 units up to the boundary `off`
/// ends exactly at `off`.
proof fn lemma_walk_units(b: Seq<u8>, i: int, off: int, end: int)
    requires
        vstd::utf8::valid_utf8(b),
        0 <= i <= off <= end <= b.len(),
        char_boundary(b, i),
        char_boundary(b, off),
    ensures
        offset_after_units(b, i, end, utf16_units(b, i, off)) == Some(off),
    decreases off - i,
{
    if i < off {
        lemma_char_extent(b, i);
        let w = lead_width(b[i]);
        if off < i + w {
            assert(is_continuation_byte(b[off]));
        }
        assert(i + w <= off);
        assert(step_at(b, i, end) == w);
        lemma_units_split(b, i, i + w, off);
        lemma_units_split(b, i, i + 1, i + w);
        lemma_units_bound(b, i + 1, i + w);
        assert(utf16_units(b, i, i) == 0);
        assert(utf16_units(b, i, i + 1) == byte_units(b[i]));
        assert(byte_units(b[i]) >= 1);
        lemma_walk_units(b, i + w, off, end);
        let t = utf16_units(b, i, off);
        lemma_units_bound(b, i + w, off);
        assert(t != 0);
        assert(char_units_at(b, i, end) == utf16_units(b, i, i + w));
        assert(t - char_units_at(b, i, end) == utf16_units(b, i + w, off));
        assert(offset_after_units(b, i, end, t) == offset_after_units(b, i + w, end, utf16_units(b, i + w, off)));
    }
}

/// Turning a byte offset into a position and back gives the offset, for offsets at character
/// boundaries of texts that fit the protocol's numbers, except on the empty line after a final
/// line feed, whose line cannot be sliced (`line_slice_ok`).
pub proof fn lemma_position_round_trip(b: Seq<u8>, offset: usize)
    requires
        vstd::utf8::valid_utf8(b),
        b.len() <= 0x7fff_ffff,
        offset <= b.len(),
        char_boundary(b, offset as int),
        line_slice_ok(b, offset_position(b, offset)->Ok_0.line as int),
    ensures
        offset_position(b, offset) is Ok,
        position_offset(b, offset_position(b, offset)->Ok_0) == Ok::<usize, PositionError>(offset),
{
    let x = offset as int;
    lemma_line_starts(b, b.len() as int);
    lemma_newlines_bounds(b, x);
    let starts = line_starts_upto(b, b.len() as int);
    let line = newlines_before(b, x);
    let ls = line_start_of(b, x);
    assert(starts[line] == ls);
    lemma_units_bound(b, ls, x);
    let end = line_text_end_spec(starts, b, line);
    assert(ls <= x <= end) by {
        if line + 1 < starts.len() {
            assert(starts[line + 1] > x);
        }
    }
    assert(char_boundary(b, ls)) by {
        if 0 < ls {
            assert(b[ls - 1] == 10) by {
                lemma_line_start_nl(b, x);
            }
            crate::text::lemma_boundary_after_ascii(b, ls - 1);
        }
    }
    lemma_walk_units(b, ls, x, end);
}

proof fn lemma_line_start_nl(b: Seq<u8>, x: int)
    requires
        0 <= x <= b.len(),
    ensures
        line_start_of(b, x) > 0 ==> b[line_start_of(b, x) - 1] == 10,
    decreases x,
{
    if x > 0 && b[x - 1] != 10 {
        lemma_line_start_nl(b, x - 1);
    }
}

} // verus!
