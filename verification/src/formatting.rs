//! The conservative line-based formatter.
//!
//! Each line is re-indented to two spaces per structural level and normalized
//! (`key: value`, `- item`, `# comment`, `@directive value`, `let a = b`), while
//! block scalars, fenced Lua and `lua{ ... }` blocks are copied unchanged and the
//! text keeps its line ending style.
use vstd::prelude::*;
use vstd::utf8::valid_utf8;

use crate::parser::ParsedDocument;
use crate::syntax::{FileId, FormatResult, ParserBackend, SourceSpan, TextEdit};
use crate::text::{
    all_ascii, bytes_to_string, char_boundary, find_byte, find_byte_exec, lemma_ascii_valid,
    lemma_boundary_after_ascii, lemma_find_byte_bounds, lemma_piece_valid, lemma_run_of_bounds,
    lemma_skip_ws_back_boundary, lemma_skip_ws_back_bounds, lemma_skip_ws_boundary,
    lemma_skip_ws_bounds, lemma_str_valid, matches_at, matches_at_exec, push_ascii, push_piece,
    push_range, run_of_blank, skip_ws, skip_ws_back, trim_end_at, trim_start_at, utf8,
    count_blank_run, bytes_eq, piece_eq, ws_width, ws_width_at,
};

verus! {

broadcast use vstd::utf8::valid_utf8_concat;

/// A line of the text: its start, its end including the line feed, its content without
/// the line feed and a carriage return before it, and whether a line feed ended it.
#[derive(Debug, Clone, PartialEq, Eq)]
pub(crate) struct Line {
    pub(crate) start: usize,
    pub(crate) end_with_newline: usize,
    pub(crate) content: Vec<u8>,
    pub(crate) has_newline: bool,
}

/// Spec view of a line: (start, end with line feed, content bytes, has line feed).
pub type LineT = (int, int, Seq<u8>, bool);

pub(crate) open spec fn lines_view(lines: Seq<Line>) -> Seq<LineT> {
    lines.map_values(|l: Line| l.view_line())
}

impl Line {
    pub(crate) open spec fn view_line(&self) -> LineT {
        (self.start as int, self.end_with_newline as int, self.content@, self.has_newline)
    }

    fn new(start: usize, end_with_newline: usize, content: Vec<u8>, has_newline: bool) -> (line:
        Self)
        ensures
            line.view_line() == (start as int, end_with_newline as int, content@, has_newline),
    {
        Line { start, end_with_newline, content, has_newline }
    }

    fn with_content(&self, content: Vec<u8>) -> (line: Self)
        ensures
            line.view_line() == (
                self.start as int,
                self.end_with_newline as int,
                content@,
                self.has_newline,
            ),
    {
        Line {
            start: self.start,
            end_with_newline: self.end_with_newline,
            content,
            has_newline: self.has_newline,
        }
    }

    /// Leading spaces and tabs of the content.
    fn leading_indent(&self) -> (n: usize)
        ensures
            n == run_of_blank(self.content@, 0, self.content@.len() as int),
    {
        count_blank_run(self.content.as_slice(), 0, self.content.len())
    }
}

/// What the formatter is inside of.
#[derive(Debug, Clone, Copy, PartialEq, Eq, Structural)]
pub enum BlockMode {
    Normal,
    IndentedBlock(usize),
    Fence,
    BraceBlock,
}

impl BlockMode {
    pub open spec fn preserves(self, indent: int, empty: bool) -> bool {
        match self {
            BlockMode::Normal => false,
            BlockMode::IndentedBlock(base) => empty || indent > base,
            BlockMode::Fence | BlockMode::BraceBlock => true,
        }
    }

    pub open spec fn ends_after(self, t: Seq<u8>) -> bool {
        match self {
            BlockMode::Normal => true,
            BlockMode::IndentedBlock(_) => false,
            BlockMode::Fence => t == fence_close(),
            BlockMode::BraceBlock => t == seq![0x7du8],
        }
    }

    fn should_preserve(self, indent: usize, trimmed_empty: bool) -> (r: bool)
        ensures
            r == self.preserves(indent as int, trimmed_empty),
    {
        match self {
            BlockMode::Normal => false,
            BlockMode::IndentedBlock(base_indent) => trimmed_empty || indent > base_indent,
            BlockMode::Fence | BlockMode::BraceBlock => true,
        }
    }

    fn ends_after_line(self, c: &[u8], s: usize, e: usize) -> (r: bool)
        requires
            s <= e <= c@.len(),
        ensures
            r == self.ends_after(c@.subrange(s as int, e as int)),
    {
        let close: [u8; 3] = ['`' as u8, '`' as u8, '`' as u8];
        let brace: [u8; 1] = ['}' as u8];
        proof {
            assert(close@ =~= fence_close());
            assert(brace@ =~= seq![0x7du8]);
        }
        match self {
            BlockMode::Normal => true,
            BlockMode::IndentedBlock(_) => false,
            BlockMode::Fence => piece_eq(c, s, e, close.as_slice()),
            BlockMode::BraceBlock => piece_eq(c, s, e, brace.as_slice()),
        }
    }
}

pub open spec fn fence_close() -> Seq<u8> {
    seq![0x60u8, 0x60u8, 0x60u8]
}

/// "```lua"
pub open spec fn fence_lua() -> Seq<u8> {
    seq![0x60u8, 0x60u8, 0x60u8, 0x6cu8, 0x75u8, 0x61u8]
}

/// "lua{"
pub open spec fn lua_brace() -> Seq<u8> {
    seq![0x6cu8, 0x75u8, 0x61u8, 0x7bu8]
}

/// "let "
pub open spec fn let_prefix() -> Seq<u8> {
    seq![0x6cu8, 0x65u8, 0x74u8, 0x20u8]
}

// ---------------------------------------------------------------------------
// Lines
pub open spec fn strip_cr_end(b: Seq<u8>, lo: int, hi: int) -> int {
    if hi > lo && b[hi - 1] == 13 {
        hi - 1
    } else {
        hi
    }
}

/// The line of `b` that starts at `p`.
pub open spec fn line_from(b: Seq<u8>, p: int) -> LineT {
    let n = b.len() as int;
    match find_byte(b, p, n, 10) {
        Some(e) => (p, e + 1, b.subrange(p, strip_cr_end(b, p, e)), true),
        None => (p, n, b.subrange(p, strip_cr_end(b, p, n)), false),
    }
}

pub open spec fn lines_from(b: Seq<u8>, p: int) -> Seq<LineT>
    decreases b.len() - p,
{
    if p < 0 || p >= b.len() {
        seq![]
    } else {
        let next = line_from(b, p).1;
        if next <= p || next > b.len() {
            seq![]
        } else {
            seq![line_from(b, p)] + lines_from(b, next)
        }
    }
}

/// The lines of `b` (one empty line for an empty text).
pub open spec fn split_lines_spec(b: Seq<u8>) -> Seq<LineT> {
    if b.len() == 0 {
        seq![(0int, 0int, Seq::<u8>::empty(), false)]
    } else {
        lines_from(b, 0)
    }
}

pub proof fn lemma_line_from(b: Seq<u8>, p: int)
    requires
        0 <= p < b.len(),
    ensures
        p < line_from(b, p).1 <= b.len(),
        line_from(b, p).0 == p,
        line_from(b, p).3 ==> b[line_from(b, p).1 - 1] == 10,
        !line_from(b, p).3 ==> line_from(b, p).1 == b.len(),
        ({
            let body_end = if line_from(b, p).3 {
                line_from(b, p).1 - 1
            } else {
                line_from(b, p).1
            };
            &&& line_from(b, p).2 == b.subrange(p, strip_cr_end(b, p, body_end))
            &&& p <= strip_cr_end(b, p, body_end) <= body_end
        }),
{
    lemma_find_byte_bounds(b, p, b.len() as int, 10);
}

// ---------------------------------------------------------------------------
// Trimming and normalization of one line
/// Bounds of `str::trim_end` followed by `str::trim_start` on `c`.
pub open spec fn trim_bounds(c: Seq<u8>) -> (int, int) {
    let e = skip_ws_back(c, 0, c.len() as int);
    (skip_ws(c, 0, e), e)
}

/// First white-space character in `c[lo..hi]` (or `hi`).
pub open spec fn first_ws(c: Seq<u8>, lo: int, hi: int) -> int
    decreases hi - lo,
{
    if lo >= hi {
        hi
    } else if ws_width(c, lo, hi) > 0 {
        lo
    } else {
        first_ws(c, lo + 1, hi)
    }
}

pub open spec fn is_doc_boundary(t: Seq<u8>) -> bool {
    t == seq![0x2du8, 0x2du8, 0x2du8] || t == seq![0x2eu8, 0x2eu8, 0x2eu8]
}

/// Normal form of the trimmed line `c[s..e]`.
pub open spec fn normalize_spec(c: Seq<u8>, s: int, e: int) -> Seq<u8> {
    if s < e && c[s] == 0x23 {
        let r = skip_ws(c, s + 1, e);
        if r == e {
            seq![0x23u8]
        } else {
            seq![0x23u8, 0x20u8] + c.subrange(r, e)
        }
    } else if s < e && c[s] == 0x40 {
        let h = first_ws(c, s, e);
        if h == e {
            c.subrange(s, e)
        } else {
            let rs = skip_ws(c, h + ws_width(c, h, e), e);
            let re = skip_ws_back(c, rs, e);
            if rs == re {
                c.subrange(s, h)
            } else {
                c.subrange(s, h) + seq![0x20u8] + c.subrange(rs, re)
            }
        }
    } else if matches_at(c, s, e, let_prefix()) {
        let r = s + 4;
        match find_byte(c, r, e, 0x3d) {
            Some(q) => {
                let ns = skip_ws(c, r, q);
                let ne = skip_ws_back(c, ns, q);
                let vs = skip_ws(c, q + 1, e);
                let ve = skip_ws_back(c, vs, e);
                let_prefix() + c.subrange(ns, ne) + seq![0x20u8, 0x3du8, 0x20u8] + c.subrange(vs, ve)
            },
            None => {
                let ns = skip_ws(c, r, e);
                let ne = skip_ws_back(c, ns, e);
                let_prefix() + c.subrange(ns, ne)
            },
        }
    } else if s < e && c[s] == 0x2d {
        let rs = skip_ws(c, s + 1, e);
        let re = skip_ws_back(c, rs, e);
        if rs == re {
            seq![0x2du8]
        } else {
            seq![0x2du8, 0x20u8] + c.subrange(rs, re)
        }
    } else if !(s < e && (c[s] == 0x3f || c[s] == 0x21)) && !matches_at(
        c,
        s,
        e,
        seq![0x2eu8, 0x2eu8, 0x2eu8],
    ) && find_byte(c, s, e, 0x3a) is Some {
        let k = find_byte(c, s, e, 0x3a)->0;
        let ke = skip_ws_back(c, s, k);
        let vs = skip_ws(c, k + 1, e);
        let ve = skip_ws_back(c, vs, e);
        if vs == ve {
            c.subrange(s, ke) + seq![0x3au8]
        } else {
            c.subrange(s, ke) + seq![0x3au8, 0x20u8] + c.subrange(vs, ve)
        }
    } else {
        c.subrange(s, e)
    }
}

/// Block mode that the trimmed line `c[s..e]` opens, if any.
pub open spec fn block_mode_spec(c: Seq<u8>, s: int, e: int, indent: int) -> Option<BlockMode> {
    let from_value = match find_byte(c, s, e, 0x3a) {
        Some(k) => {
            let vs = skip_ws(c, k + 1, e);
            let ve = skip_ws_back(c, vs, e);
            if vs < ve && (c[vs] == 0x7c || c[vs] == 0x3e) {
                Some(BlockMode::IndentedBlock(indent as usize))
            } else if matches_at(c, vs, ve, fence_lua()) {
                Some(BlockMode::Fence)
            } else {
                None
            }
        },
        None => None,
    };
    if from_value is Some {
        from_value
    } else if matches_at(c, s, e, fence_lua()) {
        Some(BlockMode::Fence)
    } else if matches_at(c, s, e, lua_brace()) && !(s < e && c[e - 1] == 0x7d) {
        Some(BlockMode::BraceBlock)
    } else {
        None
    }
}

/// `"  "` repeated `level` times.
pub open spec fn indent_bytes(level: int) -> Seq<u8>
    decreases level,
{
    if level <= 0 {
        seq![]
    } else {
        indent_bytes(level - 1) + seq![0x20u8, 0x20u8]
    }
}

/// Indentation stack after dropping every level deeper than `indent`.
pub open spec fn pop_deeper(stack: Seq<(int, int)>, indent: int) -> Seq<(int, int)>
    decreases stack.len(),
{
    if stack.len() > 0 && stack.last().0 > indent {
        pop_deeper(stack.drop_last(), indent)
    } else {
        stack
    }
}

/// New stack and structural level of a line indented by `indent`.
pub open spec fn level_step(stack: Seq<(int, int)>, indent: int) -> (Seq<(int, int)>, int) {
    let st = pop_deeper(stack, indent);
    if st.len() == 0 {
        (st, 0)
    } else if st.last().0 == indent {
        (st, st.last().1)
    } else {
        (st.push((indent, st.last().1 + 1)), st.last().1 + 1)
    }
}

/// One formatter step on the line content `c`: new stack, new mode, formatted content.
pub open spec fn format_step(stack: Seq<(int, int)>, mode: BlockMode, c: Seq<u8>) -> (
    Seq<(int, int)>,
    BlockMode,
    Seq<u8>,
) {
    let (s, e) = trim_bounds(c);
    let t = c.subrange(s, e);
    let indent = run_of_blank(c, 0, c.len() as int);
    if mode.preserves(indent, s == e) {
        (stack, if mode.ends_after(t) {
            BlockMode::Normal
        } else {
            mode
        }, c)
    } else {
        let (stack2, content) = if s == e {
            (stack, Seq::<u8>::empty())
        } else if is_doc_boundary(t) {
            (stack, t)
        } else {
            let (st, level) = level_step(stack, indent);
            (st, indent_bytes(level) + normalize_spec(c, s, e))
        };
        let mode2 = match block_mode_spec(c, s, e, indent) {
            Some(m) => m,
            None => BlockMode::Normal,
        };
        (stack2, mode2, content)
    }
}

/// Formatter state (stack, mode) before line `k`.
pub open spec fn state_before(lines: Seq<LineT>, k: int) -> (Seq<(int, int)>, BlockMode)
    decreases k,
{
    if k <= 0 {
        (seq![(0int, 0int)], BlockMode::Normal)
    } else {
        let (st, m) = state_before(lines, k - 1);
        let (st2, m2, _) = format_step(st, m, lines[k - 1].2);
        (st2, m2)
    }
}

/// Formatted content of line `k`.
pub open spec fn formatted_content(lines: Seq<LineT>, k: int) -> Seq<u8> {
    let (st, m) = state_before(lines, k);
    format_step(st, m, lines[k].2).2
}

pub open spec fn line_ending(crlf: bool) -> Seq<u8> {
    if crlf {
        seq![13u8, 10u8]
    } else {
        seq![10u8]
    }
}

/// Contents `contents[lo..hi]` of `lines[lo..hi]`, each followed by the line ending where a
/// line feed ended the line.
pub open spec fn join_spec(lines: Seq<LineT>, contents: Seq<Seq<u8>>, lo: int, hi: int, crlf: bool) -> Seq<u8>
    decreases hi - lo,
{
    if hi <= lo {
        seq![]
    } else {
        join_spec(lines, contents, lo, hi - 1, crlf) + contents[hi - 1] + (if lines[hi - 1].3 {
            line_ending(crlf)
        } else {
            seq![]
        })
    }
}

pub open spec fn original_contents(lines: Seq<LineT>) -> Seq<Seq<u8>> {
    Seq::new(lines.len(), |k: int| lines[k].2)
}

pub open spec fn formatted_contents(lines: Seq<LineT>) -> Seq<Seq<u8>> {
    Seq::new(lines.len(), |k: int| formatted_content(lines, k))
}

/// A carriage return followed by a line feed starts at `i`.
pub open spec fn crlf_at(b: Seq<u8>, i: int) -> bool {
    0 <= i && i + 1 < b.len() && b[i] == 13 && b[i + 1] == 10
}

pub open spec fn contains_crlf(b: Seq<u8>) -> bool {
    exists|i: int| #[trigger] crlf_at(b, i)
}

/// `text.replace("\r\n", "\n")` from offset `i`.
pub open spec fn crlf_to_lf(b: Seq<u8>, i: int) -> Seq<u8>
    decreases b.len() - i,
{
    if i < 0 || i >= b.len() {
        seq![]
    } else if i + 1 < b.len() && b[i] == 13 && b[i + 1] == 10 {
        seq![10u8] + crlf_to_lf(b, i + 2)
    } else {
        seq![b[i]] + crlf_to_lf(b, i + 1)
    }
}

/// `text.replace("\n", "\r\n")` from offset `i`.
pub open spec fn lf_to_crlf(b: Seq<u8>, i: int) -> Seq<u8>
    decreases b.len() - i,
{
    if i < 0 || i >= b.len() {
        seq![]
    } else if b[i] == 10 {
        seq![13u8, 10u8] + lf_to_crlf(b, i + 1)
    } else {
        seq![b[i]] + lf_to_crlf(b, i + 1)
    }
}

/// The text converted to one line ending style.
pub open spec fn apply_line_ending_spec(b: Seq<u8>, crlf: bool) -> Seq<u8> {
    if crlf {
        lf_to_crlf(crlf_to_lf(b, 0), 0)
    } else {
        crlf_to_lf(b, 0)
    }
}

/// The fallback formatter's output for the text `b`.
pub open spec fn fallback_format_spec(b: Seq<u8>) -> Seq<u8> {
    let lines = split_lines_spec(b);
    join_spec(lines, formatted_contents(lines), 0, lines.len() as int, contains_crlf(b))
}

/// A line's text without the white space at its two ends.
pub open spec fn trimmed_text(c: Seq<u8>) -> Seq<u8> {
    c.subrange(trim_bounds(c).0, trim_bounds(c).1)
}

proof fn lemma_fence_opens(stack: Seq<(int, int)>, c: Seq<u8>)
    requires
        trimmed_text(c) == fence_lua(),
    ensures
        format_step(stack, BlockMode::Normal, c).1 == BlockMode::Fence,
{
    let (s, e) = trim_bounds(c);
    crate::text::lemma_skip_ws_back_bounds(c, 0, c.len() as int);
    crate::text::lemma_skip_ws_bounds(c, 0, e);
    crate::text::lemma_find_byte_bounds(c, s, e, 0x3a);
    if find_byte(c, s, e, 0x3a) is Some {
        let q = find_byte(c, s, e, 0x3a)->Some_0;
        assert(c[q] == trimmed_text(c)[q - s]);
    }
    assert(c.subrange(s, s + fence_lua().len()) =~= fence_lua());
}

proof fn lemma_fence_state(lines: Seq<LineT>, k: int, j: int)
    requires
        0 <= k < j <= lines.len(),
        state_before(lines, k).1 == BlockMode::Normal,
        trimmed_text(lines[k].2) == fence_lua(),
        forall|i: int| k < i < j ==> trimmed_text(#[trigger] lines[i].2) != fence_close(),
    ensures
        state_before(lines, j).1 == BlockMode::Fence,
    decreases j - k,
{
    if j == k + 1 {
        lemma_fence_opens(state_before(lines, k).0, lines[k].2);
    } else {
        lemma_fence_state(lines, k, j - 1);
        assert(trimmed_text(lines[j - 1].2) != fence_close());
    }
}

/// The lines of a fenced Lua block are copied as they are: after a line that opens the
/// fence (its trimmed text is exactly "```lua", met outside any block), every line up to
/// and including the first line whose trimmed text is "```" comes out unchanged.
pub proof fn law_fenced_lua_kept(b: Seq<u8>, k: int, m: int)
    requires
        0 <= k < m < split_lines_spec(b).len(),
        state_before(split_lines_spec(b), k).1 == BlockMode::Normal,
        trimmed_text(split_lines_spec(b)[k].2) == fence_lua(),
        forall|i: int| k < i < m ==> trimmed_text(#[trigger] split_lines_spec(b)[i].2) != fence_close(),
    ensures
        forall|j: int| k < j <= m ==> (#[trigger] formatted_contents(split_lines_spec(b))[j]) == split_lines_spec(b)[j].2,
{
    let lines = split_lines_spec(b);
    assert forall|j: int| k < j <= m implies (#[trigger] formatted_contents(lines)[j]) == lines[j].2 by {
        lemma_fence_state(lines, k, j);
    }
}

// ---------------------------------------------------------------------------
// Executable formatter
pub(crate) fn preferred_line_ending(b: &[u8]) -> (crlf: bool)
    ensures
        crlf == contains_crlf(b@),
{
    let mut i: usize = 0;
    while i < b.len() && b.len() - i > 1
        invariant
            i <= b@.len(),
            forall|k: int| 0 <= k < i ==> !#[trigger] crlf_at(b@, k),
        decreases b@.len() - i,
    {
        if b[i] == 13 && b[i + 1] == 10 {
            assert(crlf_at(b@, i as int));
            return true;
        }
        i = i + 1;
    }
    false
}

pub(crate) fn crlf_to_lf_exec(b: &[u8]) -> (out: Vec<u8>)
    ensures
        out@ == crlf_to_lf(b@, 0),
{
    let mut out: Vec<u8> = Vec::new();
    let mut i: usize = 0;
    while i < b.len()
        invariant
            i <= b@.len() + 1,
            crlf_to_lf(b@, 0) == out@ + crlf_to_lf(b@, i as int),
        decreases b@.len() - i,
    {
        if i + 1 < b.len() && b[i] == 13 && b[i + 1] == 10 {
            out.push(10);
            assert(crlf_to_lf(b@, i as int) == seq![10u8] + crlf_to_lf(b@, i + 2));
            i = i + 2;
        } else {
            out.push(b[i]);
            assert(crlf_to_lf(b@, i as int) == seq![b@[i as int]] + crlf_to_lf(b@, i + 1));
            i = i + 1;
        }
        assert(out@ =~= out@);
    }
    assert(crlf_to_lf(b@, i as int) =~= Seq::<u8>::empty());
    assert(out@ =~= crlf_to_lf(b@, 0));
    out
}

fn lf_to_crlf_exec(b: &[u8]) -> (out: Vec<u8>)
    ensures
        out@ == lf_to_crlf(b@, 0),
{
    let mut out: Vec<u8> = Vec::new();
    let mut i: usize = 0;
    while i < b.len()
        invariant
            i <= b@.len(),
            lf_to_crlf(b@, 0) == out@ + lf_to_crlf(b@, i as int),
        decreases b@.len() - i,
    {
        if b[i] == 10 {
            out.push(13);
            out.push(10);
        } else {
            out.push(b[i]);
        }
        i = i + 1;
    }
    assert(lf_to_crlf(b@, i as int) =~= Seq::<u8>::empty());
    assert(out@ =~= lf_to_crlf(b@, 0));
    out
}

fn apply_line_ending(b: &[u8], crlf: bool) -> (out: Vec<u8>)
    ensures
        out@ == apply_line_ending_spec(b@, crlf),
{
    let lf = crlf_to_lf_exec(b);
    if crlf {
        lf_to_crlf_exec(lf.as_slice())
    } else {
        lf
    }
}

pub(crate) fn split_lines(b: &[u8]) -> (lines: Vec<Line>)
    requires
        valid_utf8(b@),
    ensures
        lines@.len() == split_lines_spec(b@).len(),
        forall|k: int|
            0 <= k < lines@.len() ==> #[trigger] lines@[k].view_line() == split_lines_spec(b@)[k],
        forall|k: int| 0 <= k < lines@.len() ==> valid_utf8(#[trigger] lines@[k].content@),
        lines@.len() >= 1,
{
    let mut lines: Vec<Line> = Vec::new();
    if b.len() == 0 {
        let l = Line::new(0, 0, Vec::new(), false);
        lines.push(l);
        proof {
            assert(l.content@ =~= Seq::<u8>::empty());
            lemma_ascii_valid(l.content@);
        }
        return lines;
    }
    let n = b.len();
    let mut p: usize = 0;
    while p < n
        invariant
            n == b@.len(),
            n > 0,
            valid_utf8(b@),
            p <= n,
            char_boundary(b@, p as int),
            lines_from(b@, 0) =~= lines@.map_values(|l: Line| l.view_line()) + lines_from(b@, p as int),
            forall|k: int| 0 <= k < lines@.len() ==> valid_utf8(#[trigger] lines@[k].content@),
        decreases n - p,
    {
        proof {
            lemma_line_from(b@, p as int);
        }
        let (end, has_newline) = match find_byte_exec(b, p, n, 10) {
            Some(e) => (e + 1, true),
            None => (n, false),
        };
        let body_end = if has_newline {
            end - 1
        } else {
            end
        };
        let content_end = if body_end > p && b[body_end - 1] == 13 {
            body_end - 1
        } else {
            body_end
        };
        proof {
            if has_newline {
                assert(b@[end - 1] == 10);
                lemma_boundary_after_ascii(b@, end - 1);
            }
            if content_end < n {
                assert(b@[content_end as int] == 13 || b@[content_end as int] == 10);
            }
            lemma_piece_valid(b@, p as int, content_end as int);
        }
        let mut content: Vec<u8> = Vec::new();
        push_range(&mut content, b, p, content_end);
        let line = Line::new(p, end, content, has_newline);
        let ghost old_lines = lines@;
        lines.push(line);
        proof {
            assert(line.view_line() == line_from(b@, p as int));
            assert(lines_from(b@, p as int) =~= seq![line_from(b@, p as int)] + lines_from(
                b@,
                end as int,
            ));
            assert(lines@.map_values(|l: Line| l.view_line()) =~= old_lines.map_values(
                |l: Line| l.view_line(),
            ).push(line.view_line()));
        }
        p = end;
    }
    proof {
        lemma_line_from(b@, 0);
        assert(lines_from(b@, 0).len() >= 1);
        assert(lines_from(b@, p as int) =~= Seq::<LineT>::empty());
        assert forall|k: int| 0 <= k < lines@.len() implies #[trigger] lines@[k].view_line()
            == split_lines_spec(b@)[k] by {
            assert(lines@.map_values(|l: Line| l.view_line())[k] == lines@[k].view_line());
        }
    }
    lines
}

/// Start of the trimmed content.
pub(crate) fn trim_bounds_exec(c: &[u8]) -> (r: (usize, usize))
    requires
        valid_utf8(c@),
    ensures
        r.0 as int == trim_bounds(c@).0,
        r.1 as int == trim_bounds(c@).1,
        r.0 <= r.1 <= c@.len(),
        char_boundary(c@, r.0 as int),
        char_boundary(c@, r.1 as int),
{
    let e = trim_end_at(c, 0, c.len());
    let s = trim_start_at(c, 0, e);
    proof {
        lemma_skip_ws_back_boundary(c@, 0, c@.len() as int);
        lemma_skip_ws_boundary(c@, 0, e as int);
    }
    (s, e)
}

/// `trim_bounds` on any bytes.
pub(crate) fn trim_bounds_plain(c: &[u8]) -> (r: (usize, usize))
    ensures
        r.0 as int == trim_bounds(c@).0,
        r.1 as int == trim_bounds(c@).1,
        r.0 <= r.1 <= c@.len(),
{
    proof {
        lemma_skip_ws_back_bounds(c@, 0, c@.len() as int);
    }
    let e = trim_end_at(c, 0, c.len());
    proof {
        lemma_skip_ws_bounds(c@, 0, e as int);
    }
    let s = trim_start_at(c, 0, e);
    (s, e)
}

pub(crate) fn first_ws_exec(c: &[u8], lo: usize, hi: usize) -> (p: usize)
    requires
        lo <= hi <= c@.len(),
    ensures
        p == first_ws(c@, lo as int, hi as int),
        lo <= p <= hi,
        p < hi ==> ws_width(c@, p as int, hi as int) > 0,
{
    let mut i = lo;
    while i < hi && ws_width_at(c, i, hi) == 0
        invariant
            lo <= i <= hi <= c@.len(),
            first_ws(c@, i as int, hi as int) == first_ws(c@, lo as int, hi as int),
        decreases hi - i,
    {
        i = i + 1;
    }
    i
}

pub(crate) proof fn lemma_first_ws_boundary(c: Seq<u8>, lo: int, hi: int)
    requires
        0 <= lo <= hi <= c.len(),
    ensures
        first_ws(c, lo, hi) < hi ==> char_boundary(c, first_ws(c, lo, hi)),
    decreases hi - lo,
{
    if lo < hi && ws_width(c, lo, hi) == 0 {
        lemma_first_ws_boundary(c, lo + 1, hi);
    }
}

/// The trimmed piece `c[x..y]` (trim on both sides) appended to `out`.
pub(crate) fn trimmed_piece(c: &[u8], x: usize, y: usize) -> (r: (usize, usize))
    requires
        valid_utf8(c@),
        x <= y <= c@.len(),
        char_boundary(c@, x as int),
        char_boundary(c@, y as int),
    ensures
        r.0 as int == skip_ws(c@, x as int, y as int),
        r.1 as int == skip_ws_back(c@, r.0 as int, y as int),
        x <= r.0 <= r.1 <= y,
        char_boundary(c@, r.0 as int),
        char_boundary(c@, r.1 as int),
{
    let s = trim_start_at(c, x, y);
    let e = trim_end_at(c, s, y);
    proof {
        lemma_skip_ws_boundary(c@, x as int, y as int);
        lemma_skip_ws_back_boundary(c@, s as int, y as int);
    }
    (s, e)
}

fn normalize_line(c: &[u8], s: usize, e: usize) -> (out: Vec<u8>)
    requires
        valid_utf8(c@),
        s <= e <= c@.len(),
        char_boundary(c@, s as int),
        char_boundary(c@, e as int),
    ensures
        out@ == normalize_spec(c@, s as int, e as int),
        valid_utf8(out@),
{
    let mut out: Vec<u8> = Vec::new();
    proof {
        lemma_ascii_valid(out@);
    }
    let let_pat: [u8; 4] = ['l' as u8, 'e' as u8, 't' as u8, ' ' as u8];
    let dots: [u8; 3] = ['.' as u8, '.' as u8, '.' as u8];
    proof {
        assert(let_pat@ =~= let_prefix());
        assert(dots@ =~= seq![0x2eu8, 0x2eu8, 0x2eu8]);
    }
    if s < e && c[s] == 0x23 {
        proof {
            lemma_boundary_after_ascii(c@, s as int);
        }
        let r = trim_start_at(c, s + 1, e);
        proof {
            lemma_skip_ws_boundary(c@, s + 1, e as int);
        }
        push_ascii(&mut out, 0x23);
        if r != e {
            push_ascii(&mut out, 0x20);
            push_piece(&mut out, c, r, e);
        }
        assert(out@ =~= normalize_spec(c@, s as int, e as int));
        return out;
    }
    if s < e && c[s] == 0x40 {
        let h = first_ws_exec(c, s, e);
        proof {
            lemma_first_ws_boundary(c@, s as int, e as int);
        }
        if h == e {
            push_piece(&mut out, c, s, e);
        } else {
            let w = ws_width_at(c, h, e);
            proof {
                crate::text::lemma_boundary_after_ws(c@, h as int, e as int);
            }
            let (rs, re) = trimmed_piece(c, h + w, e);
            push_piece(&mut out, c, s, h);
            if rs != re {
                push_ascii(&mut out, 0x20);
                push_piece(&mut out, c, rs, re);
            }
        }
        assert(out@ =~= normalize_spec(c@, s as int, e as int));
        return out;
    }
    if matches_at_exec(c, s, e, let_pat.as_slice()) {
        proof {
            assert(c@.subrange(s as int, s + 4)[3] == c@[s + 3]);
            lemma_boundary_after_ascii(c@, s + 3);
        }
        let r = s + 4;
        push_ascii(&mut out, 0x6c);
        push_ascii(&mut out, 0x65);
        push_ascii(&mut out, 0x74);
        push_ascii(&mut out, 0x20);
        proof {
            lemma_find_byte_bounds(c@, r as int, e as int, 0x3d);
        }
        match find_byte_exec(c, r, e, 0x3d) {
            Some(q) => {
                proof {
                    lemma_boundary_after_ascii(c@, q as int);
                }
                let (ns, ne) = trimmed_piece(c, r, q);
                let (vs, ve) = trimmed_piece(c, q + 1, e);
                push_piece(&mut out, c, ns, ne);
                push_ascii(&mut out, 0x20);
                push_ascii(&mut out, 0x3d);
                push_ascii(&mut out, 0x20);
                push_piece(&mut out, c, vs, ve);
            },
            None => {
                let (ns, ne) = trimmed_piece(c, r, e);
                push_piece(&mut out, c, ns, ne);
            },
        }
        assert(out@ =~= normalize_spec(c@, s as int, e as int));
        return out;
    }
    if s < e && c[s] == 0x2d {
        proof {
            lemma_boundary_after_ascii(c@, s as int);
        }
        let (rs, re) = trimmed_piece(c, s + 1, e);
        push_ascii(&mut out, 0x2d);
        if rs != re {
            push_ascii(&mut out, 0x20);
            push_piece(&mut out, c, rs, re);
        }
        assert(out@ =~= normalize_spec(c@, s as int, e as int));
        return out;
    }
    let mapping_like = !(s < e && (c[s] == 0x3f || c[s] == 0x21)) && !matches_at_exec(
        c,
        s,
        e,
        dots.as_slice(),
    );
    proof {
        lemma_find_byte_bounds(c@, s as int, e as int, 0x3a);
    }
    if mapping_like {
        if let Some(k) = find_byte_exec(c, s, e, 0x3a) {
            proof {
                lemma_boundary_after_ascii(c@, k as int);
                lemma_skip_ws_back_boundary(c@, s as int, k as int);
                lemma_skip_ws_back_bounds(c@, s as int, k as int);
            }
            let ke = trim_end_at(c, s, k);
            let (vs, ve) = trimmed_piece(c, k + 1, e);
            push_piece(&mut out, c, s, ke);
            push_ascii(&mut out, 0x3a);
            if vs != ve {
                push_ascii(&mut out, 0x20);
                push_piece(&mut out, c, vs, ve);
            }
            assert(out@ =~= normalize_spec(c@, s as int, e as int));
            return out;
        }
    }
    push_piece(&mut out, c, s, e);
    assert(out@ =~= normalize_spec(c@, s as int, e as int));
    out
}

fn block_mode_for(c: &[u8], s: usize, e: usize, indent: usize) -> (m: Option<BlockMode>)
    requires
        s <= e <= c@.len(),
    ensures
        m == block_mode_spec(c@, s as int, e as int, indent as int),
{
    let fence: [u8; 6] = ['`' as u8, '`' as u8, '`' as u8, 'l' as u8, 'u' as u8, 'a' as u8];
    let brace: [u8; 4] = ['l' as u8, 'u' as u8, 'a' as u8, '{' as u8];
    proof {
        assert(fence@ =~= fence_lua());
        assert(brace@ =~= lua_brace());
        lemma_find_byte_bounds(c@, s as int, e as int, 0x3a);
    }
    if let Some(k) = find_byte_exec(c, s, e, 0x3a) {
        let vs = trim_start_at(c, k + 1, e);
        let ve = trim_end_at(c, vs, e);
        if vs < ve && (c[vs] == 0x7c || c[vs] == 0x3e) {
            return Some(BlockMode::IndentedBlock(indent));
        }
        if matches_at_exec(c, vs, ve, fence.as_slice()) {
            return Some(BlockMode::Fence);
        }
    }
    if matches_at_exec(c, s, e, fence.as_slice()) {
        return Some(BlockMode::Fence);
    }
    if matches_at_exec(c, s, e, brace.as_slice()) && !(s < e && c[e - 1] == 0x7d) {
        return Some(BlockMode::BraceBlock);
    }
    None
}

fn is_document_boundary(c: &[u8], s: usize, e: usize) -> (r: bool)
    requires
        s <= e <= c@.len(),
    ensures
        r == is_doc_boundary(c@.subrange(s as int, e as int)),
{
    let dashes: [u8; 3] = ['-' as u8, '-' as u8, '-' as u8];
    let dots: [u8; 3] = ['.' as u8, '.' as u8, '.' as u8];
    proof {
        assert(dashes@ =~= seq![0x2du8, 0x2du8, 0x2du8]);
        assert(dots@ =~= seq![0x2eu8, 0x2eu8, 0x2eu8]);
    }
    piece_eq(c, s, e, dashes.as_slice()) || piece_eq(c, s, e, dots.as_slice())
}

/// Pops deeper levels and returns the level of a line indented by `indent`.
fn enter_level(stack: &mut Vec<(usize, usize)>, indent: usize) -> (level: usize)
    requires
        old(stack)@.len() > 0,
        old(stack)@[0] == (0usize, 0usize),
        forall|k: int| 0 <= k < old(stack)@.len() ==> #[trigger] old(stack)@[k].1 == k,
    ensures
        ({
            let (st, lvl) = level_step(stack_view(old(stack)@), indent as int);
            &&& stack_view(final(stack)@) == st
            &&& level as int == lvl
        }),
        final(stack)@.len() > 0,
        final(stack)@[0] == (0usize, 0usize),
        forall|k: int| 0 <= k < final(stack)@.len() ==> #[trigger] final(stack)@[k].1 == k,
        final(stack)@.len() <= old(stack)@.len() + 1,
{
    let ghost orig = stack@;
    while stack.len() > 0 && stack[stack.len() - 1].0 > indent
        invariant
            stack@.len() > 0 ==> stack@[0] == (0usize, 0usize),
            forall|k: int| 0 <= k < stack@.len() ==> #[trigger] stack@[k].1 == k,
            pop_deeper(stack_view(orig), indent as int) == pop_deeper(stack_view(stack@), indent as int),
            stack@.len() <= orig.len(),
            stack@.len() > 0 || orig.len() == 0,
        decreases stack@.len(),
    {
        let ghost before = stack@;
        stack.pop();
        proof {
            assert(stack_view(before).drop_last() =~= stack_view(stack@));
        }
    }
    proof {
        assert(pop_deeper(stack_view(stack@), indent as int) == stack_view(stack@));
    }
    let top = stack[stack.len() - 1];
    if top.0 == indent {
        top.1
    } else {
        let next = top.1 + 1;
        stack.push((indent, next));
        proof {
            assert(stack_view(stack@) =~= pop_deeper(stack_view(orig), indent as int).push(
                (indent as int, next as int),
            ));
        }
        next
    }
}

pub open spec fn stack_view(stack: Seq<(usize, usize)>) -> Seq<(int, int)> {
    stack.map_values(|p: (usize, usize)| (p.0 as int, p.1 as int))
}

fn push_indent(out: &mut Vec<u8>, level: usize)
    requires
        valid_utf8(old(out)@),
    ensures
        final(out)@ == old(out)@ + indent_bytes(level as int),
        valid_utf8(final(out)@),
{
    let ghost o = out@;
    let mut k: usize = 0;
    while k < level
        invariant
            k <= level,
            out@ == o + indent_bytes(k as int),
            valid_utf8(out@),
        decreases level - k,
    {
        push_ascii(out, 0x20);
        push_ascii(out, 0x20);
        k = k + 1;
        assert(out@ =~= o + indent_bytes(k as int));
    }
}

fn format_lines(lines: &Vec<Line>) -> (formatted: Vec<Line>)
    requires
        forall|k: int| 0 <= k < lines@.len() ==> valid_utf8(#[trigger] lines@[k].content@),
    ensures
        formatted@.len() == lines@.len(),
        forall|k: int|
            #![trigger formatted@[k]]
            0 <= k < formatted@.len() ==> formatted@[k].view_line() == (
                lines@[k].view_line().0,
                lines@[k].view_line().1,
                formatted_content(lines@.map_values(|l: Line| l.view_line()), k),
                lines@[k].view_line().3,
            ),
        forall|k: int| 0 <= k < formatted@.len() ==> valid_utf8(#[trigger] formatted@[k].content@),
{
    let ghost lv = lines@.map_values(|l: Line| l.view_line());
    let mut formatted: Vec<Line> = Vec::new();
    let mut stack: Vec<(usize, usize)> = Vec::new();
    stack.push((0, 0));
    let mut mode = BlockMode::Normal;
    let mut i: usize = 0;
    while i < lines.len()
        invariant
            i <= lines@.len(),
            lv == lines@.map_values(|l: Line| l.view_line()),
            forall|k: int| 0 <= k < lines@.len() ==> valid_utf8(#[trigger] lines@[k].content@),
            formatted@.len() == i,
            (stack_view(stack@), mode) == state_before(lv, i as int),
            stack@.len() > 0,
            stack@[0] == (0usize, 0usize),
            forall|k: int| 0 <= k < stack@.len() ==> #[trigger] stack@[k].1 == k,
            forall|k: int|
                #![trigger formatted@[k]]
                0 <= k < i ==> formatted@[k].view_line() == (
                    lines@[k].view_line().0,
                    lines@[k].view_line().1,
                    formatted_content(lv, k),
                    lines@[k].view_line().3,
                ),
            forall|k: int| 0 <= k < i ==> valid_utf8(#[trigger] formatted@[k].content@),
        decreases lines@.len() - i,
    {
        let line = &lines[i];
        let c = line.content.as_slice();
        assert(lv[i as int].2 == c@);
        let (s, e) = trim_bounds_exec(c);
        let indent = line.leading_indent();
        let ghost step = format_step(stack_view(stack@), mode, c@);
        if mode.should_preserve(indent, s == e) {
            let mut copy: Vec<u8> = Vec::new();
            push_range(&mut copy, c, 0, c.len());
            assert(copy@ =~= c@);
            formatted.push(line.with_content(copy));
            if mode.ends_after_line(c, s, e) {
                mode = BlockMode::Normal;
            }
        } else {
            let mut content: Vec<u8> = Vec::new();
            proof {
                lemma_ascii_valid(content@);
            }
            if s == e {
            } else if is_document_boundary(c, s, e) {
                push_piece(&mut content, c, s, e);
            } else {
                let level = enter_level(&mut stack, indent);
                push_indent(&mut content, level);
                let normalized = normalize_line(c, s, e);
                let ghost before = content@;
                let mut k: usize = 0;
                while k < normalized.len()
                    invariant
                        k <= normalized@.len(),
                        content@ == before + normalized@.subrange(0, k as int),
                    decreases normalized@.len() - k,
                {
                    content.push(normalized[k]);
                    k = k + 1;
                    assert(content@ =~= before + normalized@.subrange(0, k as int));
                }
                assert(normalized@.subrange(0, normalized@.len() as int) =~= normalized@);
                assert(valid_utf8(content@));
            }
            formatted.push(line.with_content(content));
            mode = match block_mode_for(c, s, e, indent) {
                Some(m) => m,
                None => BlockMode::Normal,
            };
        }
        proof {
            assert(formatted@[i as int].content@ == step.2);
            assert((stack_view(stack@), mode) == (step.0, step.1));
            assert(state_before(lv, i + 1) == (step.0, step.1));
        }
        i = i + 1;
    }
    formatted
}

fn join_lines(lines: &Vec<Line>, crlf: bool) -> (out: Vec<u8>)
    requires
        forall|k: int| 0 <= k < lines@.len() ==> valid_utf8(#[trigger] lines@[k].content@),
    ensures
        out@ == join_spec(
            lines@.map_values(|l: Line| l.view_line()),
            lines@.map_values(|l: Line| l.content@),
            0,
            lines@.len() as int,
            crlf,
        ),
        valid_utf8(out@),
{
    join_line_slice(lines, 0, lines.len(), crlf)
}

fn join_line_slice(lines: &Vec<Line>, lo: usize, hi: usize, crlf: bool) -> (out: Vec<u8>)
    requires
        lo <= hi <= lines@.len(),
        forall|k: int| 0 <= k < lines@.len() ==> valid_utf8(#[trigger] lines@[k].content@),
    ensures
        out@ == join_spec(
            lines@.map_values(|l: Line| l.view_line()),
            lines@.map_values(|l: Line| l.content@),
            lo as int,
            hi as int,
            crlf,
        ),
        valid_utf8(out@),
{
    let ghost lv = lines@.map_values(|l: Line| l.view_line());
    let ghost cv = lines@.map_values(|l: Line| l.content@);
    let mut out: Vec<u8> = Vec::new();
    proof {
        lemma_ascii_valid(out@);
    }
    let mut k = lo;
    while k < hi
        invariant
            lo <= k <= hi <= lines@.len(),
            lv == lines@.map_values(|l: Line| l.view_line()),
            cv == lines@.map_values(|l: Line| l.content@),
            forall|j: int| 0 <= j < lines@.len() ==> valid_utf8(#[trigger] lines@[j].content@),
            out@ == join_spec(lv, cv, lo as int, k as int, crlf),
            valid_utf8(out@),
        decreases hi - k,
    {
        let c = lines[k].content.as_slice();
        proof {
            crate::text::lemma_str_valid(Seq::<char>::empty());
            assert(cv[k as int] == c@);
            assert(lv[k as int].3 == lines@[k as int].has_newline);
            assert(c@.subrange(0, c@.len() as int) =~= c@);
            assert(char_boundary(c@, 0));
            assert(char_boundary(c@, c@.len() as int));
        }
        push_piece(&mut out, c, 0, c.len());
        if lines[k].has_newline {
            if crlf {
                push_ascii(&mut out, 13);
            }
            push_ascii(&mut out, 10);
        }
        k = k + 1;
        assert(out@ =~= join_spec(lv, cv, lo as int, k as int, crlf));
    }
    out
}

/// `join_spec` reads only the line feed flags and the contents of the lines it joins.
proof fn lemma_join_congruent(
    l1: Seq<LineT>,
    c1: Seq<Seq<u8>>,
    l2: Seq<LineT>,
    c2: Seq<Seq<u8>>,
    lo: int,
    hi: int,
    crlf: bool,
)
    requires
        0 <= lo,
        hi <= l1.len(),
        hi <= l2.len(),
        hi <= c1.len(),
        hi <= c2.len(),
        forall|k: int| lo <= k < hi ==> #[trigger] l1[k].3 == l2[k].3 && c1[k] == c2[k],
    ensures
        join_spec(l1, c1, lo, hi, crlf) == join_spec(l2, c2, lo, hi, crlf),
    decreases hi - lo,
{
    if hi > lo {
        lemma_join_congruent(l1, c1, l2, c2, lo, hi - 1, crlf);
        assert(l1[hi - 1].3 == l2[hi - 1].3);
    }
}

proof fn lemma_split_lines_len(b: Seq<u8>)
    ensures
        split_lines_spec(b).len() <= b.len() + 1,
{
    lemma_lines_from_len(b, 0);
}

proof fn lemma_lines_from_len(b: Seq<u8>, p: int)
    requires
        0 <= p,
    ensures
        lines_from(b, p).len() <= if p < b.len() {
            b.len() - p
        } else {
            0
        },
    decreases b.len() - p,
{
    if p < b.len() {
        lemma_line_from(b, p);
        lemma_lines_from_len(b, line_from(b, p).1);
    }
}

proof fn lemma_lines_from_bounds(b: Seq<u8>, p: int, k: int)
    requires
        0 <= p,
        0 <= k < lines_from(b, p).len(),
    ensures
        ({
            let l = lines_from(b, p)[k];
            0 <= l.0 <= l.0 + l.2.len() <= l.1 <= b.len()
        }),
    decreases b.len() - p,
{
    if p < b.len() {
        lemma_line_from(b, p);
        if k > 0 {
            lemma_lines_from_bounds(b, line_from(b, p).1, k - 1);
        }
    }
}

/// A line's text lies within the line, and the line within the text.
pub(crate) proof fn lemma_split_line_bounds(b: Seq<u8>, k: int)
    requires
        0 <= k < split_lines_spec(b).len(),
    ensures
        ({
            let l = split_lines_spec(b)[k];
            0 <= l.0 <= l.0 + l.2.len() <= l.1 <= b.len()
        }),
{
    if b.len() > 0 {
        lemma_lines_from_bounds(b, 0, k);
    }
}

/// Formats the whole text with the fallback formatter, keeping its line ending style.
pub fn fallback_format_result(text: &str) -> (result: FormatResult)
    ensures
        utf8(result.text@) == fallback_format_spec(utf8(text@)),
        result.changed == (fallback_format_spec(utf8(text@)) != apply_line_ending_spec(
            utf8(text@),
            contains_crlf(utf8(text@)),
        )),
{
    let b = text.as_bytes();
    proof {
        lemma_str_valid(text@);
        lemma_split_lines_len(b@);
    }
    let crlf = preferred_line_ending(b);
    let lines = split_lines(b);
    let formatted = format_lines(&lines);
    let out = join_lines(&formatted, crlf);
    let original = apply_line_ending(b, crlf);
    proof {
        let lv = lines@.map_values(|l: Line| l.view_line());
        assert(lv =~= split_lines_spec(b@));
        let fv = formatted@.map_values(|l: Line| l.view_line());
        let fc = formatted@.map_values(|l: Line| l.content@);
        lemma_join_congruent(fv, fc, lv, formatted_contents(lv), 0, lv.len() as int, crlf);
    }
    let changed = !bytes_eq(out.as_slice(), original.as_slice());
    FormatResult { text: bytes_to_string(out), changed }
}

// ---------------------------------------------------------------------------
// Range formatting
/// Index of the first line whose bytes `[start, end_with_newline)` hold `x`, searching
/// from line `k`; the last line when none does.
pub open spec fn line_holding(lines: Seq<LineT>, x: int, k: int) -> int
    decreases lines.len() - k,
{
    if k >= lines.len() {
        lines.len() - 1
    } else if lines[k].0 <= x < lines[k].1 {
        k
    } else {
        line_holding(lines, x, k + 1)
    }
}

/// First and last line touched by the byte range `[start, end)`.
pub open spec fn selected_lines(lines: Seq<LineT>, start: int, end: int) -> (int, int) {
    let target_end = if start == end {
        end
    } else if end > 0 {
        end - 1
    } else {
        0
    };
    let a = line_holding(lines, start, 0);
    let z = line_holding(lines, target_end, 0);
    if a <= z {
        (a, z)
    } else {
        (z, a)
    }
}

/// The edit that range formatting makes: the span of the touched lines and their
/// formatted text; `None` for a span of another file, an inverted or out-of-bounds span,
/// or lines that are already formatted.
pub open spec fn format_range_spec(b: Seq<u8>, file_id: FileId, range: SourceSpan) -> Option<
    (SourceSpan, Seq<u8>),
> {
    if range.file_id != file_id || range.start > range.end || range.end > b.len() {
        None
    } else {
        let lines = split_lines_spec(b);
        let crlf = contains_crlf(b);
        let (sl, el) = selected_lines(lines, range.start as int, range.end as int);
        let original = join_spec(lines, original_contents(lines), sl, el + 1, crlf);
        let formatted = join_spec(lines, formatted_contents(lines), sl, el + 1, crlf);
        if original == formatted {
            None
        } else {
            Some(
                (
                    SourceSpan {
                        file_id,
                        start: lines[sl].0 as usize,
                        end: lines[el].1 as usize,
                    },
                    formatted,
                ),
            )
        }
    }
}

proof fn lemma_line_holding_bounds(lines: Seq<LineT>, x: int, k: int)
    requires
        lines.len() >= 1,
        0 <= k,
    ensures
        0 <= line_holding(lines, x, k) < lines.len(),
        k <= lines.len() - 1 ==> k <= line_holding(lines, x, k),
    decreases lines.len() - k,
{
    if k < lines.len() && !(lines[k].0 <= x < lines[k].1) {
        lemma_line_holding_bounds(lines, x, k + 1);
    }
}

fn line_holding_exec(lines: &Vec<Line>, x: usize) -> (k: usize)
    requires
        lines@.len() >= 1,
    ensures
        k as int == line_holding(lines@.map_values(|l: Line| l.view_line()), x as int, 0),
        k < lines@.len(),
{
    let ghost lv = lines@.map_values(|l: Line| l.view_line());
    let mut k: usize = 0;
    while k < lines.len()
        invariant
            k <= lines@.len(),
            lines@.len() >= 1,
            lv == lines@.map_values(|l: Line| l.view_line()),
            line_holding(lv, x as int, k as int) == line_holding(lv, x as int, 0),
        decreases lines@.len() - k,
    {
        if lines[k].start <= x && x < lines[k].end_with_newline {
            proof {
                lemma_line_holding_bounds(lv, x as int, 0);
            }
            return k;
        }
        k = k + 1;
    }
    proof {
        lemma_line_holding_bounds(lv, x as int, 0);
    }
    lines.len() - 1
}

fn selected_line_bounds(lines: &Vec<Line>, range: SourceSpan) -> (r: (usize, usize))
    requires
        lines@.len() >= 1,
    ensures
        (r.0 as int, r.1 as int) == selected_lines(
            lines@.map_values(|l: Line| l.view_line()),
            range.start as int,
            range.end as int,
        ),
        r.0 <= r.1 < lines@.len(),
{
    let start_line = line_holding_exec(lines, range.start);
    let target_end = if range.start == range.end {
        range.end
    } else if range.end > 0 {
        range.end - 1
    } else {
        0
    };
    let end_line = line_holding_exec(lines, target_end);
    if start_line <= end_line {
        (start_line, end_line)
    } else {
        (end_line, start_line)
    }
}

/// Formats the lines touched by `range`; `None` when the range is of another file, is
/// inverted or out of bounds, or the lines are already formatted.
pub fn format_range(text: &str, file_id: FileId, range: SourceSpan) -> (edit: Option<TextEdit>)
    ensures
        match format_range_spec(utf8(text@), file_id, range) {
            None => edit is None,
            Some((span, formatted)) => edit matches Some(e) && e.range == span && utf8(e.text@)
                == formatted,
        },
{
    let b = text.as_bytes();
    if range.file_id != file_id || range.start > range.end || range.end > b.len() {
        return None;
    }
    proof {
        lemma_str_valid(text@);
    }
    let crlf = preferred_line_ending(b);
    let lines = split_lines(b);
    let formatted = format_lines(&lines);
    let (start_line, end_line) = selected_line_bounds(&lines, range);
    let original = join_line_slice(&lines, start_line, end_line + 1, crlf);
    let result = join_line_slice(&formatted, start_line, end_line + 1, crlf);
    proof {
        let lv = lines@.map_values(|l: Line| l.view_line());
        assert(lv =~= split_lines_spec(b@));
        let lc = lines@.map_values(|l: Line| l.content@);
        lemma_join_congruent(lv, lc, lv, original_contents(lv), start_line as int, end_line + 1, crlf);
        let fv = formatted@.map_values(|l: Line| l.view_line());
        let fc = formatted@.map_values(|l: Line| l.content@);
        lemma_join_congruent(fv, fc, lv, formatted_contents(lv), start_line as int, end_line + 1, crlf);
    }
    if bytes_eq(original.as_slice(), result.as_slice()) {
        return None;
    }
    let start = lines[start_line].start;
    let end = lines[end_line].end_with_newline;
    Some(TextEdit { range: SourceSpan::new(file_id, start, end), text: bytes_to_string(result) })
}

/// Formats a whole text; every backend of this build uses the fallback formatter.
pub fn format_text(file_id: FileId, name: &str, backend: ParserBackend, text: &str) -> (result:
    FormatResult)
    ensures
        utf8(result.text@) == fallback_format_spec(utf8(text@)),
        result.changed == (fallback_format_spec(utf8(text@)) != apply_line_ending_spec(
            utf8(text@),
            contains_crlf(utf8(text@)),
        )),
{
    match backend {
        ParserBackend::Fallback => fallback_format_result(text),
        ParserBackend::UpstreamLyma => fallback_format_result(text),
    }
}

/// Formats a parsed document with the formatter for its backend.
pub fn format_document(parsed: &ParsedDocument) -> (result: FormatResult)
    ensures
        utf8(result.text@) == fallback_format_spec(parsed.source.bytes()),
        result.changed == (fallback_format_spec(parsed.source.bytes()) != apply_line_ending_spec(
            parsed.source.bytes(),
            contains_crlf(parsed.source.bytes()),
        )),
{
    format_text(
        parsed.source.file_id,
        parsed.source.name.as_str(),
        parsed.backend,
        parsed.source.as_str(),
    )
}


proof fn lemma_join_split(lines: Seq<LineT>, contents: Seq<Seq<u8>>, lo: int, mid: int, hi: int, crlf: bool)
    requires
        lo <= mid <= hi,
    ensures
        join_spec(lines, contents, lo, hi, crlf) == join_spec(lines, contents, lo, mid, crlf) + join_spec(
            lines,
            contents,
            mid,
            hi,
            crlf,
        ),
    decreases hi - mid,
{
    if hi > mid {
        lemma_join_split(lines, contents, lo, mid, hi - 1, crlf);
        assert(join_spec(lines, contents, lo, hi, crlf) =~= join_spec(lines, contents, lo, mid, crlf) + join_spec(
            lines,
            contents,
            mid,
            hi,
            crlf,
        ));
    } else {
        assert(join_spec(lines, contents, mid, hi, crlf) =~= Seq::<u8>::empty());
        assert(join_spec(lines, contents, lo, hi, crlf) + Seq::<u8>::empty() =~= join_spec(lines, contents, lo, hi, crlf));
    }
}

/// Range formatting agrees with formatting the whole document: for a span of the file within
/// the text, the lines it touches are a run of whole lines, the whole document's formatted text
/// is the formatted lines before them, these lines formatted, and the formatted lines after
/// them; range formatting answers with exactly that middle part, unless it leaves the lines
/// as they were, when it answers nothing.
pub proof fn lemma_range_formatting_agrees(b: Seq<u8>, file_id: FileId, range: SourceSpan)
    requires
        range.file_id == file_id,
        range.start <= range.end <= b.len(),
    ensures
        ({
            let lines = split_lines_spec(b);
            let crlf = contains_crlf(b);
            let fc = formatted_contents(lines);
            let oc = original_contents(lines);
            let (sl, el) = selected_lines(lines, range.start as int, range.end as int);
            &&& 0 <= sl <= el < lines.len()
            &&& fallback_format_spec(b) == join_spec(lines, fc, 0, sl, crlf) + join_spec(lines, fc, sl, el + 1, crlf)
                + join_spec(lines, fc, el + 1, lines.len() as int, crlf)
            &&& format_range_spec(b, file_id, range) == if join_spec(lines, oc, sl, el + 1, crlf) == join_spec(
                lines,
                fc,
                sl,
                el + 1,
                crlf,
            ) {
                None
            } else {
                Some(
                    (
                        SourceSpan { file_id, start: lines[sl].0 as usize, end: lines[el].1 as usize },
                        join_spec(lines, fc, sl, el + 1, crlf),
                    ),
                )
            }
        }),
{
    let lines = split_lines_spec(b);
    let crlf = contains_crlf(b);
    let fc = formatted_contents(lines);
    if b.len() > 0 {
        lemma_line_from(b, 0);
        assert(lines_from(b, 0).len() >= 1);
    }
    assert(lines.len() >= 1);
    let target_end = if range.start == range.end {
        range.end as int
    } else if range.end > 0 {
        range.end - 1
    } else {
        0
    };
    lemma_line_holding_bounds(lines, range.start as int, 0);
    lemma_line_holding_bounds(lines, target_end, 0);
    let (sl, el) = selected_lines(lines, range.start as int, range.end as int);
    lemma_join_split(lines, fc, 0, sl, lines.len() as int, crlf);
    lemma_join_split(lines, fc, sl, el + 1, lines.len() as int, crlf);
}


/// The lines tile `[0, n)`: each starts where the one before ends, from 0 to `n`.
pub open spec fn tiled(lines: Seq<LineT>, n: int) -> bool {
    &&& lines.len() >= 1
    &&& lines[0].0 == 0
    &&& lines.last().1 == n
    &&& forall|k: int| 0 <= k < lines.len() ==> #[trigger] lines[k].0 <= lines[k].1
    &&& forall|k: int| 0 <= k < lines.len() - 1 ==> #[trigger] lines[k].1 == lines[k + 1].0
}

proof fn lemma_lines_from_tiled(b: Seq<u8>, p: int)
    requires
        0 <= p < b.len(),
    ensures
        lines_from(b, p).len() >= 1,
        lines_from(b, p)[0].0 == p,
        lines_from(b, p).last().1 == b.len(),
        forall|k: int| 0 <= k < lines_from(b, p).len() ==> #[trigger] lines_from(b, p)[k].0 < lines_from(b, p)[k].1,
        forall|k: int|
            0 <= k < lines_from(b, p).len() - 1 ==> #[trigger] lines_from(b, p)[k].1 == lines_from(b, p)[k + 1].0,
    decreases b.len() - p,
{
    lemma_line_from(b, p);
    let next = line_from(b, p).1;
    let rest = lines_from(b, next);
    let all = lines_from(b, p);
    assert(all == seq![line_from(b, p)] + rest);
    if next < b.len() {
        lemma_lines_from_tiled(b, next);
        assert forall|k: int| 0 <= k < all.len() implies #[trigger] all[k].0 < all[k].1 by {
            if k > 0 {
                assert(all[k] == rest[k - 1]);
            }
        }
        assert forall|k: int| 0 <= k < all.len() - 1 implies #[trigger] all[k].1 == all[k + 1].0 by {
            assert(all[k + 1] == rest[k]);
            if k > 0 {
                assert(all[k] == rest[k - 1]);
            }
        }
    } else {
        assert(rest.len() == 0);
        assert(all.len() == 1);
    }
}

proof fn lemma_split_tiled(b: Seq<u8>)
    ensures
        tiled(split_lines_spec(b), b.len() as int),
{
    if b.len() > 0 {
        lemma_lines_from_tiled(b, 0);
    }
}

proof fn lemma_tiled_order(lines: Seq<LineT>, n: int, i: int, j: int)
    requires
        tiled(lines, n),
        0 <= i < j < lines.len(),
    ensures
        lines[i].1 <= lines[j].0,
    decreases j - i,
{
    if j > i + 1 {
        lemma_tiled_order(lines, n, i, j - 1);
        assert(lines[j - 1].0 <= lines[j - 1].1);
        assert(lines[j - 1].1 == lines[j].0);
    }
}

proof fn lemma_holding_inside(lines: Seq<LineT>, n: int, x: int, k: int)
    requires
        tiled(lines, n),
        0 <= k < lines.len(),
        lines[k].0 <= x < n,
    ensures
        k <= line_holding(lines, x, k) < lines.len(),
        lines[line_holding(lines, x, k)].0 <= x < lines[line_holding(lines, x, k)].1,
    decreases lines.len() - k,
{
    if !(lines[k].0 <= x < lines[k].1) {
        assert(k < lines.len() - 1);
        assert(lines[k].1 == lines[k + 1].0);
        lemma_holding_inside(lines, n, x, k + 1);
    }
}

proof fn lemma_holding_end(lines: Seq<LineT>, n: int, k: int)
    requires
        tiled(lines, n),
        0 <= k,
    ensures
        line_holding(lines, n, k) == lines.len() - 1,
    decreases lines.len() - k,
{
    if k < lines.len() {
        if k < lines.len() - 1 {
            lemma_tiled_order(lines, n, k, lines.len() - 1);
        }
        assert(lines[k].1 <= n);
        lemma_holding_end(lines, n, k + 1);
    }
}

/// The lines that range formatting rewrites cover the requested span and lie within the text.
pub proof fn lemma_range_lines_cover(b: Seq<u8>, range: SourceSpan)
    requires
        range.start <= range.end <= b.len(),
    ensures
        ({
            let lines = split_lines_spec(b);
            let (sl, el) = selected_lines(lines, range.start as int, range.end as int);
            &&& 0 <= sl <= el < lines.len()
            &&& lines[sl].0 <= range.start
            &&& range.end <= lines[el].1 <= b.len()
        }),
{
    let lines = split_lines_spec(b);
    let n = b.len() as int;
    lemma_split_tiled(b);
    let start = range.start as int;
    let end = range.end as int;
    let target_end = if start == end {
        end
    } else if end > 0 {
        end - 1
    } else {
        0
    };
    let a = line_holding(lines, start, 0);
    let z = line_holding(lines, target_end, 0);
    let last = lines.len() - 1;
    assert(lines[last].0 <= lines[last].1);
    if start < n {
        lemma_holding_inside(lines, n, start, 0);
    } else {
        lemma_holding_end(lines, n, 0);
    }
    if target_end < n {
        lemma_holding_inside(lines, n, target_end, 0);
    } else {
        lemma_holding_end(lines, n, 0);
    }
    if a > z {
        lemma_tiled_order(lines, n, z, a);
    }
    assert(a <= z);
    if z < last {
        lemma_tiled_order(lines, n, z, last);
    }
}


/// Where the first CR LF pair at or after `i` starts, or the end of `b`.
pub open spec fn next_crlf(b: Seq<u8>, i: int) -> int
    decreases b.len() - i,
{
    if i < 0 || i >= b.len() {
        b.len() as int
    } else if i + 1 < b.len() && b[i] == 13 && b[i + 1] == 10 {
        i
    } else {
        next_crlf(b, i + 1)
    }
}

proof fn lemma_next_crlf(b: Seq<u8>, i: int)
    requires
        0 <= i <= b.len(),
    ensures
        i <= next_crlf(b, i) <= b.len(),
        next_crlf(b, i) < b.len() ==> next_crlf(b, i) + 1 < b.len() && b[next_crlf(b, i)] == 13 && b[
            next_crlf(b, i) + 1] == 10,
        crlf_to_lf(b, i) == b.subrange(i, next_crlf(b, i)) + crlf_to_lf(b, next_crlf(b, i)),
    decreases b.len() - i,
{
    if i < b.len() && !(i + 1 < b.len() && b[i] == 13 && b[i + 1] == 10) {
        lemma_next_crlf(b, i + 1);
        assert(b.subrange(i, next_crlf(b, i)) =~= seq![b[i]] + b.subrange(i + 1, next_crlf(b, i)));
    } else {
        assert(b.subrange(i, next_crlf(b, i)) =~= Seq::<u8>::empty());
    }
}

/// Dropping the CR of each CR LF pair keeps UTF-8 valid.
pub proof fn lemma_crlf_to_lf_valid(b: Seq<u8>, i: int)
    requires
        valid_utf8(b),
        0 <= i <= b.len(),
        char_boundary(b, i),
    ensures
        valid_utf8(crlf_to_lf(b, i)),
    decreases b.len() - i,
{
    lemma_next_crlf(b, i);
    let j = next_crlf(b, i);
    crate::text::lemma_valid_subrange(b, i, j);
    if j < b.len() {
        crate::text::lemma_boundary_after_ascii(b, j + 1);
        lemma_crlf_to_lf_valid(b, j + 2);
        assert(crlf_to_lf(b, j) == seq![10u8] + crlf_to_lf(b, j + 2));
        lemma_ascii_valid(seq![10u8]);
        vstd::utf8::valid_utf8_concat(seq![10u8], crlf_to_lf(b, j + 2));
        vstd::utf8::valid_utf8_concat(b.subrange(i, j), crlf_to_lf(b, j));
    } else {
        assert(crlf_to_lf(b, j) =~= Seq::<u8>::empty());
        assert(crlf_to_lf(b, i) =~= b.subrange(i, j));
    }
}


/// No carriage return in the text.
pub open spec fn no_cr(b: Seq<u8>) -> bool {
    forall|i: int| 0 <= i < b.len() ==> b[i] != 13
}

proof fn lemma_lines_from_shape(b: Seq<u8>, p: int, k: int)
    requires
        0 <= p,
        0 <= k < lines_from(b, p).len(),
    ensures
        0 <= lines_from(b, p)[k].0 < b.len(),
        lines_from(b, p)[k] == line_from(b, lines_from(b, p)[k].0),
    decreases b.len() - p,
{
    lemma_line_from(b, p);
    let next = line_from(b, p).1;
    assert(lines_from(b, p) == seq![line_from(b, p)] + lines_from(b, next));
    if k > 0 {
        lemma_lines_from_shape(b, next, k - 1);
        assert(lines_from(b, p)[k] == lines_from(b, next)[k - 1]);
    }
}

/// Without carriage returns, a line and its line feed are the text it spans.
proof fn lemma_line_text(b: Seq<u8>, k: int)
    requires
        no_cr(b),
        0 <= k < split_lines_spec(b).len(),
    ensures
        ({
            let l = split_lines_spec(b)[k];
            l.2 + (if l.3 { line_ending(false) } else { seq![] }) == b.subrange(l.0, l.1)
        }),
{
    let l = split_lines_spec(b)[k];
    if b.len() == 0 {
        assert(l.2 =~= b.subrange(l.0, l.1));
    } else {
        lemma_lines_from_shape(b, 0, k);
        lemma_line_from(b, l.0);
        if l.3 {
            assert(b[l.1 - 2 + 1] == 10);
            assert(l.2 + seq![10u8] =~= b.subrange(l.0, l.1));
        } else {
            assert(l.2 =~= b.subrange(l.0, l.1));
        }
    }
}

proof fn lemma_join_original(b: Seq<u8>, lo: int, hi: int)
    requires
        no_cr(b),
        0 <= lo < hi <= split_lines_spec(b).len(),
    ensures
        join_spec(split_lines_spec(b), original_contents(split_lines_spec(b)), lo, hi, false) == b.subrange(
            split_lines_spec(b)[lo].0,
            split_lines_spec(b)[hi - 1].1,
        ),
    decreases hi - lo,
{
    let lines = split_lines_spec(b);
    let oc = original_contents(lines);
    lemma_split_tiled(b);
    lemma_split_line_bounds(b, hi - 1);
    lemma_line_text(b, hi - 1);
    assert(oc[hi - 1] == lines[hi - 1].2);
    if hi - 1 == lo {
        assert(join_spec(lines, oc, lo, lo, false) =~= Seq::<u8>::empty());
        assert(join_spec(lines, oc, lo, hi, false) =~= b.subrange(lines[lo].0, lines[hi - 1].1));
    } else {
        lemma_join_original(b, lo, hi - 1);
        lemma_split_line_bounds(b, lo);
        if lo < hi - 2 {
            lemma_tiled_order(lines, b.len() as int, lo, hi - 2);
        }
        assert(lines[hi - 2].1 == lines[hi - 2 + 1].0);
        lemma_split_line_bounds(b, hi - 2);
        assert(b.subrange(lines[lo].0, lines[hi - 2].1) + b.subrange(lines[hi - 1].0, lines[hi - 1].1) =~= b.subrange(
            lines[lo].0,
            lines[hi - 1].1,
        ));
    }
}

/// On a text without carriage returns, range formatting answers only with an edit that
/// changes the text it replaces.
pub proof fn lemma_range_edit_changes_text(b: Seq<u8>, file_id: FileId, range: SourceSpan)
    requires
        b.len() <= usize::MAX,
        no_cr(b),
        range.file_id == file_id,
        range.start <= range.end <= b.len(),
    ensures
        format_range_spec(b, file_id, range) matches Some((span, t)) ==> span.start <= span.end <= b.len()
            && t != b.subrange(span.start as int, span.end as int),
{
    lemma_range_formatting_agrees(b, file_id, range);
    lemma_range_lines_cover(b, range);
    let lines = split_lines_spec(b);
    let (sl, el) = selected_lines(lines, range.start as int, range.end as int);
    assert(!contains_crlf(b)) by {
        if contains_crlf(b) {
            let i = choose|i: int| #[trigger] crlf_at(b, i);
            assert(b[i] == 13);
        }
    }
    lemma_join_original(b, sl, el + 1);
    lemma_split_line_bounds(b, sl);
    lemma_split_line_bounds(b, el);
    let oc = original_contents(lines);
    let fc = formatted_contents(lines);
    let crlf = contains_crlf(b);
    if let Some((span, t)) = format_range_spec(b, file_id, range) {
        assert(span == SourceSpan { file_id, start: lines[sl].0 as usize, end: lines[el].1 as usize });
        assert(t == join_spec(lines, fc, sl, el + 1, crlf));
        assert(join_spec(lines, oc, sl, el + 1, crlf) != join_spec(lines, fc, sl, el + 1, crlf));
        assert(b.subrange(span.start as int, span.end as int) == join_spec(lines, oc, sl, el + 1, crlf));
    }
}

} // verus!
