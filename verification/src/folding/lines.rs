//! The lines of a text as folding sees them, and what each line opens or closes.
use vstd::prelude::*;

use crate::hover::key_path::{lemma_nl_end, nl_end};
use crate::text::{
    count_blank_run, find_byte, find_byte_exec, lemma_find_byte_bounds, lemma_skip_ws_back_bounds,
    lemma_skip_ws_bounds, matches_at, matches_at_exec, run_of_blank, skip_ws, skip_ws_back, trim_end_at,
    trim_start_at,
};

verus! {

/// A line: its bytes `[start, end)` without the line feed, its indentation (spaces and
/// tabs) and its trimmed part `[ts, te)`.
#[derive(Debug, Clone, Copy)]
pub struct FLine {
    pub start: usize,
    pub end: usize,
    pub indent: usize,
    pub ts: usize,
    pub te: usize,
}

pub open spec fn line_at(b: Seq<u8>, s: int, e: int) -> FLine {
    let ts = skip_ws(b, s, e);
    FLine {
        start: s as usize,
        end: e as usize,
        indent: run_of_blank(b, s, e) as usize,
        ts: ts as usize,
        te: skip_ws_back(b, ts, e) as usize,
    }
}

pub open spec fn lines_from(b: Seq<u8>, p: int) -> Seq<FLine>
    decreases b.len() + 1 - p,
{
    if p < 0 || p >= b.len() {
        seq![]
    } else {
        proof {
            lemma_nl_end(b, p);
        }
        seq![line_at(b, p, nl_end(b, p))] + lines_from(b, nl_end(b, p) + 1)
    }
}

/// The lines of a text: one per line feed, one more for text after the last line feed,
/// and a single empty line for an empty text.
pub open spec fn fold_lines(b: Seq<u8>) -> Seq<FLine> {
    if b.len() == 0 {
        seq![line_at(b, 0, 0)]
    } else {
        lines_from(b, 0)
    }
}

/// Every line lies inside the text, its trimmed part inside it.
pub open spec fn lines_ok(b: Seq<u8>, ls: Seq<FLine>) -> bool {
    forall|k: int|
        0 <= k < ls.len() ==> {
            let l = #[trigger] ls[k];
            &&& l.start <= l.ts <= l.te <= l.end <= b.len()
            &&& l.ts == skip_ws(b, l.start as int, l.end as int)
            &&& l.te == skip_ws_back(b, l.ts as int, l.end as int)
        }
}

proof fn lemma_blank_run(b: Seq<u8>, s: int, e: int)
    requires
        0 <= s <= e <= b.len(),
    ensures
        0 <= run_of_blank(b, s, e) <= e - s,
    decreases e - s,
{
    if s < e && (b[s] == 0x20 || b[s] == 0x09) {
        lemma_blank_run(b, s + 1, e);
    }
}

proof fn lemma_line_at(b: Seq<u8>, s: int, e: int)
    requires
        0 <= s <= e <= b.len(),
        e <= usize::MAX,
    ensures
        line_at(b, s, e).start == s,
        line_at(b, s, e).end == e,
        s <= line_at(b, s, e).ts <= line_at(b, s, e).te <= e,
        line_at(b, s, e).ts == skip_ws(b, s, e),
        line_at(b, s, e).te == skip_ws_back(b, skip_ws(b, s, e), e),
        line_at(b, s, e).indent == run_of_blank(b, s, e),
{
    lemma_skip_ws_bounds(b, s, e);
    lemma_skip_ws_back_bounds(b, skip_ws(b, s, e), e);
    lemma_blank_run(b, s, e);
}

proof fn lemma_lines_from_ok(b: Seq<u8>, p: int)
    requires
        0 <= p,
        b.len() <= usize::MAX,
    ensures
        lines_ok(b, lines_from(b, p)),
        p <= b.len() ==> lines_from(b, p).len() <= b.len() + 1 - p,
        p > b.len() ==> lines_from(b, p).len() == 0,
    decreases b.len() + 1 - p,
{
    if p < b.len() {
        lemma_nl_end(b, p);
        lemma_line_at(b, p, nl_end(b, p));
        lemma_lines_from_ok(b, nl_end(b, p) + 1);
        let rest = lines_from(b, nl_end(b, p) + 1);
        let all = lines_from(b, p);
        assert forall|k: int| 0 <= k < all.len() implies {
            let l = #[trigger] all[k];
            &&& l.start <= l.ts <= l.te <= l.end <= b.len()
            &&& l.ts == skip_ws(b, l.start as int, l.end as int)
            &&& l.te == skip_ws_back(b, l.ts as int, l.end as int)
        } by {
            if k > 0 {
                assert(all[k] == rest[k - 1]);
            }
        }
    }
}

pub proof fn lemma_fold_lines_ok(b: Seq<u8>)
    requires
        b.len() <= usize::MAX,
    ensures
        lines_ok(b, fold_lines(b)),
        fold_lines(b).len() <= b.len() + 1,
        fold_lines(b).len() >= 1,
{
    if b.len() == 0 {
        lemma_line_at(b, 0, 0);
    } else {
        lemma_lines_from_ok(b, 0);
        lemma_nl_end(b, 0);
    }
}

fn make_line(b: &[u8], s: usize, e: usize) -> (l: FLine)
    requires
        s <= e <= b@.len(),
    ensures
        l == line_at(b@, s as int, e as int),
{
    proof {
        lemma_line_at(b@, s as int, e as int);
    }
    let indent = count_blank_run(b, s, e);
    let ts = trim_start_at(b, s, e);
    let te = trim_end_at(b, ts, e);
    FLine { start: s, end: e, indent, ts, te }
}

/// The lines of the text.
pub fn source_lines(b: &[u8]) -> (ls: Vec<FLine>)
    ensures
        ls@ == fold_lines(b@),
        lines_ok(b@, ls@),
        1 <= ls@.len() <= b@.len() + 1,
{
    let n = b.len();
    proof {
        lemma_fold_lines_ok(b@);
    }
    let mut out: Vec<FLine> = Vec::new();
    if n == 0 {
        out.push(make_line(b, 0, 0));
        proof {
            assert(out@ =~= fold_lines(b@));
        }
        return out;
    }
    let mut p: usize = 0;
    while p < n
        invariant
            p <= n,
            n == b@.len(),
            n > 0,
            out@ + lines_from(b@, p as int) == lines_from(b@, 0),
            fold_lines(b@) == lines_from(b@, 0),
            lines_ok(b@, fold_lines(b@)),
            1 <= fold_lines(b@).len() <= b@.len() + 1,
        decreases n - p,
    {
        proof {
            lemma_nl_end(b@, p as int);
            lemma_find_byte_bounds(b@, p as int, n as int, 0x0a);
        }
        let e = match find_byte_exec(b, p, n, 0x0a) {
            Some(q) => q,
            None => n,
        };
        assert(e as int == nl_end(b@, p as int));
        let line = make_line(b, p, e);
        let ghost before = out@;
        out.push(line);
        proof {
            assert(lines_from(b@, p as int) == seq![line] + lines_from(b@, e + 1));
            assert(out@ + lines_from(b@, e + 1) =~= before + lines_from(b@, p as int));
        }
        if e == n {
            proof {
                assert(lines_from(b@, e + 1) =~= Seq::<FLine>::empty());
                assert(out@ =~= lines_from(b@, 0));
            }
            return out;
        }
        p = e + 1;
    }
    proof {
        assert(lines_from(b@, p as int) =~= Seq::<FLine>::empty());
        assert(out@ =~= lines_from(b@, 0));
    }
    out
}

// ---------------------------------------------------------------------------
// What a line says
/// `#`
pub open spec fn hash_pat() -> Seq<u8> {
    seq![0x23u8]
}

/// `-`
pub open spec fn dash_pat() -> Seq<u8> {
    seq![0x2du8]
}

/// "```lua"
pub open spec fn fence_lua_pat() -> Seq<u8> {
    seq![0x60u8, 0x60u8, 0x60u8, 0x6cu8, 0x75u8, 0x61u8]
}

/// "```"
pub open spec fn fence_pat() -> Seq<u8> {
    seq![0x60u8, 0x60u8, 0x60u8]
}

/// "lua{"
pub open spec fn brace_pat() -> Seq<u8> {
    seq![0x6cu8, 0x75u8, 0x61u8, 0x7bu8]
}

/// "---"
pub open spec fn dashes_pat() -> Seq<u8> {
    seq![0x2du8, 0x2du8, 0x2du8]
}

/// "..."
pub open spec fn dots_pat() -> Seq<u8> {
    seq![0x2eu8, 0x2eu8, 0x2eu8]
}

/// "?if "
pub open spec fn if_pat() -> Seq<u8> {
    seq![0x3fu8, 0x69u8, 0x66u8, 0x20u8]
}

/// "?elif "
pub open spec fn elif_pat() -> Seq<u8> {
    seq![0x3fu8, 0x65u8, 0x6cu8, 0x69u8, 0x66u8, 0x20u8]
}

/// "?else"
pub open spec fn else_pat() -> Seq<u8> {
    seq![0x3fu8, 0x65u8, 0x6cu8, 0x73u8, 0x65u8]
}

/// "*for "
pub open spec fn for_pat() -> Seq<u8> {
    seq![0x2au8, 0x66u8, 0x6fu8, 0x72u8, 0x20u8]
}

/// The trimmed line starts with `pat`.
pub open spec fn starts(b: Seq<u8>, l: FLine, pat: Seq<u8>) -> bool {
    matches_at(b, l.ts as int, l.te as int, pat)
}

/// The trimmed line is `pat`.
pub open spec fn is_text(b: Seq<u8>, l: FLine, pat: Seq<u8>) -> bool {
    l.te - l.ts == pat.len() && starts(b, l, pat)
}

pub open spec fn blank(l: FLine) -> bool {
    l.ts == l.end
}

/// `---` or `...`
pub open spec fn doc_boundary(b: Seq<u8>, l: FLine) -> bool {
    is_text(b, l, dashes_pat()) || is_text(b, l, dots_pat())
}

/// The trimmed value after the first `:` of the trimmed line.
pub open spec fn value_range(b: Seq<u8>, l: FLine) -> Option<(int, int)> {
    match find_byte(b, l.ts as int, l.te as int, 0x3a) {
        None => None,
        Some(c) => {
            let vs = skip_ws(b, c + 1, l.te as int);
            Some((vs, skip_ws_back(b, vs, l.te as int)))
        },
    }
}

/// "```lua" opens the line, or its value.
pub open spec fn opens_fence(b: Seq<u8>, l: FLine) -> bool {
    starts(b, l, fence_lua_pat()) || match value_range(b, l) {
        Some((vs, ve)) => matches_at(b, vs, ve, fence_lua_pat()),
        None => false,
    }
}

/// "lua{" opens the value (or the line, without a `:`) and no `}` closes it there.
pub open spec fn opens_brace(b: Seq<u8>, l: FLine) -> bool {
    match value_range(b, l) {
        Some((vs, ve)) => matches_at(b, vs, ve, brace_pat()) && find_byte(b, vs, ve, 0x7d) is None,
        None => starts(b, l, brace_pat()) && find_byte(b, l.ts as int, l.te as int, 0x7d) is None,
    }
}

pub open spec fn has_close_brace(b: Seq<u8>, l: FLine) -> bool {
    find_byte(b, l.start as int, l.end as int, 0x7d) is Some
}

/// The line ends with `:`, opens a conditional or loop, or a block scalar after its `:`.
pub open spec fn expects_block(b: Seq<u8>, l: FLine) -> bool {
    ||| (l.te > l.ts && b[l.te - 1] == 0x3a)
    ||| starts(b, l, if_pat())
    ||| starts(b, l, elif_pat())
    ||| is_text(b, l, else_pat())
    ||| starts(b, l, for_pat())
    ||| match value_range(b, l) {
        Some((vs, ve)) => vs < ve && (b[vs] == 0x7c || b[vs] == 0x3e),
        None => false,
    }
}

proof fn lemma_value_range(b: Seq<u8>, l: FLine)
    requires
        l.start <= l.ts <= l.te <= l.end <= b.len(),
    ensures
        value_range(b, l) matches Some((vs, ve)) ==> l.ts <= vs <= ve <= l.te,
{
    lemma_find_byte_bounds(b, l.ts as int, l.te as int, 0x3a);
    if let Some(c) = find_byte(b, l.ts as int, l.te as int, 0x3a) {
        lemma_skip_ws_bounds(b, c + 1, l.te as int);
        lemma_skip_ws_back_bounds(b, skip_ws(b, c + 1, l.te as int), l.te as int);
    }
}

fn value_range_exec(b: &[u8], l: FLine) -> (r: Option<(usize, usize)>)
    requires
        l.start <= l.ts <= l.te <= l.end <= b@.len(),
    ensures
        match value_range(b@, l) {
            Some((vs, ve)) => r matches Some((x, y)) && x == vs && y == ve && l.ts <= x <= y <= l.te,
            None => r is None,
        },
{
    proof {
        lemma_value_range(b@, l);
        lemma_find_byte_bounds(b@, l.ts as int, l.te as int, 0x3a);
    }
    match find_byte_exec(b, l.ts, l.te, 0x3a) {
        None => None,
        Some(c) => {
            let vs = trim_start_at(b, c + 1, l.te);
            let ve = trim_end_at(b, vs, l.te);
            Some((vs, ve))
        },
    }
}

fn starts_exec(b: &[u8], l: FLine, pat: &[u8]) -> (r: bool)
    requires
        l.te <= b@.len(),
    ensures
        r == starts(b@, l, pat@),
{
    matches_at_exec(b, l.ts, l.te, pat)
}

fn is_text_exec(b: &[u8], l: FLine, pat: &[u8]) -> (r: bool)
    requires
        l.ts <= l.te <= b@.len(),
    ensures
        r == is_text(b@, l, pat@),
{
    l.te - l.ts == pat.len() && matches_at_exec(b, l.ts, l.te, pat)
}

pub fn is_blank(l: FLine) -> (r: bool)
    ensures
        r == blank(l),
{
    l.ts == l.end
}

pub fn is_doc_boundary(b: &[u8], l: FLine) -> (r: bool)
    requires
        l.ts <= l.te <= b@.len(),
    ensures
        r == doc_boundary(b@, l),
{
    let dashes: [u8; 3] = [0x2d, 0x2d, 0x2d];
    let dots: [u8; 3] = [0x2e, 0x2e, 0x2e];
    proof {
        assert(dashes@ =~= dashes_pat());
        assert(dots@ =~= dots_pat());
    }
    is_text_exec(b, l, dashes.as_slice()) || is_text_exec(b, l, dots.as_slice())
}

pub fn starts_with_hash(b: &[u8], l: FLine) -> (r: bool)
    requires
        l.te <= b@.len(),
    ensures
        r == starts(b@, l, hash_pat()),
{
    let pat: [u8; 1] = [0x23];
    proof {
        assert(pat@ =~= hash_pat());
    }
    starts_exec(b, l, pat.as_slice())
}

pub fn starts_with_dash(b: &[u8], l: FLine) -> (r: bool)
    requires
        l.te <= b@.len(),
    ensures
        r == starts(b@, l, dash_pat()),
{
    let pat: [u8; 1] = [0x2d];
    proof {
        assert(pat@ =~= dash_pat());
    }
    starts_exec(b, l, pat.as_slice())
}

pub fn is_fence_close(b: &[u8], l: FLine) -> (r: bool)
    requires
        l.ts <= l.te <= b@.len(),
    ensures
        r == is_text(b@, l, fence_pat()),
{
    let pat: [u8; 3] = [0x60, 0x60, 0x60];
    proof {
        assert(pat@ =~= fence_pat());
    }
    is_text_exec(b, l, pat.as_slice())
}

pub fn opens_fence_exec(b: &[u8], l: FLine) -> (r: bool)
    requires
        l.start <= l.ts <= l.te <= l.end <= b@.len(),
    ensures
        r == opens_fence(b@, l),
{
    let pat: [u8; 6] = [0x60, 0x60, 0x60, 0x6c, 0x75, 0x61];
    proof {
        assert(pat@ =~= fence_lua_pat());
    }
    if starts_exec(b, l, pat.as_slice()) {
        return true;
    }
    match value_range_exec(b, l) {
        Some((vs, ve)) => matches_at_exec(b, vs, ve, pat.as_slice()),
        None => false,
    }
}

pub fn opens_brace_exec(b: &[u8], l: FLine) -> (r: bool)
    requires
        l.start <= l.ts <= l.te <= l.end <= b@.len(),
    ensures
        r == opens_brace(b@, l),
{
    let pat: [u8; 4] = [0x6c, 0x75, 0x61, 0x7b];
    proof {
        assert(pat@ =~= brace_pat());
    }
    match value_range_exec(b, l) {
        Some((vs, ve)) => matches_at_exec(b, vs, ve, pat.as_slice()) && find_byte_exec(b, vs, ve, 0x7d).is_none(),
        None => starts_exec(b, l, pat.as_slice()) && find_byte_exec(b, l.ts, l.te, 0x7d).is_none(),
    }
}

pub fn has_close_brace_exec(b: &[u8], l: FLine) -> (r: bool)
    requires
        l.start <= l.end <= b@.len(),
    ensures
        r == has_close_brace(b@, l),
{
    find_byte_exec(b, l.start, l.end, 0x7d).is_some()
}

pub fn expects_block_exec(b: &[u8], l: FLine) -> (r: bool)
    requires
        l.start <= l.ts <= l.te <= l.end <= b@.len(),
    ensures
        r == expects_block(b@, l),
{
    let if_: [u8; 4] = [0x3f, 0x69, 0x66, 0x20];
    let elif: [u8; 6] = [0x3f, 0x65, 0x6c, 0x69, 0x66, 0x20];
    let else_: [u8; 5] = [0x3f, 0x65, 0x6c, 0x73, 0x65];
    let for_: [u8; 5] = [0x2a, 0x66, 0x6f, 0x72, 0x20];
    proof {
        assert(if_@ =~= if_pat());
        assert(elif@ =~= elif_pat());
        assert(else_@ =~= else_pat());
        assert(for_@ =~= for_pat());
    }
    if l.te > l.ts && b[l.te - 1] == 0x3a {
        return true;
    }
    if starts_exec(b, l, if_.as_slice()) || starts_exec(b, l, elif.as_slice()) || is_text_exec(b, l, else_.as_slice())
        || starts_exec(b, l, for_.as_slice()) {
        return true;
    }
    match value_range_exec(b, l) {
        Some((vs, ve)) => vs < ve && (b[vs] == 0x7c || b[vs] == 0x3e),
        None => false,
    }
}

} // verus!
