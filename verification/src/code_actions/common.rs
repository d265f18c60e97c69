//! What the code actions share: the action type, spans and ranges, lines, titles.
use vstd::prelude::*;
use vstd::utf8::valid_utf8;

use crate::formatting::{Line, LineT, lines_view};
use crate::position::{LineIndex, Range, line_slice_ok, offset_position, position_offset};
use crate::syntax::{FileId, SourceSpan, SourceText};
use crate::text::{bytes_to_string, char_boundary, find_pat, find_pat_exec, lemma_find_pat_bounds, utf8};

verus! {

broadcast use vstd::utf8::valid_utf8_concat;

#[derive(Debug, Clone, Copy, PartialEq, Eq, Structural)]
pub enum CodeActionKind {
    QuickFix,
    SourceOrganizeImports,
}

/// A diagnostic that the client sends back with a request: its range and its code, when
/// the code is a string.
#[derive(Debug, Clone, PartialEq, Eq)]
pub struct ContextDiagnostic {
    pub range: Range,
    pub code: Option<String>,
}

/// A code action with one edit of the document. `diagnostic` is the index of the context
/// diagnostic that the action fixes.
#[derive(Debug, Clone, PartialEq, Eq)]
pub struct CodeAction {
    pub title: String,
    pub kind: CodeActionKind,
    pub diagnostic: Option<usize>,
    pub range: Range,
    pub new_text: String,
    pub is_preferred: bool,
}

pub struct ActionV {
    pub title: Seq<u8>,
    pub kind: CodeActionKind,
    pub diagnostic: Option<usize>,
    pub range: Range,
    pub new_text: Seq<u8>,
    pub preferred: bool,
}

impl CodeAction {
    pub open spec fn view_action(&self) -> ActionV {
        ActionV {
            title: utf8(self.title@),
            kind: self.kind,
            diagnostic: self.diagnostic,
            range: self.range,
            new_text: utf8(self.new_text@),
            preferred: self.is_preferred,
        }
    }
}

pub open spec fn lit(s: &str) -> Seq<u8> {
    utf8(s@)
}

/// The text between backticks.
pub open spec fn ticked(x: Seq<u8>) -> Seq<u8> {
    seq![0x60u8] + x + seq![0x60u8]
}

/// Two spans touch or overlap (end points count).
pub open spec fn overlap(l: SourceSpan, r: SourceSpan) -> bool {
    l.start <= r.end && r.start <= l.end
}

/// The span of a range of the text, when both positions exist and are in order.
pub open spec fn range_span(raw: Seq<u8>, file_id: FileId, range: Range) -> Option<SourceSpan> {
    match (position_offset(raw, range.start), position_offset(raw, range.end)) {
        (Ok(s), Ok(e)) => if s <= e {
            Some(SourceSpan { file_id, start: s, end: e })
        } else {
            None
        },
        _ => None,
    }
}

/// The range of a span of the text, when it is in order and both ends exist.
pub open spec fn span_range(raw: Seq<u8>, span: SourceSpan) -> Option<Range> {
    if span.start > span.end {
        None
    } else {
        match (offset_position(raw, span.start), offset_position(raw, span.end)) {
            (Ok(s), Ok(e)) => Some(Range { start: s, end: e }),
            _ => None,
        }
    }
}

/// The first line from `k` that holds the offset: within its text or line feed, or at the
/// very end of a last line without one.
pub open spec fn line_for(lines: Seq<LineT>, off: int, k: int) -> Option<int>
    decreases lines.len() - k,
{
    if k < 0 || k >= lines.len() {
        None
    } else if off >= lines[k].0 && (off < lines[k].1 || (off == lines[k].0 + lines[k].2.len()
        && !lines[k].3)) {
        Some(k)
    } else {
        line_for(lines, off, k + 1)
    }
}

pub proof fn lemma_line_for_range(lines: Seq<LineT>, off: int, k: int)
    ensures
        line_for(lines, off, k) matches Some(x) ==> k <= x < lines.len(),
    decreases lines.len() - k,
{
    if 0 <= k < lines.len() {
        lemma_line_for_range(lines, off, k + 1);
    }
}

/// The end of a line's text.
pub open spec fn line_end(l: LineT) -> int {
    l.0 + l.2.len()
}

/// The piece of the source text that a span covers (`SourceText::slice`).
pub open spec fn source_slice(norm: Seq<u8>, file_id: FileId, span: SourceSpan) -> Option<Seq<u8>> {
    if span.file_id == file_id && span.start <= span.end && span.end <= norm.len() && char_boundary(
        norm,
        span.start as int,
    ) && char_boundary(norm, span.end as int) {
        Some(norm.subrange(span.start as int, span.end as int))
    } else {
        None
    }
}

/// Where a directive's name stands inside its span.
pub open spec fn name_span(norm: Seq<u8>, file_id: FileId, name: Seq<u8>, span: SourceSpan) -> Option<
    SourceSpan,
> {
    match source_slice(norm, file_id, span) {
        Some(t) => match find_pat(t, 0, t.len() as int, name) {
            Some(p) => Some(
                SourceSpan {
                    file_id: span.file_id,
                    start: (span.start + p) as usize,
                    end: (span.start + p + name.len()) as usize,
                },
            ),
            None => None,
        },
        None => None,
    }
}

pub fn overlaps(l: SourceSpan, r: SourceSpan) -> (b: bool)
    ensures
        b == overlap(l, r),
{
    l.start <= r.end && r.start <= l.end
}

pub fn to_span(index: &LineIndex, text: &str, file_id: FileId, range: Range) -> (r: Option<SourceSpan>)
    requires
        index.indexes(utf8(text@)),
        line_slice_ok(utf8(text@), range.start.line as int),
        line_slice_ok(utf8(text@), range.end.line as int),
    ensures
        r == range_span(utf8(text@), file_id, range),
{
    match index.range_to_span(text, file_id, range) {
        Ok(span) => Some(span),
        Err(_) => None,
    }
}

pub fn to_range(index: &LineIndex, text: &str, span: SourceSpan) -> (r: Option<Range>)
    requires
        index.indexes(utf8(text@)),
    ensures
        r == span_range(utf8(text@), span),
{
    match index.span_to_range(text, span) {
        Ok(range) => Some(range),
        Err(_) => None,
    }
}

pub(crate) fn line_for_offset(lines: &Vec<Line>, off: usize) -> (r: Option<usize>)
    ensures
        match line_for(lines_view(lines@), off as int, 0) {
            Some(k) => r == Some(k as usize) && 0 <= k < lines@.len() <= usize::MAX,
            None => r is None,
        },
{
    let ghost ls = lines_view(lines@);
    proof {
        lemma_line_for_range(ls, off as int, 0);
    }
    let n = lines.len();
    let mut k: usize = 0;
    while k < n
        invariant
            k <= n,
            n == lines@.len(),
            ls == lines_view(lines@),
            line_for(ls, off as int, k as int) == line_for(ls, off as int, 0),
        decreases n - k,
    {
        let l = &lines[k];
        proof {
            assert(ls[k as int] == l.view_line());
        }
        if off >= l.start && (off < l.end_with_newline || (off - l.start == l.content.len()
            && !l.has_newline)) {
            return Some(k);
        }
        k = k + 1;
    }
    None
}

/// `SourceText::slice` followed by `str::find` of the name.
pub fn find_name_span(source: &SourceText, name: &str, span: SourceSpan) -> (r: Option<SourceSpan>)
    ensures
        r == name_span(source.bytes(), source.file_id, utf8(name@), span),
{
    match source.slice(span) {
        Some(t) => {
            let tb = t.as_bytes();
            let nb = name.as_bytes();
            proof {
                lemma_find_pat_bounds(tb@, 0, tb@.len() as int, nb@);
            }
            match find_pat_exec(tb, 0, tb.len(), nb) {
                Some(p) => {
                    proof {
                        assert(span.start + p + nb@.len() <= span.end);
                    }
                    Some(SourceSpan::new(span.file_id, span.start + p, span.start + p + nb.len()))
                },
                None => None,
            }
        },
        None => None,
    }
}

/// Appends the text between backticks.
pub fn push_ticked(out: &mut Vec<u8>, x: &[u8])
    requires
        valid_utf8(old(out)@),
        valid_utf8(x@),
    ensures
        final(out)@ == old(out)@ + ticked(x@),
        valid_utf8(final(out)@),
{
    let ghost before = out@;
    crate::text::push_ascii(out, 0x60);
    let mut i: usize = 0;
    let ghost mid = out@;
    while i < x.len()
        invariant
            i <= x@.len(),
            out@ =~= mid + x@.subrange(0, i as int),
        decreases x@.len() - i,
    {
        out.push(x[i]);
        i = i + 1;
    }
    proof {
        assert(x@.subrange(0, x@.len() as int) =~= x@);
        assert(valid_utf8(mid + x@));
    }
    crate::text::push_ascii(out, 0x60);
    proof {
        assert(out@ =~= before + ticked(x@));
    }
}

/// A quick fix or source action with one edit.
pub fn make_action(
    title: Vec<u8>,
    kind: CodeActionKind,
    diagnostic: Option<usize>,
    range: Range,
    new_text: Vec<u8>,
    is_preferred: bool,
) -> (a: CodeAction)
    requires
        valid_utf8(title@),
        valid_utf8(new_text@),
    ensures
        a.view_action() == (ActionV {
            title: title@,
            kind,
            diagnostic,
            range,
            new_text: new_text@,
            preferred: is_preferred,
        }),
{
    CodeAction {
        title: bytes_to_string(title),
        kind,
        diagnostic,
        range,
        new_text: bytes_to_string(new_text),
        is_preferred,
    }
}

} // verus!
