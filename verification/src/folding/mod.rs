//! Folding ranges: documents, preludes, comment runs and indented blocks, by line.
pub mod lines;
pub mod order;
pub mod structure;

use vstd::prelude::*;

use crate::ast::{DocItemV, DocV, Document, DocumentItem};
use crate::folding::lines::{fold_lines, lines_ok, source_lines, FLine};
use crate::folding::order::{accept_ranges, accepted, lemma_accepted_ranges_nest, overlaps_invalidly, sort_ranges, sorted_ranges};
use crate::folding::structure::{
    collect_comment_ranges, collect_structural_ranges, comment_ranges, structural_ranges, FoldingRange,
    FoldingRangeKind,
};
use crate::formatting::crlf_to_lf;
use crate::lexer::lexes;
use crate::parser::fallback::parse_file_spec;
use crate::parser::parse_fallback;
use crate::position::{offset_position, LineIndex};
use crate::syntax::{FileId, ParsedFile, SourceSpan, SourceText};
use crate::text::utf8;

verus! {

/// A request for the folding ranges of a document's text.
#[derive(Debug, Clone)]
pub struct FoldingRangesRequest<'a> {
    pub uri: &'a str,
    pub text: &'a str,
    pub file_id: FileId,
}

/// The region from the line of `span.start` to the line of `span.end`, when both are
/// positions of the text.
pub open spec fn span_range(b: Seq<u8>, span: SourceSpan) -> Seq<FoldingRange> {
    match (offset_position(b, span.start), offset_position(b, span.end)) {
        (Ok(s), Ok(e)) => if e.line > s.line {
            seq![FoldingRange { start_line: s.line, end_line: e.line, kind: FoldingRangeKind::Region }]
        } else {
            seq![]
        },
        _ => seq![],
    }
}

/// A document from its separator, if it has one, to its end.
pub open spec fn doc_fold_span(d: DocV, file_id: FileId) -> SourceSpan {
    match d.separator_span {
        Some(sep) => SourceSpan { file_id, start: sep.start, end: d.span.end },
        None => d.span,
    }
}

pub open spec fn docs_ranges(b: Seq<u8>, file_id: FileId, docs: Seq<DocV>, k: int) -> Seq<FoldingRange>
    decreases k,
{
    if k <= 0 {
        seq![]
    } else {
        docs_ranges(b, file_id, docs, k - 1) + span_range(b, doc_fold_span(docs[k - 1], file_id))
    }
}

/// One region per document, when there are two or more.
pub open spec fn document_ranges(b: Seq<u8>, file_id: FileId, docs: Seq<DocV>) -> Seq<FoldingRange> {
    if docs.len() < 2 {
        seq![]
    } else {
        docs_ranges(b, file_id, docs, docs.len() as int)
    }
}

pub open spec fn item_span(i: DocItemV) -> SourceSpan {
    match i {
        DocItemV::Directive { span, .. } => span,
        DocItemV::Comment { span, .. } => span,
        DocItemV::Let { span, .. } => span,
        DocItemV::Node(_) => SourceSpan { file_id: FileId(0), start: 0, end: 0 },
    }
}

/// The number of items before the first node, from `i` on.
pub open spec fn prelude_end(items: Seq<DocItemV>, i: int) -> int
    decreases items.len() - i,
{
    if i < 0 || i >= items.len() || items[i] is Node {
        i
    } else {
        prelude_end(items, i + 1)
    }
}

/// The directives, comments and bindings before a document's first node, as one region.
pub open spec fn prelude_range(b: Seq<u8>, file_id: FileId, d: DocV) -> Seq<FoldingRange> {
    let m = prelude_end(d.items, 0);
    if m <= 0 {
        seq![]
    } else {
        span_range(
            b,
            SourceSpan { file_id, start: item_span(d.items[0]).start, end: item_span(d.items[m - 1]).end },
        )
    }
}

pub open spec fn prelude_ranges(b: Seq<u8>, file_id: FileId, docs: Seq<DocV>, k: int) -> Seq<FoldingRange>
    decreases k,
{
    if k <= 0 {
        seq![]
    } else {
        prelude_ranges(b, file_id, docs, k - 1) + prelude_range(b, file_id, docs[k - 1])
    }
}

/// Every candidate range of a text with its documents.
pub open spec fn candidates(b: Seq<u8>, file_id: FileId, docs: Seq<DocV>) -> Seq<FoldingRange> {
    let ls = fold_lines(b);
    document_ranges(b, file_id, docs) + prelude_ranges(b, file_id, docs, docs.len() as int) + comment_ranges(
        b,
        ls,
        0,
    ) + structural_ranges(b, ls, ls.len() as int)
}

/// The folding ranges of a document's text: the candidates sorted, each kept when it is
/// not empty, new, and nested with or apart from every range kept before.
pub open spec fn folding_spec(raw: Seq<u8>, file_id: FileId) -> Seq<FoldingRange> {
    let b = crlf_to_lf(raw, 0);
    let s = sorted_ranges(candidates(b, file_id, parse_file_spec(file_id, b).0));
    accepted(s, s.len() as int)
}

fn push_span_range(out: &mut Vec<FoldingRange>, source: &SourceText, index: &LineIndex, span: SourceSpan)
    requires
        index.indexes(source.bytes()),
    ensures
        final(out)@ == old(out)@ + span_range(source.bytes(), span),
{
    let text = source.as_str();
    let start = match index.offset_to_position(text, span.start) {
        Ok(p) => p,
        Err(_) => {
            return;
        },
    };
    let end = match index.offset_to_position(text, span.end) {
        Ok(p) => p,
        Err(_) => {
            return;
        },
    };
    if end.line > start.line {
        out.push(FoldingRange { start_line: start.line, end_line: end.line, kind: FoldingRangeKind::Region });
    }
    proof {
        assert(final(out)@ =~= old(out)@ + span_range(source.bytes(), span));
    }
}

fn collect_document_ranges(documents: &Vec<Document>, source: &SourceText, index: &LineIndex, out: &mut Vec<FoldingRange>)
    requires
        index.indexes(source.bytes()),
    ensures
        final(out)@ == old(out)@ + document_ranges(
            source.bytes(),
            source.file_id,
            documents@.map_values(|d: Document| d.view_doc()),
        ),
{
    let ghost dv = documents@.map_values(|d: Document| d.view_doc());
    let n = documents.len();
    if n < 2 {
        proof {
            assert(final(out)@ =~= old(out)@ + document_ranges(source.bytes(), source.file_id, dv));
        }
        return;
    }
    let mut k: usize = 0;
    while k < n
        invariant
            k <= n,
            n == documents@.len(),
            n >= 2,
            dv == documents@.map_values(|d: Document| d.view_doc()),
            index.indexes(source.bytes()),
            out@ == old(out)@ + docs_ranges(source.bytes(), source.file_id, dv, k as int),
        decreases n - k,
    {
        let d = &documents[k];
        let span = match d.separator_span {
            Some(sep) => SourceSpan::new(source.file_id, sep.start, d.span.end),
            None => d.span,
        };
        proof {
            assert(dv[k as int] == d.view_doc());
        }
        let ghost before = out@;
        push_span_range(out, source, index, span);
        proof {
            assert(out@ =~= old(out)@ + docs_ranges(source.bytes(), source.file_id, dv, k + 1));
        }
        k = k + 1;
    }
}

pub(crate) fn item_span_exec(item: &DocumentItem) -> (span: SourceSpan)
    ensures
        span == item_span(item.view_item()),
{
    match item {
        DocumentItem::Directive(d) => d.span,
        DocumentItem::Comment(c) => c.span,
        DocumentItem::Let(l) => l.span,
        DocumentItem::Node(_) => SourceSpan::new(FileId(0), 0, 0),
    }
}

fn collect_prelude_ranges(documents: &Vec<Document>, source: &SourceText, index: &LineIndex, out: &mut Vec<FoldingRange>)
    requires
        index.indexes(source.bytes()),
    ensures
        final(out)@ == old(out)@ + prelude_ranges(
            source.bytes(),
            source.file_id,
            documents@.map_values(|d: Document| d.view_doc()),
            documents@.len() as int,
        ),
{
    let ghost dv = documents@.map_values(|d: Document| d.view_doc());
    let n = documents.len();
    let mut k: usize = 0;
    while k < n
        invariant
            k <= n,
            n == documents@.len(),
            dv == documents@.map_values(|d: Document| d.view_doc()),
            index.indexes(source.bytes()),
            out@ == old(out)@ + prelude_ranges(source.bytes(), source.file_id, dv, k as int),
        decreases n - k,
    {
        let d = &documents[k];
        let ghost iv = d.view_doc().items;
        proof {
            assert(dv[k as int] == d.view_doc());
        }
        let m = d.items.len();
        let mut i: usize = 0;
        while i < m
            invariant
                i <= m,
                m == d.items@.len(),
                iv == d.view_doc().items,
                prelude_end(iv, i as int) == prelude_end(iv, 0),
            ensures
                i <= m,
                prelude_end(iv, i as int) == prelude_end(iv, 0),
                i == m || iv[i as int] is Node,
            decreases m - i,
        {
            proof {
                assert(iv[i as int] == d.items@[i as int].view_item());
            }
            if let DocumentItem::Node(_) = &d.items[i] {
                break;
            }
            i = i + 1;
        }
        proof {
            assert(i == m || iv[i as int] is Node);
            assert(prelude_end(iv, i as int) == i);
        }
        let ghost before = out@;
        if i > 0 {
            let first = item_span_exec(&d.items[0]);
            let last = item_span_exec(&d.items[i - 1]);
            push_span_range(out, source, index, SourceSpan::new(source.file_id, first.start, last.end));
        }
        proof {
            assert(out@ =~= before + prelude_range(source.bytes(), source.file_id, dv[k as int]));
        }
        k = k + 1;
    }
}

/// The folding ranges of a document: every document when there are several, each
/// prelude of directives and comments, runs of comments, Lua fences and braces, sequences
/// and indented blocks; sorted, and each kept when it nests with the ones kept before.
pub fn collect(request: FoldingRangesRequest) -> (r: Option<Vec<FoldingRange>>)
    requires
        lexes(crlf_to_lf(utf8(request.text@), 0)),
        crlf_to_lf(utf8(request.text@), 0).len() <= isize::MAX,
        crlf_to_lf(utf8(request.text@), 0).len() < u32::MAX,
    ensures
        r matches Some(v) && v@ == folding_spec(utf8(request.text@), request.file_id),
{
    let parsed = parse_fallback(request.file_id, request.uri, request.text);
    let file = match &parsed.file {
        ParsedFile::Fallback(f) => &f.ast,
    };
    let source = &parsed.source;
    let text = source.as_str();
    let index = LineIndex::new(text);
    let b = text.as_bytes();
    let lines = source_lines(b);
    let mut candidates: Vec<FoldingRange> = Vec::new();
    collect_document_ranges(&file.documents, source, &index, &mut candidates);
    collect_prelude_ranges(&file.documents, source, &index, &mut candidates);
    collect_comment_ranges(b, &lines, &mut candidates);
    collect_structural_ranges(b, &lines, &mut candidates);
    let sorted = sort_ranges(&candidates);
    let accepted = accept_ranges(&sorted);
    Some(accepted)
}

/// The folding ranges of any text each span more than one line, are all different, and
/// any two of them either nest or do not overlap.
pub proof fn lemma_folding_ranges_nest(raw: Seq<u8>, file_id: FileId)
    ensures
        forall|i: int|
            0 <= i < folding_spec(raw, file_id).len() ==> #[trigger] folding_spec(raw, file_id)[i].end_line
                > folding_spec(raw, file_id)[i].start_line,
        forall|i: int, j: int|
            0 <= i < j < folding_spec(raw, file_id).len() ==> #[trigger] folding_spec(raw, file_id)[i]
                != #[trigger] folding_spec(raw, file_id)[j] && !overlaps_invalidly(
                folding_spec(raw, file_id)[i],
                folding_spec(raw, file_id)[j],
            ),
{
    let b = crlf_to_lf(raw, 0);
    let s = sorted_ranges(candidates(b, file_id, parse_file_spec(file_id, b).0));
    lemma_accepted_ranges_nest(s, s.len() as int);
}

/// The folding ranges come ordered by start line, and among those that start on one line,
/// the longer first.
pub proof fn lemma_folding_ranges_ordered(raw: Seq<u8>, file_id: FileId)
    ensures
        forall|i: int, j: int|
            0 <= i < j < folding_spec(raw, file_id).len() ==> {
                let x = #[trigger] folding_spec(raw, file_id)[i];
                let y = #[trigger] folding_spec(raw, file_id)[j];
                x.start_line < y.start_line || (x.start_line == y.start_line && x.end_line >= y.end_line)
            },
{
    let b = crlf_to_lf(raw, 0);
    let s = sorted_ranges(candidates(b, file_id, parse_file_spec(file_id, b).0));
    crate::folding::order::lemma_sorted_ranges_in_order(candidates(b, file_id, parse_file_spec(file_id, b).0));
    crate::folding::order::lemma_accepted_in_order(s, s.len() as int);
    let out = folding_spec(raw, file_id);
    assert forall|i: int, j: int| 0 <= i < j < out.len() implies {
        let x = #[trigger] out[i];
        let y = #[trigger] out[j];
        x.start_line < y.start_line || (x.start_line == y.start_line && x.end_line >= y.end_line)
    } by {
        assert(!crate::folding::order::before(out[j], out[i]));
    }
}

} // verus!
