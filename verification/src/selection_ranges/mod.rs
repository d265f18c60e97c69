//! Selection ranges: from the token under the cursor out to the whole file.
pub mod blocks;

use vstd::prelude::*;

use crate::ast::{DocV, Document};
use crate::folding::lines::{fold_lines, lines_ok, source_lines, FLine};
use crate::folding::{item_span, item_span_exec, prelude_end};
use crate::formatting::crlf_to_lf;
use crate::lexer::{lex_from, lexes, tokens_of};
use crate::parser::fallback::parse_file_spec;
use crate::parser::parse_fallback;
use crate::position::{line_slice_ok, position_offset, LineIndex, Position, Range};
use crate::selection_ranges::blocks::{
    contains, contains_inclusive, line_spans, mapping_line_spans_exec, owner_block_exec, push_ancestors,
    span_of,
};
use crate::symbol_search::candidate::range_of;
use crate::syntax::{FileId, ParsedFile, SourceSpan, SourceText, Token, TokenKind};
use crate::text::utf8;

verus! {

/// A request for the selection ranges at some positions of a document's text.
#[derive(Debug, Clone)]
pub struct SelectionRangesRequest<'a> {
    pub uri: &'a str,
    pub text: &'a str,
    pub file_id: FileId,
    pub positions: &'a [Position],
}

pub type TokV = (TokenKind, SourceSpan);

pub open spec fn tok_views(ts: Seq<Token>) -> Seq<TokV> {
    ts.map_values(|t: Token| (t.kind, t.span))
}

/// The tokens the lexer makes of a text, ending with the end of file.
pub open spec fn lexed_tokens(b: Seq<u8>, file_id: FileId) -> Seq<TokV> {
    lex_from(b, 0)->0.map_values(
        |r: (TokenKind, int, int)| (r.0, SourceSpan { file_id, start: r.1 as usize, end: r.2 as usize }),
    ) + seq![(TokenKind::EndOfFile, SourceSpan { file_id, start: b.len() as usize, end: b.len() as usize })]
}

pub open spec fn span_len(s: SourceSpan) -> int {
    if s.end >= s.start {
        s.end - s.start
    } else {
        0
    }
}

/// The shortest token around the offset that is no line break or end of file; the first
/// of equally short ones.
pub open spec fn tok_best(ts: Seq<TokV>, offset: int, i: int, best: Option<int>) -> Option<int>
    decreases ts.len() - i,
{
    if i < 0 || i >= ts.len() {
        best
    } else {
        let t = ts[i];
        if t.0 != TokenKind::LineBreak && t.0 != TokenKind::EndOfFile && contains(t.1, offset) && match best {
            None => true,
            Some(j) => span_len(t.1) < span_len(ts[j].1),
        } {
            tok_best(ts, offset, i + 1, Some(i))
        } else {
            tok_best(ts, offset, i + 1, best)
        }
    }
}

pub open spec fn token_span_at(ts: Seq<TokV>, offset: int) -> Seq<SourceSpan> {
    match tok_best(ts, offset, 0, None) {
        Some(i) => seq![ts[i].1],
        None => seq![],
    }
}

/// The first line whose bytes, or their end, hold the offset.
pub open spec fn line_index_at(ls: Seq<FLine>, offset: int, i: int) -> Option<int>
    decreases ls.len() - i,
{
    if i < 0 || i >= ls.len() {
        None
    } else if ls[i].start <= offset <= ls[i].end {
        Some(i)
    } else {
        line_index_at(ls, offset, i + 1)
    }
}

/// The directives, comments and bindings before a document's first node, as one span.
pub open spec fn directive_block(d: DocV) -> Option<SourceSpan> {
    let m = prelude_end(d.items, 0);
    if m <= 0 {
        None
    } else {
        Some(
            SourceSpan {
                file_id: d.span.file_id,
                start: item_span(d.items[0]).start,
                end: item_span(d.items[m - 1]).end,
            },
        )
    }
}

/// The first document's prelude that holds the offset.
pub open spec fn block_at(docs: Seq<DocV>, offset: int, i: int) -> Seq<SourceSpan>
    decreases docs.len() - i,
{
    if i < 0 || i >= docs.len() {
        seq![]
    } else {
        match directive_block(docs[i]) {
            Some(s) => if contains(s, offset) {
                seq![s]
            } else {
                block_at(docs, offset, i + 1)
            },
            None => block_at(docs, offset, i + 1),
        }
    }
}

/// The first document whose span holds the offset, its end included.
pub open spec fn doc_at(docs: Seq<DocV>, offset: int, i: int) -> Seq<SourceSpan>
    decreases docs.len() - i,
{
    if i < 0 || i >= docs.len() {
        seq![]
    } else if contains_inclusive(docs[i].span, offset) {
        seq![docs[i].span]
    } else {
        doc_at(docs, offset, i + 1)
    }
}

/// The spans around the offset, innermost first: token, line spans, prelude, document
/// and file.
pub open spec fn raw_spans(
    b: Seq<u8>,
    file_id: FileId,
    toks: Seq<TokV>,
    docs: Seq<DocV>,
    full: SourceSpan,
    offset: int,
) -> Option<Seq<SourceSpan>> {
    let ls = fold_lines(b);
    match line_index_at(ls, offset, 0) {
        None => None,
        Some(k) => Some(
            token_span_at(toks, offset) + line_spans(b, ls, k, offset, file_id) + block_at(docs, offset, 0)
                + doc_at(docs, offset, 0) + seq![full],
        ),
    }
}

pub open spec fn in_spans(acc: Seq<SourceSpan>, x: SourceSpan, j: int) -> bool
    decreases j,
{
    if j <= 0 {
        false
    } else {
        in_spans(acc, x, j - 1) || acc[j - 1] == x
    }
}

/// The spans without empty ones and without repetitions, first occurrences kept.
pub open spec fn normalized(s: Seq<SourceSpan>, k: int) -> Seq<SourceSpan>
    decreases k,
{
    if k <= 0 {
        seq![]
    } else {
        let acc = normalized(s, k - 1);
        let x = s[k - 1];
        if x.start >= x.end || in_spans(acc, x, acc.len() as int) {
            acc
        } else {
            acc.push(x)
        }
    }
}

/// The ranges of the spans; none when one of them is no range of the text.
pub open spec fn to_ranges(b: Seq<u8>, s: Seq<SourceSpan>, k: int) -> Option<Seq<Range>>
    decreases k,
{
    if k <= 0 {
        Some(seq![])
    } else {
        match (to_ranges(b, s, k - 1), range_of(b, s[k - 1])) {
            (Some(rs), Some(r)) => Some(rs.push(r)),
            _ => None,
        }
    }
}

/// The selection ranges at one offset, innermost first.
pub open spec fn selection_at(
    b: Seq<u8>,
    file_id: FileId,
    toks: Seq<TokV>,
    docs: Seq<DocV>,
    full: SourceSpan,
    offset: int,
) -> Option<Seq<Range>> {
    match raw_spans(b, file_id, toks, docs, full, offset) {
        None => None,
        Some(s) => {
            let n = normalized(s, s.len() as int);
            to_ranges(b, n, n.len() as int)
        },
    }
}

/// The selection ranges at the first `k` positions; none when one position fails.
pub open spec fn selections(b: Seq<u8>, file_id: FileId, positions: Seq<Position>, k: int) -> Option<Seq<Seq<Range>>>
    decreases k,
{
    if k <= 0 {
        Some(seq![])
    } else {
        let docs = parse_file_spec(file_id, b).0;
        let full = SourceSpan { file_id, start: 0, end: b.len() as usize };
        match selections(b, file_id, positions, k - 1) {
            None => None,
            Some(acc) => match position_offset(b, positions[k - 1]) {
                Err(_) => None,
                Ok(offset) => match selection_at(b, file_id, lexed_tokens(b, file_id), docs, full, offset as int) {
                    None => None,
                    Some(rs) => Some(acc.push(rs)),
                },
            },
        }
    }
}

pub open spec fn selection_spec(raw: Seq<u8>, file_id: FileId, positions: Seq<Position>) -> Option<Seq<Seq<Range>>> {
    selections(crlf_to_lf(raw, 0), file_id, positions, positions.len() as int)
}

// ---------------------------------------------------------------------------
// Executable
fn token_at(tokens: &Vec<Token>, offset: usize) -> (r: Option<SourceSpan>)
    ensures
        match tok_best(tok_views(tokens@), offset as int, 0, None) {
            Some(i) => 0 <= i < tokens@.len() && r == Some(tokens@[i].span),
            None => r is None,
        },
{
    let ghost tv = tok_views(tokens@);
    let n = tokens.len();
    let mut best: Option<usize> = None;
    let mut i: usize = 0;
    while i < n
        invariant
            i <= n,
            n == tokens@.len(),
            tv == tok_views(tokens@),
            best matches Some(j) ==> j < i,
            tok_best(tv, offset as int, i as int, match best {
                Some(j) => Some(j as int),
                None => None,
            }) == tok_best(tv, offset as int, 0, None),
        decreases n - i,
    {
        let t = &tokens[i];
        proof {
            assert(tv[i as int] == (t.kind, t.span));
        }
        let eligible = t.kind != TokenKind::LineBreak && t.kind != TokenKind::EndOfFile && t.span.start <= offset
            && offset < t.span.end;
        let shorter = match best {
            None => true,
            Some(j) => {
                proof {
                    assert(tv[j as int] == (tokens@[j as int].kind, tokens@[j as int].span));
                }
                t.span.len() < tokens[j].span.len()
            },
        };
        if eligible && shorter {
            best = Some(i);
        }
        i = i + 1;
    }
    match best {
        Some(j) => {
            proof {
                assert(tv[j as int] == (tokens@[j as int].kind, tokens@[j as int].span));
            }
            Some(tokens[j].span)
        },
        None => None,
    }
}

fn line_at(ls: &Vec<FLine>, offset: usize) -> (r: Option<usize>)
    ensures
        r matches Some(k) ==> line_index_at(ls@, offset as int, 0) == Some(k as int) && k < ls@.len(),
        r is None ==> line_index_at(ls@, offset as int, 0) is None,
{
    let n = ls.len();
    let mut i: usize = 0;
    while i < n
        invariant
            i <= n,
            n == ls@.len(),
            line_index_at(ls@, offset as int, i as int) == line_index_at(ls@, offset as int, 0),
        decreases n - i,
    {
        if ls[i].start <= offset && offset <= ls[i].end {
            return Some(i);
        }
        i = i + 1;
    }
    None
}

fn push_line_spans(b: &[u8], ls: &Vec<FLine>, k: usize, offset: usize, file_id: FileId, out: &mut Vec<SourceSpan>)
    requires
        lines_ok(b@, ls@),
        k < ls@.len(),
    ensures
        final(out)@ == old(out)@ + line_spans(b@, ls@, k as int, offset as int, file_id),
{
    let l = ls[k];
    assert(l.te <= b@.len());
    if crate::folding::lines::starts_with_hash(b, l) {
        out.push(SourceSpan::new(file_id, l.start, l.end));
        proof {
            assert(final(out)@ =~= old(out)@ + line_spans(b@, ls@, k as int, offset as int, file_id));
        }
        return;
    }
    match owner_block_exec(b, ls, k, offset, file_id) {
        Some((h, value, pair)) => {
            match value {
                Some(v) => {
                    if v.start <= offset && offset < v.end {
                        out.push(v);
                    }
                },
                None => {},
            }
            out.push(pair);
            let ghost mid = out@;
            push_ancestors(b, ls, h, pair.end, file_id, out);
            proof {
                assert(final(out)@ =~= old(out)@ + line_spans(b@, ls@, k as int, offset as int, file_id));
            }
        },
        None => {
            match mapping_line_spans_exec(b, l, offset, file_id) {
                None => {
                    proof {
                        assert(final(out)@ =~= old(out)@ + line_spans(b@, ls@, k as int, offset as int, file_id));
                    }
                },
                Some((key, value, pair)) => {
                    match key {
                        Some(x) => out.push(x),
                        None => {},
                    }
                    match value {
                        Some(x) => out.push(x),
                        None => {},
                    }
                    out.push(pair);
                    push_ancestors(b, ls, k, pair.end, file_id, out);
                    proof {
                        assert(final(out)@ =~= old(out)@ + line_spans(b@, ls@, k as int, offset as int, file_id));
                    }
                },
            }
        },
    }
}

fn directive_block_exec(d: &Document) -> (r: Option<SourceSpan>)
    ensures
        r == directive_block(d.view_doc()),
{
    let ghost iv = d.view_doc().items;
    let m = d.items.len();
    let mut i: usize = 0;
    while i < m
        invariant
            i <= m,
            m == d.items@.len(),
            iv == d.view_doc().items,
            prelude_end(iv, i as int) == prelude_end(iv, 0),
        ensures
            i <= m,
            prelude_end(iv, i as int) == prelude_end(iv, 0),
            i == m || iv[i as int] is Node,
        decreases m - i,
    {
        proof {
            assert(iv[i as int] == d.items@[i as int].view_item());
        }
        if let crate::ast::DocumentItem::Node(_) = &d.items[i] {
            break;
        }
        i = i + 1;
    }
    proof {
        assert(prelude_end(iv, i as int) == i);
    }
    if i == 0 {
        return None;
    }
    let first = item_span_exec(&d.items[0]);
    let last = item_span_exec(&d.items[i - 1]);
    Some(SourceSpan::new(d.span.file_id, first.start, last.end))
}

fn block_at_exec(documents: &Vec<Document>, offset: usize) -> (r: Option<SourceSpan>)
    ensures
        block_at(documents@.map_values(|d: Document| d.view_doc()), offset as int, 0) == match r {
            Some(s) => seq![s],
            None => Seq::<SourceSpan>::empty(),
        },
{
    let ghost dv = documents@.map_values(|d: Document| d.view_doc());
    let n = documents.len();
    let mut i: usize = 0;
    while i < n
        invariant
            i <= n,
            n == documents@.len(),
            dv == documents@.map_values(|d: Document| d.view_doc()),
            block_at(dv, offset as int, i as int) == block_at(dv, offset as int, 0),
        decreases n - i,
    {
        proof {
            assert(dv[i as int] == documents@[i as int].view_doc());
        }
        match directive_block_exec(&documents[i]) {
            Some(s) => {
                if s.start <= offset && offset < s.end {
                    return Some(s);
                }
            },
            None => {},
        }
        i = i + 1;
    }
    None
}

fn doc_at_exec(documents: &Vec<Document>, offset: usize) -> (r: Option<SourceSpan>)
    ensures
        doc_at(documents@.map_values(|d: Document| d.view_doc()), offset as int, 0) == match r {
            Some(s) => seq![s],
            None => Seq::<SourceSpan>::empty(),
        },
{
    let ghost dv = documents@.map_values(|d: Document| d.view_doc());
    let n = documents.len();
    let mut i: usize = 0;
    while i < n
        invariant
            i <= n,
            n == documents@.len(),
            dv == documents@.map_values(|d: Document| d.view_doc()),
            doc_at(dv, offset as int, i as int) == doc_at(dv, offset as int, 0),
        decreases n - i,
    {
        proof {
            assert(dv[i as int] == documents@[i as int].view_doc());
        }
        let s = documents[i].span;
        if s.start <= offset && offset <= s.end {
            return Some(s);
        }
        i = i + 1;
    }
    None
}

fn normalize_spans(spans: &Vec<SourceSpan>) -> (r: Vec<SourceSpan>)
    ensures
        r@ == normalized(spans@, spans@.len() as int),
{
    let mut out: Vec<SourceSpan> = Vec::new();
    let n = spans.len();
    let mut k: usize = 0;
    while k < n
        invariant
            k <= n,
            n == spans@.len(),
            out@ == normalized(spans@, k as int),
        decreases n - k,
    {
        let x = spans[k];
        let mut seen = false;
        let mut j: usize = 0;
        while j < out.len()
            invariant
                j <= out@.len(),
                seen == in_spans(out@, x, j as int),
            decreases out@.len() - j,
        {
            if out[j] == x {
                seen = true;
            }
            j = j + 1;
        }
        if !(x.start >= x.end || seen) {
            out.push(x);
        }
        k = k + 1;
    }
    out
}

fn spans_to_ranges(text: &str, index: &LineIndex, spans: &Vec<SourceSpan>) -> (r: Option<Vec<Range>>)
    requires
        index.indexes(utf8(text@)),
    ensures
        match to_ranges(utf8(text@), spans@, spans@.len() as int) {
            Some(rs) => r matches Some(v) && v@ == rs,
            None => r is None,
        },
{
    let mut out: Vec<Range> = Vec::new();
    let n = spans.len();
    let mut k: usize = 0;
    while k < n
        invariant
            k <= n,
            n == spans@.len(),
            index.indexes(utf8(text@)),
            to_ranges(utf8(text@), spans@, k as int) == Some(out@),
        decreases n - k,
    {
        match index.span_to_range(text, spans[k]) {
            Ok(range) => {
                out.push(range);
            },
            Err(_) => {
                proof {
                    lemma_to_ranges_none(utf8(text@), spans@, k + 1, n as int);
                }
                return None;
            },
        }
        k = k + 1;
    }
    Some(out)
}

fn selection_at_exec(
    source: &SourceText,
    index: &LineIndex,
    lines: &Vec<FLine>,
    tokens: &Vec<Token>,
    documents: &Vec<Document>,
    full: SourceSpan,
    offset: usize,
) -> (r: Option<Vec<Range>>)
    requires
        index.indexes(source.bytes()),
        lines@ == fold_lines(source.bytes()),
        lines_ok(source.bytes(), lines@),
    ensures
        match selection_at(
            source.bytes(),
            source.file_id,
            tok_views(tokens@),
            documents@.map_values(|d: Document| d.view_doc()),
            full,
            offset as int,
        ) {
            Some(rs) => r matches Some(v) && v@ == rs,
            None => r is None,
        },
{
    let text = source.as_str();
    let tb = text.as_bytes();
    let k = match line_at(lines, offset) {
        Some(k) => k,
        None => {
            return None;
        },
    };
    let mut spans: Vec<SourceSpan> = Vec::new();
    match token_at(tokens, offset) {
        Some(s) => spans.push(s),
        None => {},
    }
    let ghost after_token = spans@;
    proof {
        assert(tb@ == source.bytes());
    }
    push_line_spans(tb, lines, k, offset, source.file_id, &mut spans);
    let ghost after_line = spans@;
    let ghost dv = documents@.map_values(|d: Document| d.view_doc());
    match block_at_exec(documents, offset) {
        Some(s) => spans.push(s),
        None => {},
    }
    let ghost after_block = spans@;
    proof {
        assert(after_block =~= after_line + block_at(dv, offset as int, 0));
    }
    match doc_at_exec(documents, offset) {
        Some(s) => spans.push(s),
        None => {},
    }
    let ghost after_doc = spans@;
    proof {
        assert(after_doc =~= after_block + doc_at(dv, offset as int, 0));
    }
    spans.push(full);
    proof {
        assert(after_token == token_span_at(tok_views(tokens@), offset as int));
        assert(line_index_at(fold_lines(source.bytes()), offset as int, 0) == Some(k as int));
        assert(spans@ =~= token_span_at(tok_views(tokens@), offset as int) + line_spans(
            source.bytes(),
            fold_lines(source.bytes()),
            k as int,
            offset as int,
            source.file_id,
        ) + block_at(dv, offset as int, 0) + doc_at(dv, offset as int, 0) + seq![full]);
        assert(raw_spans(
            source.bytes(),
            source.file_id,
            tok_views(tokens@),
            documents@.map_values(|d: Document| d.view_doc()),
            full,
            offset as int,
        ) == Some(spans@));
    }
    let normal = normalize_spans(&spans);
    spans_to_ranges(text, index, &normal)
}

proof fn lemma_to_ranges_none(b: Seq<u8>, s: Seq<SourceSpan>, j: int, k: int)
    requires
        0 < j <= k,
        to_ranges(b, s, j) is None,
    ensures
        to_ranges(b, s, k) is None,
    decreases k - j,
{
    if j < k {
        lemma_to_ranges_none(b, s, j, k - 1);
    }
}

proof fn lemma_selections_none(b: Seq<u8>, file_id: FileId, positions: Seq<Position>, j: int, k: int)
    requires
        0 < j <= k,
        selections(b, file_id, positions, j) is None,
    ensures
        selections(b, file_id, positions, k) is None,
    decreases k - j,
{
    if j < k {
        lemma_selections_none(b, file_id, positions, j, k - 1);
    }
}

/// The selection ranges at each requested position, innermost first: the token there, its
/// key, value and line, the blocks around them, the prelude of directives, the document
/// and the file. None when a position is not in the text.
pub fn collect(request: SelectionRangesRequest) -> (r: Option<Vec<Vec<Range>>>)
    requires
        lexes(crlf_to_lf(utf8(request.text@), 0)),
        crlf_to_lf(utf8(request.text@), 0).len() <= isize::MAX,
        forall|i: int|
            0 <= i < request.positions@.len() ==> line_slice_ok(
                crlf_to_lf(utf8(request.text@), 0),
                (#[trigger] request.positions@[i]).line as int,
            ),
    ensures
        match selection_spec(utf8(request.text@), request.file_id, request.positions@) {
            Some(all) => r matches Some(v) && v@.len() == all.len() && forall|i: int|
                0 <= i < all.len() ==> (#[trigger] v@[i])@ == all[i],
            None => r is None,
        },
{
    let parsed = parse_fallback(request.file_id, request.uri, request.text);
    let ghost b = crlf_to_lf(utf8(request.text@), 0);
    let file = match &parsed.file {
        ParsedFile::Fallback(f) => &f.ast,
    };
    let source = &parsed.source;
    let text = source.as_str();
    let index = LineIndex::new(text);
    let tb = text.as_bytes();
    let lines = source_lines(tb);
    let empty: Vec<Token> = Vec::new();
    let tokens = match &parsed.tokens {
        Some(t) => t,
        None => &empty,
    };
    proof {
        assert(tok_views(tokens@) =~= lexed_tokens(b, request.file_id)) by {
            let raw = lex_from(b, 0)->0;
            assert forall|k: int| 0 <= k < tokens@.len() implies tok_views(tokens@)[k] == lexed_tokens(
                b,
                request.file_id,
            )[k] by {
                if k < raw.len() {
                    assert(crate::lexer::token_matches(tokens@[k], *source, raw[k]));
                }
            }
        }
    }
    let mut all: Vec<Vec<Range>> = Vec::new();
    let n = request.positions.len();
    let mut p: usize = 0;
    while p < n
        invariant
            p <= n,
            n == request.positions@.len(),
            b == source.bytes(),
            b == crlf_to_lf(utf8(request.text@), 0),
            utf8(text@) == b,
            tb@ == b,
            source.file_id == request.file_id,
            index.indexes(b),
            lines@ == fold_lines(b),
            lines_ok(b, lines@),
            tok_views(tokens@) == lexed_tokens(b, request.file_id),
            file.documents@.map_values(|d: Document| d.view_doc()) == parse_file_spec(request.file_id, b).0,
            file.span == (SourceSpan { file_id: request.file_id, start: 0, end: b.len() as usize }),
            forall|i: int|
                0 <= i < request.positions@.len() ==> line_slice_ok(b, (#[trigger] request.positions@[i]).line as int),
            match selections(b, request.file_id, request.positions@, p as int) {
                Some(acc) => all@.len() == acc.len() && forall|i: int| 0 <= i < acc.len() ==> (#[trigger] all@[i])@ == acc[i],
                None => false,
            },
        decreases n - p,
    {
        let position = request.positions[p];
        assert(line_slice_ok(b, request.positions@[p as int].line as int));
        let offset = match index.position_to_offset(text, position) {
            Ok(o) => o,
            Err(_) => {
                proof {
                    lemma_selections_none(b, request.file_id, request.positions@, p + 1, n as int);
                }
                return None;
            },
        };
        let ranges = match selection_at_exec(source, &index, &lines, tokens, &file.documents, file.span, offset) {
            Some(r) => r,
            None => {
                proof {
                    lemma_selections_none(b, request.file_id, request.positions@, p + 1, n as int);
                }
                return None;
            },
        };
        let ghost before = all@;
        all.push(ranges);
        proof {
            assert forall|i: int| 0 <= i < all@.len() implies (#[trigger] all@[i])@ == selections(
                b,
                request.file_id,
                request.positions@,
                p + 1,
            )->0[i] by {
                if i < before.len() {
                    assert(all@[i] == before[i]);
                }
            }
        }
        p = p + 1;
    }
    Some(all)
}

} // verus!
