//! Hover: what the item under the cursor is, and the diagnostics there.
pub mod diags;
pub mod items;
pub mod key_path;
pub mod lookup;
pub mod markdown;
pub mod nodes;

use vstd::prelude::*;
use vstd::utf8::valid_utf8;

use crate::ast::{DocItemV, DocV, Document, DocumentItem};
use crate::diagnostics::{
    collect, diag_views, dedup_diags, docs_dups, dup_view, err_view, lemma_errors_views, sorted_diags, text_errors,
    DiagV, DupV,
};
use crate::formatting::crlf_to_lf;
use crate::hover::diags::{append_diagnostics, diagnostic_hover, diagnostic_hover_spec, with_diagnostics};
use crate::hover::items::{directive_hover, directive_hover_spec, let_hover, let_hover_spec};
use crate::hover::lookup::{def_views, HoverV};
use crate::hover::markdown::markdown_of;
use crate::hover::nodes::{env_of, hover_out, node_hover, node_hover_spec, HoverEnv};
use crate::lexer::lexes;
use crate::parser::fallback::{parse_file_spec, PErrV};
use crate::parser::parse_fallback;
use crate::semantic::{defs_view, file_defs, SemanticDocument};
use crate::symbols::{Definition, SegV, SymbolPath};
use crate::syntax::{FileId, ParsedFile, SourceSpan, SourceText};
use crate::text::utf8;

verus! {

/// A hover request: a document's text and a byte offset in it.
#[derive(Debug, Clone, Copy)]
pub struct HoverRequest<'a> {
    pub uri: &'a str,
    pub text: &'a str,
    pub file_id: FileId,
    pub offset: usize,
}

/// What a hover shows: the span it covers and its markdown.
#[derive(Debug, Clone, PartialEq, Eq)]
pub struct HoverResult {
    pub span: SourceSpan,
    pub markdown: String,
}

/// The hover of one item of document `d` (counted from 0).
pub open spec fn item_hover(env: HoverEnv, item: DocItemV, d: int, offset: int) -> Option<HoverV> {
    match item {
        DocItemV::Directive { name, span, value } => directive_hover_spec(
            env.norm,
            env.file_id,
            name,
            span,
            value,
            offset,
        ),
        DocItemV::Let { name, span, value_span } => let_hover_spec(env, name, span, value_span, offset),
        DocItemV::Node(n) => node_hover_spec(env, n, seq![SegV::Document((d + 1) as nat)], offset),
        DocItemV::Comment { .. } => None,
    }
}

pub open spec fn items_hover_from(env: HoverEnv, items: Seq<DocItemV>, d: int, offset: int, i: int) -> Option<HoverV>
    decreases items.len() - i,
{
    if i < 0 || i >= items.len() {
        None
    } else {
        match item_hover(env, items[i], d, offset) {
            Some(h) => Some(h),
            None => items_hover_from(env, items, d, offset, i + 1),
        }
    }
}

/// The first item under the offset, documents and items in order.
pub open spec fn docs_hover(env: HoverEnv, docs: Seq<DocV>, offset: int, d: int) -> Option<HoverV>
    decreases docs.len() - d,
{
    if d < 0 || d >= docs.len() {
        None
    } else {
        match items_hover_from(env, docs[d].items, d, offset, 0) {
            Some(h) => Some(h),
            None => docs_hover(env, docs, offset, d + 1),
        }
    }
}

/// The hover at the offset: the item there, else the first diagnostic there; then the
/// diagnostics at the offset appended.
pub open spec fn hover_at(env: HoverEnv, docs: Seq<DocV>, ds: Seq<DiagV>, offset: int) -> Option<HoverV> {
    let found = match docs_hover(env, docs, offset, 0) {
        Some(h) => Some(h),
        None => diagnostic_hover_spec(env.norm, env.file_id, ds, offset),
    };
    match found {
        None => None,
        Some((s, md)) => Some((s, with_diagnostics(md, env.norm, env.file_id, ds, offset))),
    }
}

pub open spec fn parser_errs(es: Seq<PErrV>) -> Seq<DiagV> {
    es.map_values(|e: PErrV| err_view("lumals.parser"@, e))
}

pub open spec fn validation_errs(es: Seq<PErrV>) -> Seq<DiagV> {
    es.map_values(|e: PErrV| err_view("lumals.validation"@, e))
}

pub open spec fn dup_diags(xs: Seq<DupV>) -> Seq<DiagV> {
    xs.map_values(|x: DupV| dup_view(x))
}

/// Every diagnostic of a document's text, as `diagnostics::collect` gives them.
pub open spec fn document_diags(raw: Seq<u8>, file_id: FileId) -> Seq<DiagV> {
    let b = crlf_to_lf(raw, 0);
    let p = parse_file_spec(file_id, b);
    dedup_diags(
        sorted_diags(
            parser_errs(p.1) + validation_errs(text_errors(file_id, b)) + dup_diags(
                docs_dups(b, p.0, p.0.len() as int),
            ),
        ),
    )
}

/// The hover at `offset` in a document's text.
pub open spec fn hover_spec(raw: Seq<u8>, file_id: FileId, offset: int) -> Option<HoverV> {
    let b = crlf_to_lf(raw, 0);
    let docs = parse_file_spec(file_id, b).0;
    hover_at(
        HoverEnv { norm: b, file_id, defs: file_defs(docs, docs.len() as int) },
        docs,
        document_diags(raw, file_id),
        offset,
    )
}

fn document_hover(
    document: &Document,
    d: usize,
    offset: usize,
    source: &SourceText,
    defs: &Vec<Definition>,
) -> (r: Option<(SourceSpan, Vec<u8>)>)
    requires
        document.nodes_nested_leaves(),
        source.bytes().len() < usize::MAX,
        d < usize::MAX,
    ensures
        hover_out(r, items_hover_from(env_of(source, defs@), document.view_doc().items, d as int, offset as int, 0)),
{
    let ghost env = env_of(source, defs@);
    let ghost iv = document.view_doc().items;
    let path = SymbolPath::root(d + 1);
    let n = document.items.len();
    let mut i: usize = 0;
    while i < n
        invariant
            i <= n,
            n == document.items@.len(),
            iv == document.view_doc().items,
            document.nodes_nested_leaves(),
            source.bytes().len() < usize::MAX,
            env == env_of(source, defs@),
            path.view_path() == seq![SegV::Document((d + 1) as nat)],
            items_hover_from(env, iv, d as int, offset as int, i as int) == items_hover_from(
                env,
                iv,
                d as int,
                offset as int,
                0,
            ),
        decreases n - i,
    {
        let item = &document.items[i];
        proof {
            assert(iv[i as int] == item.view_item());
        }
        let found = match item {
            DocumentItem::Directive(directive) => directive_hover(directive, offset, source),
            DocumentItem::Let(binding) => let_hover(binding, offset, source, defs),
            DocumentItem::Node(node) => {
                assert(document.items@[i as int] matches DocumentItem::Node(n) ==> n.nested_leaves());
                node_hover(node, &path, offset, source, defs)
            },
            DocumentItem::Comment(_) => None,
        };
        match found {
            Some(h) => {
                return Some(h);
            },
            None => {},
        }
        i = i + 1;
    }
    None
}

/// The hover of the first item under the offset, documents and items in order.
pub fn file_hover(documents: &Vec<Document>, offset: usize, source: &SourceText, defs: &Vec<Definition>) -> (r: Option<
    (SourceSpan, Vec<u8>),
>)
    requires
        forall|i: int| 0 <= i < documents@.len() ==> (#[trigger] documents@[i]).nodes_nested_leaves(),
        source.bytes().len() < usize::MAX,
    ensures
        hover_out(
            r,
            docs_hover(env_of(source, defs@), documents@.map_values(|d: Document| d.view_doc()), offset as int, 0),
        ),
{
    let ghost env = env_of(source, defs@);
    let ghost dv = documents@.map_values(|d: Document| d.view_doc());
    let n = documents.len();
    let mut d: usize = 0;
    while d < n
        invariant
            d <= n,
            n == documents@.len(),
            dv == documents@.map_values(|d: Document| d.view_doc()),
            forall|i: int| 0 <= i < documents@.len() ==> (#[trigger] documents@[i]).nodes_nested_leaves(),
            source.bytes().len() < usize::MAX,
            env == env_of(source, defs@),
            docs_hover(env, dv, offset as int, d as int) == docs_hover(env, dv, offset as int, 0),
        decreases n - d,
    {
        assert(documents@[d as int].nodes_nested_leaves());
        proof {
            assert(dv[d as int] == documents@[d as int].view_doc());
        }
        match document_hover(&documents[d], d, offset, source, defs) {
            Some(h) => {
                return Some(h);
            },
            None => {},
        }
        d = d + 1;
    }
    None
}

/// The hover at the request's offset: the directive, binding, key, scalar or tag there,
/// else the first diagnostic there, with the diagnostics at the offset appended.
pub fn hover(request: HoverRequest) -> (r: Option<HoverResult>)
    requires
        lexes(crlf_to_lf(utf8(request.text@), 0)),
        crlf_to_lf(utf8(request.text@), 0).len() <= isize::MAX,
    ensures
        match hover_spec(utf8(request.text@), request.file_id, request.offset as int) {
            None => r is None,
            Some((s, md)) => r matches Some(h) && h.span == s && utf8(h.markdown@) == md,
        },
{
    let parsed = parse_fallback(request.file_id, request.uri, request.text);
    let ghost raw = utf8(request.text@);
    let ghost b = crlf_to_lf(raw, 0);
    let ghost p = parse_file_spec(request.file_id, b);
    let diagnostics = collect(&parsed);
    let file = match &parsed.file {
        ParsedFile::Fallback(f) => f,
    };
    let semantic = SemanticDocument::from_ast(&file.ast);
    proof {
        lemma_errors_views(parsed.diagnostics@, "lumals.parser"@, p.1);
        assert(parser_errs(p.1) =~= p.1.map_values(|e: PErrV| err_view("lumals.parser"@, e)));
        assert(diag_views(diagnostics@) == document_diags(raw, request.file_id));
        assert(def_views(semantic.definitions@) == file_defs(p.0, p.0.len() as int));
    }
    let offset = request.offset;
    let found = match file_hover(&file.ast.documents, offset, &parsed.source, &semantic.definitions) {
        Some(h) => Some(h),
        None => diagnostic_hover(&diagnostics, &parsed.source, offset),
    };
    match found {
        None => None,
        Some((span, markdown)) => {
            let mut markdown = markdown;
            append_diagnostics(&mut markdown, &diagnostics, &parsed.source, offset);
            Some(HoverResult { span, markdown: markdown_of(markdown) })
        },
    }
}


proof fn lemma_items_hover_from_contains(env: HoverEnv, items: Seq<DocItemV>, d: int, offset: int, i: int)
    ensures
        items_hover_from(env, items, d, offset, i) matches Some((s, _)) ==> s.start <= offset < s.end,
    decreases items.len() - i,
{
    if 0 <= i < items.len() {
        match items[i] {
            DocItemV::Directive { name, span, value } => crate::hover::items::lemma_directive_hover_contains(
                env.norm,
                env.file_id,
                name,
                span,
                value,
                offset,
            ),
            DocItemV::Let { name, span, value_span } => crate::hover::items::lemma_let_hover_contains(
                env,
                name,
                span,
                value_span,
                offset,
            ),
            DocItemV::Node(n) => crate::hover::nodes::lemma_node_hover_contains(
                env,
                n,
                seq![SegV::Document((d + 1) as nat)],
                offset,
            ),
            DocItemV::Comment { .. } => {},
        }
        lemma_items_hover_from_contains(env, items, d, offset, i + 1);
    }
}

proof fn lemma_docs_hover_contains(env: HoverEnv, docs: Seq<DocV>, offset: int, d: int)
    ensures
        docs_hover(env, docs, offset, d) matches Some((s, _)) ==> s.start <= offset < s.end,
    decreases docs.len() - d,
{
    if 0 <= d < docs.len() {
        lemma_items_hover_from_contains(env, docs[d].items, d, offset, 0);
        lemma_docs_hover_contains(env, docs, offset, d + 1);
    }
}

/// The span a hover reports covers the offset it was asked for.
pub proof fn lemma_hover_span_contains_offset(raw: Seq<u8>, file_id: FileId, offset: int)
    ensures
        hover_spec(raw, file_id, offset) matches Some((s, _)) ==> s.start <= offset < s.end,
{
    let b = crlf_to_lf(raw, 0);
    let docs = parse_file_spec(file_id, b).0;
    let env = HoverEnv { norm: b, file_id, defs: file_defs(docs, docs.len() as int) };
    lemma_docs_hover_contains(env, docs, offset, 0);
    crate::hover::diags::lemma_diagnostic_hover_contains(b, file_id, document_diags(raw, file_id), offset);
}

} // verus!
