//! The definitions that a parsed file makes: documents, directives, imports and their
//! aliases, let bindings, mapping keys and tags.
use vstd::prelude::*;
use vstd::utf8::valid_utf8;

use crate::ast::{
    opt_text, AstFile, DocItemV, DocV, Directive, Document, DocumentItem, EntryV, LetBinding, Mapping,
    MappingEntry, Node, NodeV, TagNode,
};
use crate::formatting::trimmed_piece;
use crate::parser::fallback::{decimal, document_name, document_word, lemma_decimal_ascii, push_decimal};
use crate::symbols::{DefV, Definition, DefinitionKind, PathSegment, SegV, SymbolPath};
use crate::syntax::SourceSpan;
use crate::text::{
    bytes_to_string, char_boundary, lemma_ascii_valid, lemma_boundary_after_ascii, lemma_match_boundary,
    lemma_rfind_pat_bounds, lemma_str_valid, lemma_utf8_injective, lemma_valid_subrange, rfind_pat,
    rfind_pat_exec, skip_ws, skip_ws_back, str_eq, substring, utf8,
};

verus! {

#[derive(Debug, Clone, PartialEq, Eq)]
pub struct SemanticDocument {
    pub definitions: Vec<Definition>,
}

impl Default for SemanticDocument {
    fn default() -> (doc: Self)
        ensures
            doc.definitions@.len() == 0,
    {
        SemanticDocument { definitions: Vec::new() }
    }
}

pub open spec fn lit(s: &str) -> Seq<u8> {
    utf8(s@)
}

pub open spec fn defs_view(s: Seq<Definition>) -> Seq<DefV> {
    s.map_values(|d: Definition| d.view_def())
}

// ---------------------------------------------------------------------------
// Directive values: `target`, `"target"`, `target as alias`
/// `[lo, hi)` with white space cut from both ends (`str::trim`).
pub open spec fn trim_range(b: Seq<u8>, lo: int, hi: int) -> (int, int) {
    let s = skip_ws(b, lo, hi);
    (s, skip_ws_back(b, s, hi))
}

/// `[lo, hi)` without one pair of matching single or double quotes around it.
pub open spec fn unquoted(b: Seq<u8>, lo: int, hi: int) -> (int, int) {
    if hi - lo >= 2 && ((b[lo] == 0x27 && b[hi - 1] == 0x27) || (b[lo] == 0x22 && b[hi - 1] == 0x22)) {
        (lo + 1, hi - 1)
    } else {
        (lo, hi)
    }
}

/// " as "
pub open spec fn as_word() -> Seq<u8> {
    seq![0x20u8, 0x61u8, 0x73u8, 0x20u8]
}

/// The target and alias of an import directive's value: nothing for a blank value;
/// around the last ` as `, the unquoted target before it and the alias after it;
/// else the whole unquoted value as the target.
pub open spec fn split_value(b: Seq<u8>) -> (Option<Seq<u8>>, Option<Seq<u8>>) {
    let (s, e) = trim_range(b, 0, b.len() as int);
    if s == e {
        (None, None)
    } else {
        match rfind_pat(b, s, e, as_word()) {
            Some(p) => {
                let (ts, te) = trim_range(b, s, p);
                let (qs, qe) = unquoted(b, ts, te);
                let (xs, xe) = trim_range(b, p + 4, e);
                (Some(b.subrange(qs, qe)), Some(b.subrange(xs, xe)))
            },
            None => {
                let (qs, qe) = unquoted(b, s, e);
                (Some(b.subrange(qs, qe)), None)
            },
        }
    }
}

pub(crate) fn unquoted_exec(b: &[u8], lo: usize, hi: usize) -> (r: (usize, usize))
    requires
        valid_utf8(b@),
        lo <= hi <= b@.len(),
        char_boundary(b@, lo as int),
        char_boundary(b@, hi as int),
    ensures
        r.0 as int == unquoted(b@, lo as int, hi as int).0,
        r.1 as int == unquoted(b@, lo as int, hi as int).1,
        lo <= r.0 <= r.1 <= hi,
        char_boundary(b@, r.0 as int),
        char_boundary(b@, r.1 as int),
{
    if hi - lo >= 2 && ((b[lo] == 0x27 && b[hi - 1] == 0x27) || (b[lo] == 0x22 && b[hi - 1] == 0x22)) {
        proof {
            lemma_boundary_after_ascii(b@, lo as int);
        }
        (lo + 1, hi - 1)
    } else {
        (lo, hi)
    }
}

/// Splits an import directive's value into its target and alias.
pub fn split_directive_value(value: &str) -> (r: (Option<String>, Option<String>))
    ensures
        match r.0 {
            Some(t) => split_value(utf8(value@)).0 == Some(utf8(t@)),
            None => split_value(utf8(value@)).0 is None,
        },
        match r.1 {
            Some(a) => split_value(utf8(value@)).1 == Some(utf8(a@)),
            None => split_value(utf8(value@)).1 is None,
        },
{
    let b = value.as_bytes();
    let ghost bs = b@;
    proof {
        lemma_str_valid(value@);
    }
    let n = b.len();
    let (s, e) = trimmed_piece(b, 0, n);
    if s == e {
        return (None, None);
    }
    let pat: [u8; 4] = [0x20, 0x61, 0x73, 0x20];
    let ghost pv = pat@;
    proof {
        assert(pv =~= as_word());
    }
    match rfind_pat_exec(b, s, e, pat.as_slice()) {
        Some(p) => {
            proof {
                lemma_rfind_pat_bounds(bs, s as int, e as int, as_word());
                lemma_match_boundary(bs, p as int, e as int, as_word());
                assert(bs[p + 3] == as_word()[3]);
                lemma_boundary_after_ascii(bs, p + 3);
            }
            let (ts, te) = trimmed_piece(b, s, p);
            let (qs, qe) = unquoted_exec(b, ts, te);
            let (xs, xe) = trimmed_piece(b, p + 4, e);
            let target = substring(b, qs, qe);
            let alias = substring(b, xs, xe);
            (Some(target), Some(alias))
        },
        None => {
            let (qs, qe) = unquoted_exec(b, s, e);
            (Some(substring(b, qs, qe)), None)
        },
    }
}

// ---------------------------------------------------------------------------
// Definitions as values
/// The directives that import another file.
pub open spec fn is_import_name(n: Seq<u8>) -> bool {
    n == lit("@import") || n == lit("@include") || n == lit("@use")
}

pub open spec fn directive_defs(name: Seq<u8>, span: SourceSpan, value: Option<Seq<u8>>, path: Seq<SegV>) -> Seq<DefV> {
    let own = DefV {
        name,
        kind: DefinitionKind::Directive,
        span,
        selection_span: span,
        path: path.push(SegV::Directive(name)),
        detail: value,
    };
    seq![own] + match value {
        Some(v) => if is_import_name(name) {
            let (target, alias) = split_value(v);
            (match target {
                Some(t) => seq![
                    DefV {
                        name: t,
                        kind: DefinitionKind::Import,
                        span,
                        selection_span: span,
                        path: path.push(SegV::Import(t)),
                        detail: Some(name),
                    },
                ],
                None => seq![],
            }) + match alias {
                Some(a) => seq![
                    DefV {
                        name: a,
                        kind: DefinitionKind::Alias,
                        span,
                        selection_span: span,
                        path: path.push(SegV::Alias(a)),
                        detail: target,
                    },
                ],
                None => seq![],
            }
        } else {
            seq![]
        },
        None => seq![],
    }
}

/// `start..end` of a let binding's value.
pub open spec fn range_text(span: SourceSpan) -> Seq<u8> {
    decimal(span.start as nat) + seq![0x2eu8, 0x2eu8] + decimal(span.end as nat)
}

/// Definitions made by a node whose values are scalars: its keys, or the tag itself.
pub open spec fn node_defs(n: NodeV, path: Seq<SegV>) -> Seq<DefV> {
    match n {
        NodeV::Mapping { entries, .. } => entries.map_values(
            |e: EntryV|
                DefV {
                    name: e.key,
                    kind: DefinitionKind::Key,
                    span: e.span,
                    selection_span: e.key_span,
                    path: path.push(SegV::Key(e.key)),
                    detail: e.metadata,
                },
        ),
        NodeV::Tag { name, span, .. } => seq![
            DefV {
                name,
                kind: DefinitionKind::Tag,
                span,
                selection_span: span,
                path: path.push(SegV::Tag(name)),
                detail: None,
            },
        ],
        _ => seq![],
    }
}

pub open spec fn item_defs(i: DocItemV, path: Seq<SegV>) -> Seq<DefV> {
    match i {
        DocItemV::Directive { name, span, value } => directive_defs(name, span, value, path),
        DocItemV::Let { name, span, value_span } => seq![
            DefV {
                name,
                kind: DefinitionKind::Let,
                span,
                selection_span: span,
                path: path.push(SegV::Let(name)),
                detail: match value_span {
                    Some(v) => Some(range_text(v)),
                    None => None,
                },
            },
        ],
        DocItemV::Node(n) => node_defs(n, path),
        DocItemV::Comment { .. } => seq![],
    }
}

pub open spec fn items_defs(items: Seq<DocItemV>, path: Seq<SegV>, k: int) -> Seq<DefV>
    decreases k,
{
    if k <= 0 {
        seq![]
    } else {
        items_defs(items, path, k - 1) + item_defs(items[k - 1], path)
    }
}

/// Definitions of document number `number` (from one): the document's root, then its items.
pub open spec fn doc_defs(d: DocV, number: nat) -> Seq<DefV> {
    let path = seq![SegV::Document(number)];
    seq![
        DefV {
            name: document_word() + decimal(number),
            kind: DefinitionKind::DocumentRoot,
            span: d.span,
            selection_span: match d.separator_span {
                Some(x) => x,
                None => d.span,
            },
            path,
            detail: None,
        },
    ] + items_defs(d.items, path, d.items.len() as int)
}

/// Definitions of the first `k` documents.
pub open spec fn file_defs(docs: Seq<DocV>, k: int) -> Seq<DefV>
    decreases k,
{
    if k <= 0 {
        seq![]
    } else {
        file_defs(docs, k - 1) + doc_defs(docs[k - 1], k as nat)
    }
}

// ---------------------------------------------------------------------------
// Collecting
fn copy_text(s: &Option<String>) -> (r: Option<String>)
    ensures
        opt_text(r) == opt_text(*s),
{
    match s {
        Some(t) => Some(t.clone()),
        None => None,
    }
}

fn is_import_directive(name: &String) -> (r: bool)
    ensures
        r == is_import_name(utf8(name@)),
{
    proof {
        if utf8(name@) == utf8("@import"@) {
            lemma_utf8_injective(name@, "@import"@);
        }
        if utf8(name@) == utf8("@include"@) {
            lemma_utf8_injective(name@, "@include"@);
        }
        if utf8(name@) == utf8("@use"@) {
            lemma_utf8_injective(name@, "@use"@);
        }
    }
    str_eq(name.as_str(), "@import") || str_eq(name.as_str(), "@include") || str_eq(name.as_str(), "@use")
}

fn push_directive_definitions(directive: &Directive, path: &SymbolPath, definitions: &mut Vec<Definition>)
    ensures
        defs_view(final(definitions)@) == defs_view(old(definitions)@) + directive_defs(
            utf8(directive.name@),
            directive.span,
            opt_text(directive.value),
            path.view_path(),
        ),
{
    let ghost before = definitions@;
    let ghost name = utf8(directive.name@);
    let ghost p = path.view_path();
    definitions.push(
        Definition {
            name: directive.name.clone(),
            kind: DefinitionKind::Directive,
            span: directive.span,
            selection_span: directive.span,
            path: path.child(PathSegment::Directive(directive.name.clone())),
            detail: copy_text(&directive.value),
        },
    );
    let ghost own = definitions@;
    proof {
        assert(defs_view(own) =~= defs_view(before).push(directive_defs(name, directive.span, opt_text(directive.value), p)[0]));
    }
    if let Some(value) = &directive.value {
        if is_import_directive(&directive.name) {
            let (target, alias) = split_directive_value(value.as_str());
            let ghost t_view = split_value(utf8(value@)).0;
            let ghost mid = definitions@;
            if let Some(t) = &target {
                definitions.push(
                    Definition {
                        name: t.clone(),
                        kind: DefinitionKind::Import,
                        span: directive.span,
                        selection_span: directive.span,
                        path: path.child(PathSegment::Import(t.clone())),
                        detail: Some(directive.name.clone()),
                    },
                );
            }
            let ghost after_target = definitions@;
            proof {
                assert(defs_view(after_target) =~= defs_view(mid) + match t_view {
                    Some(t) => seq![
                        DefV {
                            name: t,
                            kind: DefinitionKind::Import,
                            span: directive.span,
                            selection_span: directive.span,
                            path: p.push(SegV::Import(t)),
                            detail: Some(name),
                        },
                    ],
                    None => Seq::<DefV>::empty(),
                });
            }
            if let Some(a) = alias {
                definitions.push(
                    Definition {
                        name: a.clone(),
                        kind: DefinitionKind::Alias,
                        span: directive.span,
                        selection_span: directive.span,
                        path: path.child(PathSegment::Alias(a)),
                        detail: target,
                    },
                );
            }
            proof {
                assert(defs_view(definitions@) =~= defs_view(before) + directive_defs(
                    name,
                    directive.span,
                    opt_text(directive.value),
                    p,
                ));
            }
        } else {
            proof {
                assert(defs_view(definitions@) =~= defs_view(before) + directive_defs(
                    name,
                    directive.span,
                    opt_text(directive.value),
                    p,
                ));
            }
        }
    } else {
        proof {
            assert(defs_view(definitions@) =~= defs_view(before) + directive_defs(
                name,
                directive.span,
                opt_text(directive.value),
                p,
            ));
        }
    }
}

fn range_label(span: SourceSpan) -> (text: String)
    ensures
        utf8(text@) == range_text(span),
{
    let mut bytes: Vec<u8> = Vec::new();
    push_decimal(&mut bytes, span.start);
    bytes.push(0x2e);
    bytes.push(0x2e);
    push_decimal(&mut bytes, span.end);
    proof {
        lemma_decimal_ascii(span.start as nat);
        lemma_decimal_ascii(span.end as nat);
        let a = decimal(span.start as nat);
        let c = decimal(span.end as nat);
        assert(bytes@ =~= range_text(span));
        assert forall|i: int| 0 <= i < bytes@.len() implies #[trigger] crate::text::is_ascii_byte(
            bytes@[i],
        ) by {
            if i < a.len() {
                assert(bytes@[i] == a[i]);
            } else if i >= a.len() + 2 {
                assert(bytes@[i] == c[i - a.len() - 2]);
            }
        }
        lemma_ascii_valid(bytes@);
    }
    bytes_to_string(bytes)
}

fn push_let_definition(binding: &LetBinding, path: &SymbolPath, definitions: &mut Vec<Definition>)
    ensures
        defs_view(final(definitions)@) == defs_view(old(definitions)@) + item_defs(
            DocItemV::Let { name: utf8(binding.name@), span: binding.span, value_span: binding.value_span },
            path.view_path(),
        ),
{
    let ghost before = definitions@;
    let detail = match binding.value_span {
        Some(span) => Some(range_label(span)),
        None => None,
    };
    definitions.push(
        Definition {
            name: binding.name.clone(),
            kind: DefinitionKind::Let,
            span: binding.span,
            selection_span: binding.span,
            path: path.child(PathSegment::Let(binding.name.clone())),
            detail,
        },
    );
    proof {
        assert(defs_view(definitions@) =~= defs_view(before) + item_defs(
            DocItemV::Let { name: utf8(binding.name@), span: binding.span, value_span: binding.value_span },
            path.view_path(),
        ));
    }
}

fn collect_mapping_definitions(mapping: &Mapping, path: &SymbolPath, definitions: &mut Vec<Definition>)
    requires
        forall|i: int|
            0 <= i < mapping.entries@.len() ==> crate::ast::opt_is_leaf(#[trigger] mapping.entries@[i].value),
    ensures
        defs_view(final(definitions)@) == defs_view(old(definitions)@) + node_defs(
            NodeV::Mapping {
                span: mapping.span,
                entries: mapping.entries@.map_values(|e: MappingEntry| e.view_entry()),
            },
            path.view_path(),
        ),
{
    let ghost start = definitions@;
    let ghost p = path.view_path();
    let ghost ev = mapping.entries@.map_values(|e: MappingEntry| e.view_entry());
    let ghost all = node_defs(NodeV::Mapping { span: mapping.span, entries: ev }, p);
    let n = mapping.entries.len();
    let mut i: usize = 0;
    while i < n
        invariant
            i <= n,
            n == mapping.entries@.len(),
            p == path.view_path(),
            ev == mapping.entries@.map_values(|e: MappingEntry| e.view_entry()),
            all == node_defs(NodeV::Mapping { span: mapping.span, entries: ev }, p),
            all.len() == n,
            defs_view(definitions@) =~= defs_view(start) + all.subrange(0, i as int),
        decreases n - i,
    {
        let entry = &mapping.entries[i];
        let ghost before = definitions@;
        let entry_path = path.child(PathSegment::Key(entry.key.clone()));
        definitions.push(
            Definition {
                name: entry.key.clone(),
                kind: DefinitionKind::Key,
                span: entry.span,
                selection_span: entry.key_span,
                path: entry_path,
                detail: copy_text(&entry.metadata),
            },
        );
        proof {
            assert(ev[i as int] == entry.view_entry());
            assert(defs_view(definitions@) =~= defs_view(before).push(all[i as int]));
            assert(all.subrange(0, i + 1) =~= all.subrange(0, i as int).push(all[i as int]));
        }
        i = i + 1;
    }
    proof {
        assert(all.subrange(0, n as int) =~= all);
    }
}

fn push_item_definitions(item: &DocumentItem, path: &SymbolPath, definitions: &mut Vec<Definition>)
    requires
        item matches DocumentItem::Node(n) ==> n.nested_leaves(),
    ensures
        defs_view(final(definitions)@) == defs_view(old(definitions)@) + item_defs(
            item.view_item(),
            path.view_path(),
        ),
{
    match item {
        DocumentItem::Directive(directive) => push_directive_definitions(directive, path, definitions),
        DocumentItem::Let(binding) => push_let_definition(binding, path, definitions),
        DocumentItem::Node(node) => match node {
            Node::Mapping(mapping) => collect_mapping_definitions(mapping, path, definitions),
            Node::Tag(tag) => {
                let ghost before = definitions@;
                definitions.push(
                    Definition {
                        name: tag.name.clone(),
                        kind: DefinitionKind::Tag,
                        span: tag.span,
                        selection_span: tag.span,
                        path: path.child(PathSegment::Tag(tag.name.clone())),
                        detail: None,
                    },
                );
                proof {
                    assert(defs_view(definitions@) =~= defs_view(before) + item_defs(
                        item.view_item(),
                        path.view_path(),
                    ));
                }
            },
            _ => {
                assert(defs_view(definitions@) =~= defs_view(old(definitions)@) + Seq::<DefV>::empty());
            },
        },
        DocumentItem::Comment(_) => {
            assert(defs_view(definitions@) =~= defs_view(old(definitions)@) + Seq::<DefV>::empty());
        },
    }
}

fn push_document_definitions(document: &Document, number: usize, definitions: &mut Vec<Definition>)
    requires
        document.nodes_nested_leaves(),
    ensures
        defs_view(final(definitions)@) == defs_view(old(definitions)@) + doc_defs(document.view_doc(), number as nat),
{
    let ghost start = definitions@;
    let ghost dv = document.view_doc();
    let document_path = SymbolPath::root(number);
    let ghost p = document_path.view_path();
    definitions.push(
        Definition {
            name: document_name(number),
            kind: DefinitionKind::DocumentRoot,
            span: document.span,
            selection_span: match document.separator_span {
                Some(x) => x,
                None => document.span,
            },
            path: SymbolPath::root(number),
            detail: None,
        },
    );
    let ghost head = definitions@;
    let n = document.items.len();
    let mut j: usize = 0;
    while j < n
        invariant
            j <= n,
            n == document.items@.len(),
            dv == document.view_doc(),
            p == document_path.view_path(),
            p == seq![SegV::Document(number as nat)],
            document.nodes_nested_leaves(),
            defs_view(definitions@) =~= defs_view(head) + items_defs(dv.items, p, j as int),
        decreases n - j,
    {
        let item = &document.items[j];
        assert(document.items@[j as int] matches DocumentItem::Node(nd) ==> nd.nested_leaves());
        push_item_definitions(item, &document_path, definitions);
        proof {
            assert(dv.items[j as int] == item.view_item());
        }
        j = j + 1;
    }
    proof {
        assert(defs_view(definitions@) =~= defs_view(start) + doc_defs(dv, number as nat));
    }
}

impl SemanticDocument {
    /// The definitions of a parsed file, in document order: for each document (numbered from
    /// one) its root, then for each item the definitions it makes.
    pub fn from_ast(file: &AstFile) -> (doc: Self)
        requires
            forall|i: int|
                0 <= i < file.documents@.len() ==> (#[trigger] file.documents@[i]).nodes_nested_leaves(),
        ensures
            defs_view(doc.definitions@) == file_defs(
                file.documents@.map_values(|d: Document| d.view_doc()),
                file.documents@.len() as int,
            ),
    {
        let ghost docs = file.documents@.map_values(|d: Document| d.view_doc());
        let mut definitions: Vec<Definition> = Vec::new();
        let n = file.documents.len();
        let mut i: usize = 0;
        while i < n
            invariant
                i <= n,
                n == file.documents@.len(),
                docs == file.documents@.map_values(|d: Document| d.view_doc()),
                forall|k: int|
                    0 <= k < file.documents@.len() ==> (#[trigger] file.documents@[k]).nodes_nested_leaves(),
                defs_view(definitions@) =~= file_defs(docs, i as int),
            decreases n - i,
        {
            assert(file.documents@[i as int].nodes_nested_leaves());
            push_document_definitions(&file.documents[i], i + 1, &mut definitions);
            proof {
                assert(docs[i as int] == file.documents@[i as int].view_doc());
            }
            i = i + 1;
        }
        SemanticDocument { definitions }
    }
}

} // verus!
